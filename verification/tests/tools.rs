//! The server's memory: turns, inboxes, windows, and the in-process call.

use tinyhivemind::speech::{CallArguments, ToolCall, Utterance};
use tinyhivemind::tools::{read_arguments, Arguments, Dispatch, EpisodeTools, ParentValue, SeatEvent, ToValue};

fn dispatch() -> Dispatch {
    Dispatch { chat: "engineering".into(), parent: None }
}

fn args(message: Option<&str>, to: &[&str], chat: Option<&str>, parent: Option<&str>) -> Arguments {
    Arguments {
        chat: chat.map(str::to_owned),
        parent: parent.map(str::to_owned),
        call: CallArguments {
            message: message.map(str::to_owned),
            to: to.iter().map(|s| (*s).to_owned()).collect(),
            limit: None,
        },
    }
}

#[test]
fn a_registered_turn_is_visible_until_cleared() {
    let mut tools = EpisodeTools::new(&["lead", "solver"]);
    assert_eq!(tools.open_turn("lead"), None);
    tools.register("lead", dispatch());
    assert_eq!(tools.open_turn("lead"), Some(dispatch()));
    tools.clear("lead");
    assert_eq!(tools.open_turn("lead"), None);
}

#[test]
fn draining_takes_a_seats_calls_in_order_and_leaves_nothing() {
    let mut tools = EpisodeTools::new(&["lead", "solver"]);
    for message in ["first", "second"] {
        tools.record(SeatEvent {
            seat: "lead".into(),
            call: ToolCall::Speak(Utterance::Post { message: message.into() }),
            dispatch: dispatch(),
        });
    }
    let drained = tools.drain("lead");
    assert_eq!(drained.len(), 2);
    assert_eq!(drained[0].call, ToolCall::Speak(Utterance::Post { message: "first".into() }));
    assert!(tools.drain("lead").is_empty(), "drained means gone");
    assert!(tools.drain("solver").is_empty(), "another seat's inbox is its own");
}

#[test]
fn the_window_is_a_snapshot_and_read_returns_its_newest_rows() {
    let mut tools = EpisodeTools::new(&["lead"]);
    assert!(tools.recent("lead", 5).is_empty(), "no window, no rows");
    tools.window("lead", (1..=5).map(|n| format!("row {n}")).collect());
    assert_eq!(tools.recent("lead", 2), ["row 4", "row 5"]);
    assert_eq!(tools.recent("lead", 50).len(), 5, "asking for more returns what there is");
}

#[test]
fn only_listed_seats_are_known() {
    let tools = EpisodeTools::new(&["lead"]);
    assert!(tools.knows("lead"));
    assert!(!tools.knows("johnny"));
    assert_eq!(tools.seats(), ["lead"]);
}

#[test]
fn an_in_process_call_is_checked_interpreted_and_recorded() {
    let mut tools = EpisodeTools::new(&["lead", "solver"]);
    tools.register("lead", dispatch());
    let receipt = tools
        .call("lead", "complete_episode", &args(Some("done"), &[], Some("engineering"), None))
        .expect("a well-formed call is accepted");
    assert_eq!(receipt, "recorded: your assignment is complete");
    let drained = tools.drain("lead");
    assert_eq!(drained.len(), 1);
    assert_eq!(drained[0].call, ToolCall::Speak(Utterance::CompleteEpisode { message: "done".into() }));
    assert_eq!(drained[0].dispatch, dispatch());
}

#[test]
fn an_in_process_call_is_refused_where_the_wire_would_refuse_it() {
    let mut tools = EpisodeTools::new(&["lead", "solver"]);
    let good = |name: &str| args(Some("x"), &[name], Some("engineering"), None);
    assert!(tools.call("nobody", "post", &good("lead")).is_err());
    let refusal = tools.call("lead", "post", &good("lead")).expect_err("no turn is open");
    assert!(refusal.contains("no turn is open"));
    tools.register("lead", dispatch());
    let refusal = tools
        .call("lead", "post", &args(Some("x"), &[], Some("elsewhere"), None))
        .expect_err("wrong chat");
    assert!(refusal.contains("\"chat\": \"engineering\" and \"parent\": null"));
    assert!(tools.call("lead", "dm", &good("solver")).is_err());
    assert!(tools.call("lead", "ask", &good("lead")).is_err());
    let refusal = tools.call("lead", "ask", &good("ghost")).expect_err("unknown recipient");
    assert!(refusal.contains("You can ask: lead, solver"));
    assert!(tools.drain("lead").is_empty());
    tools.register("lead", Dispatch { chat: "engineering".into(), parent: Some("7".into()) });
    let refusal = tools
        .call("lead", "ask", &args(Some("x"), &["solver"], Some("engineering"), Some("7")))
        .expect_err("no asks inside a conversation");
    assert!(refusal.contains("answer the seat that asked you"));
}

#[test]
fn an_in_process_read_returns_the_window_and_records_nothing() {
    let mut tools = EpisodeTools::new(&["lead"]);
    tools.register("lead", dispatch());
    tools.window("lead", vec!["@operator: one".into(), "@lead: two".into()]);
    let mut read = args(None, &[], Some("engineering"), None);
    read.call.limit = Some(1);
    let rows = tools.call("lead", "read", &read).expect("read is served");
    assert_eq!(rows, "@lead: two");
    assert!(tools.drain("lead").is_empty(), "a read is not an event");
}

#[test]
fn a_second_ask_to_a_seat_already_being_waited_on_is_refused() {
    let mut tools = EpisodeTools::new(&["lead", "solver", "scribe"]);
    tools.register("lead", dispatch());
    let ask = |to: &str| args(Some("what constrains it?"), &[to], Some("engineering"), None);
    tools.call("lead", "ask", &ask("solver")).expect("the first ask");
    assert_eq!(tools.drain("lead").len(), 1);
    tools.awaiting("lead", vec!["solver".to_owned()]);
    let refusal = tools.call("lead", "ask", &ask("solver")).expect_err("a second ask to the same seat");
    assert!(refusal.contains("already asked solver"), "{refusal}");
    assert!(tools.drain("lead").is_empty());
    tools.call("lead", "ask", &ask("scribe")).expect("a different seat");
    assert_eq!(tools.drain("lead").len(), 1);
    tools.awaiting("lead", Vec::new());
    tools.call("lead", "ask", &ask("solver")).expect("after it concluded");
    assert_eq!(tools.drain("lead").len(), 1);
}

#[test]
fn ask_teammates_names_a_group_and_is_refused_whole_if_one_of_them_is_held() {
    let mut tools = EpisodeTools::new(&["lead", "solver", "scribe"]);
    tools.register("lead", dispatch());
    let ask = |to: &[&str]| args(Some("does this hold for both of you?"), to, Some("engineering"), None);
    let receipt = tools.call("lead", "ask_teammates", &ask(&["solver", "scribe"])).expect("a group ask");
    assert!(receipt.starts_with("your question to solver and scribe is sent:"), "{receipt}");
    assert!(receipt.contains("one conversation together"), "{receipt}");
    assert!(receipt.contains("once every one of them has answered"), "{receipt}");
    assert_eq!(tools.drain("lead").len(), 1, "one ask, one event");
    tools.awaiting("lead", vec!["scribe".to_owned()]);
    let refusal = tools.call("lead", "ask_teammates", &ask(&["solver", "scribe"])).expect_err("one of them is held");
    assert!(refusal.contains("already asked scribe"), "{refusal}");
    assert!(tools.drain("lead").is_empty(), "a refused group ask records nothing");
    tools.awaiting("lead", Vec::new());
    let refusal = tools.call("lead", "ask_teammates", &ask(&["solver", "ghost"])).expect_err("a stranger in the group");
    assert!(refusal.contains("@ghost"), "{refusal}");
    assert!(refusal.contains("You can ask: lead, scribe, solver"), "{refusal}");
    let refusal = tools.call("lead", "ask_teammates", &ask(&["solver", "lead"])).expect_err("the caller is in the group");
    assert!(refusal.contains("names you"), "{refusal}");
}

#[test]
fn a_named_seat_is_called_by_its_name_in_what_the_caller_reads_back() {
    let mut tools = EpisodeTools::new(&["lead", "solver", "scribe"]);
    tools.name_seats(&[("solver", "Tess"), ("ghost", "Nobody"), ("scribe", " ")]);
    assert_eq!(tools.display_name("solver"), "Tess");
    assert_eq!(tools.display_name("scribe"), "scribe", "a blank name is none");
    assert_eq!(tools.display_name("ghost"), "ghost", "an unserved seat is not named");
    tools.register("lead", dispatch());
    let ask = |to: &str| args(Some("what constrains it?"), &[to], Some("engineering"), None);
    let receipt = tools.call("lead", "ask", &ask("solver")).expect("asked");
    assert!(receipt.starts_with("your question to Tess is sent."), "{receipt}");
    assert!(!receipt.contains("@solver"), "{receipt}");
    let refusal = tools.call("lead", "ask", &ask("ghost")).expect_err("unknown recipient");
    assert!(refusal.contains("You can ask: lead, scribe, Tess (id `solver`)"), "{refusal}");
    tools.awaiting("lead", vec!["solver".to_owned()]);
    let refusal = tools.call("lead", "ask", &ask("solver")).expect_err("already waiting");
    assert!(refusal.contains("already asked Tess"), "{refusal}");
}

#[test]
fn a_withheld_tool_is_not_offered_not_contracted_and_not_served() {
    let mut tools = EpisodeTools::new(&["lead", "solver", "scribe"]).withhold(&["ask_teammates"]);
    tools.register("lead", dispatch());
    let contracted: Vec<&str> = tools.specs().iter().map(|spec| spec.name).collect();
    assert_eq!(contracted, ["broadcast", "ask", "complete_episode", "read"]);
    let refusal = tools
        .call("lead", "ask_teammates", &args(Some("both of you?"), &["solver", "scribe"], Some("engineering"), None))
        .expect_err("a withheld tool is not served");
    assert_eq!(refusal, "unknown tool ask_teammates");
    assert!(tools.drain("lead").is_empty());
    tools.call("lead", "ask", &args(Some("you?"), &["solver"], Some("engineering"), None)).expect("ask is served");
    assert_eq!(tools.drain("lead").len(), 1);
}

#[test]
fn an_unnamed_seat_is_called_by_its_id() {
    let mut tools = EpisodeTools::new(&["lead", "solver"]);
    assert_eq!(tools.display_name("solver"), "solver");
    tools.register("lead", dispatch());
    let receipt = tools
        .call("lead", "ask", &args(Some("?"), &["solver"], Some("engineering"), None))
        .expect("asked");
    assert!(receipt.starts_with("your question to solver is sent."), "{receipt}");
}

#[test]
fn a_refused_call_is_kept_for_the_host_and_drained_once() {
    let mut tools = EpisodeTools::new(&["lead"]);
    tools.register("lead", dispatch());
    let refused = tools
        .call("lead", "shout", &args(Some("x"), &[], Some("engineering"), None))
        .expect_err("not a tool");
    assert_eq!(refused, "unknown tool shout");
    let kept = tools.drain_refusals("lead");
    assert_eq!(kept.len(), 1);
    assert_eq!(kept[0].tool, "shout");
    assert_eq!(kept[0].reason, "unknown tool shout");
    assert!(tools.drain_refusals("lead").is_empty());
    assert!(tools.drain("lead").is_empty());
}

#[test]
fn a_seat_is_called_by_the_last_name_given_that_is_not_blank() {
    let mut tools = EpisodeTools::new(&["lead", "solver"]);
    tools.name_seats(&[("solver", "Tess")]);
    tools.name_seats(&[("solver", "Tessa"), ("lead", "Lee")]);
    tools.name_seats(&[("solver", "  "), ("ghost", "Gus")]);
    assert_eq!(tools.display_name("solver"), "Tessa");
    assert_eq!(tools.display_name("lead"), "Lee");
    assert_eq!(tools.display_name("ghost"), "ghost");
}

#[test]
fn withholding_keeps_the_order_of_what_is_still_offered() {
    let tools = EpisodeTools::new(&["lead"]).withhold(&["ask", "dm", "read"]).withhold(&["broadcast"]);
    let offered: Vec<&str> = tools.specs().iter().map(|spec| spec.name).collect();
    assert_eq!(offered, ["ask_teammates", "complete_episode"]);
}

#[test]
fn arguments_take_one_recipient_or_a_list_and_a_root_as_text_or_number() {
    let one = read_arguments(Some("engineering".into()), ParentValue::Number("42".into()), Some("hi".into()), ToValue::One("solver".into()), Some(5));
    assert_eq!(one.chat.as_deref(), Some("engineering"));
    assert_eq!(one.parent.as_deref(), Some("42"));
    assert_eq!(one.call.to, ["solver"]);
    assert_eq!(one.call.limit, Some(5));
    let many = read_arguments(None, ParentValue::Text("7".into()), None, ToValue::Many(vec![Some("a".into()), None, Some("b".into())]), None);
    assert_eq!(many.call.to, ["a", "b"]);
    assert_eq!(many.parent.as_deref(), Some("7"));
    let none = read_arguments(None, ParentValue::Absent, None, ToValue::Absent, None);
    assert!(none.call.to.is_empty());
    assert_eq!(none.parent, None);
}
