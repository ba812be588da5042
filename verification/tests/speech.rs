//! The tool surface every host renders.

use tinyhivemind::speech::{interpret, tool_specs, CallArguments, ParameterKind, ToolSpec, READ_DEFAULT, READ_MAX};

fn spec(name: &str) -> ToolSpec {
    tool_specs()
        .into_iter()
        .find(|spec| spec.name == name)
        .expect("the tool is served")
}

#[test]
fn serves_exactly_the_seven_tools_a_seat_may_call() {
    let names: Vec<&str> = tool_specs().iter().map(|spec| spec.name).collect();
    assert_eq!(
        names,
        vec!["post", "broadcast", "dm", "ask", "ask_teammates", "complete_episode", "read"]
    );
}

#[test]
fn an_ask_takes_one_seat_and_says_the_answer_comes_later() {
    let ask = spec("ask");
    let to = ask.parameters.first().expect("ask takes a seat");
    assert_eq!(to.name, "to");
    assert_eq!(to.kind, ParameterKind::Text, "one seat, so the schema says one string rather than a list");
    assert!(to.required);
    assert!(ask.description.contains("`ask_teammates`"));
    assert!(ask.description.contains("later turn"));
    assert!(ask.description.contains("not be able to finish"));
    assert!(ask.description.contains("not a handoff"));
}

#[test]
fn a_group_ask_takes_two_or_more_and_says_what_a_shared_room_is_for() {
    let group = spec("ask_teammates");
    let to = group.parameters.first().expect("it takes seats");
    assert_eq!(to.name, "to");
    assert_eq!(to.kind, ParameterKind::TextList, "a group is a list of ids, and the schema says so");
    assert!(group.description.contains("read each other's answers"));
    assert!(group.description.contains("`ask`"));
}

#[test]
fn every_tool_is_one_a_seat_can_actually_call() {
    for spec in tool_specs() {
        let to = if spec.name == "ask" {
            vec!["checker".to_string()]
        } else {
            vec!["checker".to_string(), "theory".to_string()]
        };
        let arguments = CallArguments { message: Some("something".to_string()), to, limit: None };
        assert!(interpret(spec.name, &arguments).is_ok(), "{} is served but not interpreted", spec.name);
    }
}

#[test]
fn every_tool_says_what_it_is_for_and_what_it_takes() {
    for spec in tool_specs() {
        assert!(spec.description.len() > 80, "{} needs a description a seat can act on", spec.name);
        for parameter in &spec.parameters {
            assert!(!parameter.name.is_empty(), "{} has a nameless argument", spec.name);
        }
    }
}

#[test]
fn the_read_bounds_are_the_ones_the_room_enforces() {
    let read = spec("read");
    let limit = read.parameters.first().expect("read takes a limit");
    assert_eq!(
        limit.kind,
        ParameterKind::Count { default: READ_DEFAULT as u64, min: 1, max: READ_MAX as u64 },
        "the schema a seat reads must state the clamp the room applies",
    );
    assert!(!limit.required, "a read without a limit is still a read");
}

#[test]
fn speaking_is_described_as_the_only_way_to_be_heard() {
    assert!(spec("post").description.contains("reaches nobody"));
    assert!(spec("complete_episode").description.contains("that message is your finding"));
    assert!(tool_specs().iter().any(|spec| spec.name == "broadcast"));
    assert!(!tool_specs().iter().any(|spec| spec.name == "close"));
}

#[test]
fn what_a_seat_commits_is_described_as_read_by_a_person() {
    for name in ["post", "broadcast", "complete_episode"] {
        let spec = spec(name);
        assert!(spec.description.contains("A person reads this"), "`{name}` says a person reads what it carries");
        assert!(spec.description.contains("by name"), "`{name}` asks for teammates by name");
    }
    let complete = spec("complete_episode");
    let message = complete
        .parameters
        .iter()
        .find(|parameter| parameter.name == "message")
        .and_then(|parameter| parameter.description)
        .expect("the finding is described");
    assert!(message.contains("for a person"));
    assert!(!message.contains("nothing else you wrote"));
}

#[test]
fn a_recipient_is_named_by_id_not_by_display_name() {
    for name in ["ask", "dm"] {
        let to = spec(name)
            .parameters
            .iter()
            .find(|p| p.name == "to")
            .and_then(|parameter| parameter.description)
            .expect("the recipient is described");
        assert!(to.contains("id"), "`{name}` asks for an id");
        assert!(to.contains("name"), "`{name}` says a name is not an id");
    }
}

#[test]
fn an_ask_naming_two_is_refused_in_so_many_words() {
    let arguments = CallArguments {
        message: Some("which port?".to_string()),
        to: vec!["one".to_string(), "two".to_string()],
        limit: None,
    };
    let refused = interpret("ask", &arguments).expect_err("ask takes one seat");
    assert_eq!(
        refused.reason(),
        "`ask` takes one seat; to put one question to several in one conversation, use `ask_teammates`"
    );
    let unknown = interpret("shout", &arguments).expect_err("not a tool");
    assert_eq!(unknown.reason(), "unknown tool shout");
    let bare = CallArguments { message: None, to: Vec::new(), limit: None };
    assert_eq!(interpret("post", &bare).expect_err("no message").reason(), "missing argument `message`");
}
