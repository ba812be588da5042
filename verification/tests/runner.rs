//! Which runner an episode uses, and how a turn is opened and closed.

use tinyhivemind::runner::{close_seat, open_seat, RunnerKind, TurnResult};
use tinyhivemind::speech::{CallArguments, ToolCall, Utterance};
use tinyhivemind::tools::{Arguments, Dispatch, EpisodeTools};

#[test]
fn each_runner_states_its_own_mechanics_and_nothing_else() {
    assert!(RunnerKind::Embed.how_to_call().contains("mcp_call_tool"));
    assert!(!RunnerKind::Raw.how_to_call().contains("mcp"));
    assert_eq!(RunnerKind::Embed.name(), "embed");
    assert_eq!(RunnerKind::Raw.name(), "raw");
    assert_eq!(RunnerKind::Hosted.name(), "hosted");
    assert_eq!(RunnerKind::Hosted.how_to_call(), RunnerKind::Raw.how_to_call());
}

#[test]
fn the_runner_is_named_by_its_value_and_defaults_to_embed() {
    assert_eq!(RunnerKind::parse(None), Ok(RunnerKind::Embed));
    assert_eq!(RunnerKind::parse(Some("")), Ok(RunnerKind::Embed));
    assert_eq!(RunnerKind::parse(Some("embed")), Ok(RunnerKind::Embed));
    assert_eq!(RunnerKind::parse(Some("raw")), Ok(RunnerKind::Raw));
    assert_eq!(RunnerKind::parse(Some("hosted")), Ok(RunnerKind::Hosted));
    assert_eq!(RunnerKind::parse(Some("rae")), Err("rae".to_owned()), "a typo must not run the default");
}

#[test]
fn a_turn_opened_on_the_record_is_closed_with_what_it_called() {
    let mut tools = EpisodeTools::new(&["lead"]);
    let dispatch = Dispatch { chat: "engineering".into(), parent: None };
    open_seat(&mut tools, "lead", vec!["    1  @operator: state the root cause".into()], dispatch.clone());
    assert_eq!(tools.open_turn("lead"), Some(dispatch));
    assert_eq!(tools.recent("lead", 5), ["    1  @operator: state the root cause"]);
    let call = Arguments {
        chat: Some("engineering".into()),
        parent: None,
        call: CallArguments { message: Some("the cache".into()), to: Vec::new(), limit: None },
    };
    tools.call("lead", "complete_episode", &call).expect("accepted");
    let events = close_seat(&mut tools, "lead");
    assert_eq!(events.len(), 1);
    assert_eq!(events[0].call, ToolCall::Speak(Utterance::CompleteEpisode { message: "the cache".into() }));
    assert_eq!(tools.open_turn("lead"), None, "the turn is closed");
    assert!(close_seat(&mut tools, "lead").is_empty(), "and nothing is left to take");
    assert!(TurnResult::Parked.parked());
    assert!(!TurnResult::Replied("ok".into()).parked());
}
