//! What a hosted seat is seeded with, what its gate admits, and what its
//! turns become.

use tinyhivemind::hosted::{admission, finish_turn, history_bound, seed_history, seed_turn, with_persona, Admit, Disposition};
use tinyhivemind::runner::TurnResult;
use tinyhivemind::session::{Audience, Sequence, SessionAuthor, SessionMessage};

fn row(author: SessionAuthor, content: &str, audience: Audience) -> SessionMessage {
    SessionMessage { sequence: Sequence(1), author, audience, content: Some(content.to_owned()) }
}

fn agent(id: &str) -> SessionAuthor {
    SessionAuthor::Agent { id: id.to_owned(), label: id.to_owned() }
}

fn pair(role: &str, content: &str) -> Option<(String, String)> {
    Some((role.to_owned(), content.to_owned()))
}

#[test]
fn a_seats_own_rows_are_its_turns_and_everyone_elses_are_attributed() {
    let operator = row(SessionAuthor::Operator, "the login flow rejects valid credentials", Audience::Desk);
    assert_eq!(seed_turn(&operator, "one", true, "operator"), pair("user", "@operator: the login flow rejects valid credentials"));
    assert_eq!(seed_turn(&row(agent("one"), "looking into it", Audience::Desk), "one", true, "one"), pair("assistant", "looking into it"));
    assert_eq!(seed_turn(&row(agent("three"), "the cache is stale", Audience::Desk), "one", true, "three"), pair("user", "@three: the cache is stale"));
    assert_eq!(seed_turn(&row(agent("two"), "port 8080", Audience::Desk), "one", true, "Tess"), pair("user", "Tess: port 8080"));
    assert_eq!(seed_turn(&row(agent("two"), "port 8080", Audience::Desk), "one", true, "  "), pair("user", "@two: port 8080"));
    let desk = SessionAuthor::System { kind: "desk".into(), label: "desk".into() };
    let note = row(desk, "you hold open work", Audience::Aside { members: vec!["one".into()] });
    assert_eq!(seed_turn(&note, "one", true, "desk"), pair("user", "@desk (privately): you hold open work"));
    assert_eq!(seed_turn(&note, "one", false, "desk"), pair("user", "@desk: you hold open work"), "inside a conversation nothing is marked");
    let withheld = SessionMessage { content: None, ..row(agent("two"), "", Audience::Desk) };
    assert_eq!(seed_turn(&withheld, "one", true, "two"), None);
}

#[test]
fn a_history_keeps_order_and_leaves_out_what_was_withheld() {
    let rows = vec![
        row(SessionAuthor::Operator, "the task", Audience::Desk),
        SessionMessage { content: None, ..row(agent("two"), "", Audience::Desk) },
        row(agent("one"), "on it", Audience::Desk),
    ];
    let names = vec!["operator".to_owned(), "two".to_owned(), "one".to_owned()];
    let seen = seed_history(&rows, "one", true, &names);
    assert_eq!(seen, vec![("user".to_owned(), "@operator: the task".to_owned()), ("assistant".to_owned(), "on it".to_owned())]);
    let with = with_persona(seen.clone(), Some("You are one.".into()));
    assert_eq!(with[0], ("system".to_owned(), "You are one.".to_owned()));
    assert_eq!(&with[1..], &seen[..]);
    assert_eq!(with_persona(seen.clone(), None), seen);
    assert_eq!(with_persona(Vec::new(), Some("first".into())).len(), 1, "a first turn is told who it is too");
}

#[test]
fn nothing_above_the_watermark_is_read_and_a_seat_shown_nothing_reads_nothing() {
    assert_eq!(history_bound(Some(Sequence(6))), Some(Sequence(7)));
    assert_eq!(history_bound(Some(Sequence(u64::MAX))), None);
    assert_eq!(history_bound(None), Some(Sequence(0)));
}

#[test]
fn the_gate_admits_the_belt_and_leaves_the_rest_to_the_host() {
    let names = vec!["desk_read".to_owned(), "desk_ask".to_owned()];
    assert_eq!(admission(&names, "desk_read", false), Admit::Allow);
    assert_eq!(admission(&names, "shell", true), Admit::AskHost);
    assert_eq!(admission(&names, "shell", false), Admit::Deny("`shell` is not on this seat's belt".to_owned()));
}

#[test]
fn a_turns_own_error_stands_over_the_hosts() {
    assert_eq!(Disposition::default(), Disposition::Done);
    assert_eq!(finish_turn(Ok("done".into()), Ok(Disposition::Done)), TurnResult::Replied("done".into()));
    assert_eq!(finish_turn(Ok("done".into()), Ok(Disposition::Parked)), TurnResult::Parked);
    assert_eq!(finish_turn(Ok("done".into()), Err("halt".into())), TurnResult::Failed("halt".into()));
    assert_eq!(finish_turn(Err("timed out".into()), Err("halt".into())), TurnResult::Failed("timed out".into()));
}
