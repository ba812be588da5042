//! The reads a wave makes of the host's log, and the hooks a journal keeps.

use tinyhivemind::elsewhere::Elsewhere;
use tinyhivemind::episode::{elsewhere_view, newest, read_bound, render, rows_above, Journal, Report};
use tinyhivemind::offline::MemoryLog;
use tinyhivemind::session::{Audience, Conversation, Sequence, SessionAuthor, SessionMessage, SessionPage};

struct BareJournal(MemoryLog);

impl Journal for BareJournal {}

#[test]
fn a_journal_that_names_nobody_calls_a_seat_by_its_id() {
    let journal = BareJournal(MemoryLog::new("engineering"));
    assert_eq!(journal.display_name("one"), "one");
    assert!(journal.channels("one").is_empty());
    assert!(journal.0.all().is_empty());
}

fn row(sequence: u64, author: SessionAuthor, content: Option<&str>) -> SessionMessage {
    SessionMessage { sequence: Sequence(sequence), author, audience: Audience::Desk, content: content.map(str::to_owned) }
}

fn agent(id: &str, label: &str) -> SessionAuthor {
    SessionAuthor::Agent { id: id.to_owned(), label: label.to_owned() }
}

#[test]
fn a_brief_writes_a_seat_by_its_id_and_others_by_their_label() {
    assert_eq!(render(&row(1, SessionAuthor::Operator, Some("the task"))), Some("@operator: the task".to_owned()));
    assert_eq!(render(&row(2, agent("two", "Tess"), Some("8080"))), Some("@two: 8080".to_owned()));
    let person = SessionAuthor::Person { id: "p1".into(), label: "Pat".into() };
    assert_eq!(render(&row(3, person, Some("hi"))), Some("@Pat: hi".to_owned()));
    assert_eq!(render(&row(4, agent("two", "Tess"), None)), None, "a withheld row is nothing");
}

#[test]
fn only_the_rows_above_the_watermark_that_the_seat_may_read_are_new() {
    let rows = vec![
        row(1, SessionAuthor::Operator, Some("the task")),
        row(2, agent("one", "one"), None),
        row(3, agent("two", "two"), Some("found it")),
    ];
    assert_eq!(rows_above(&rows, None), ["@operator: the task", "@two: found it"]);
    assert_eq!(rows_above(&rows, Some(Sequence(1))), ["@two: found it"]);
    assert!(rows_above(&rows, Some(Sequence(3))).is_empty());
}

#[test]
fn a_wave_reads_through_its_watermark_and_no_further() {
    assert_eq!(read_bound(Sequence(6)), Some(Sequence(7)));
    assert_eq!(read_bound(Sequence(u64::MAX)), None, "nothing is above the last sequence");
    let empty = SessionPage { messages: Vec::new(), next_before: None };
    assert_eq!(newest(&empty), None);
    let mut log = MemoryLog::new("engineering");
    log.append("operator", "the task", None, None);
    log.append("one", "on it", None, None);
    assert_eq!(newest(&log.read_before(None, 1)), Some(Sequence(2)));
    assert_eq!(Report::default().turns, 0);
}

#[test]
fn another_conversation_reaches_the_brief_with_every_row_the_seat_may_read() {
    let found = Elsewhere {
        conversation: Conversation { desk_id: "ops".into(), desk_name: "Operations".into(), thread_root: Some(Sequence(4)) },
        rows: vec![
            row(4, SessionAuthor::Operator, Some("deploy tonight")),
            row(5, agent("two", "Tess"), None),
            row(6, agent("three", "Tom"), Some("ready")),
        ],
    };
    let view = elsewhere_view(found);
    assert_eq!(view.chat, "ops");
    assert_eq!(view.name, "Operations");
    assert_eq!(view.thread_root, Some(Sequence(4)));
    assert_eq!(view.rows, ["@operator: deploy tonight", "@three: ready"]);
}
