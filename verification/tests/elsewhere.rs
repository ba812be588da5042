//! Which other conversations a seat is shown, and how a row reads.

use tinyhivemind::elsewhere::{render_row, same_conversation, ElsewhereQuery};
use tinyhivemind::session::{Audience, Conversation, Sequence, SessionAuthor, SessionMessage};

fn desk(id: &str) -> Conversation {
    Conversation { desk_id: id.to_owned(), desk_name: id.to_owned(), thread_root: None }
}

#[test]
fn every_conversation_but_the_turns_own_is_read() {
    let channels = [desk("engineering"), desk("marketing"), desk("legal")];
    let here = desk("engineering");
    let query = ElsewhereQuery { seat: "one", conversations: &channels, current: Some(&here), before: None, window: 30 };
    let desks: Vec<String> = query.targets().into_iter().map(|c| c.desk_id).collect();
    assert_eq!(desks, ["marketing", "legal"]);
    let all = ElsewhereQuery { current: None, ..query };
    assert_eq!(all.targets().len(), 3, "nothing is skipped without a current");
}

#[test]
fn a_thread_is_its_own_conversation() {
    let thread = Conversation { thread_root: Some(Sequence(1)), ..desk("engineering") };
    let channels = [desk("engineering"), Conversation { thread_root: Some(Sequence(1)), ..desk("engineering") }];
    assert!(!same_conversation(&desk("engineering"), Some(&thread)));
    assert!(same_conversation(&thread, Some(&Conversation { thread_root: Some(Sequence(1)), ..desk("engineering") })));
    let query = ElsewhereQuery { seat: "two", conversations: &channels, current: Some(&thread), before: None, window: 30 };
    let found = query.targets();
    assert_eq!(found.len(), 1, "the thread it is in is skipped, the desk is not");
    assert_eq!(found[0].thread_root, None);
}

#[test]
fn a_row_reads_as_its_authors_label() {
    let row = SessionMessage {
        sequence: Sequence(2),
        author: SessionAuthor::Agent { id: "three".into(), label: "Three".into() },
        audience: Audience::Desk,
        content: Some("launch is friday".into()),
    };
    assert_eq!(render_row(&row), Some("@Three: launch is friday".to_owned()));
    let withheld = SessionMessage { content: None, ..row };
    assert_eq!(render_row(&withheld), None);
}
