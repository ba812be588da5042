//! The in-memory journal a test or an offline host keeps.

use tinyhivemind::offline::MemoryLog;
use tinyhivemind::session::Sequence;

/// The task, a desk post, an ask from one to two and its answer in the
/// thread, a note to one alone, and a desk post from three.
fn journal() -> MemoryLog {
    let mut log = MemoryLog::new("engineering");
    log.append("operator", "the login flow rejects valid credentials", None, None);
    log.append("one", "looking into it", None, None);
    let root = log.append("one", "asks @two: which port?", None, Some("two"));
    log.append("two", "port 8080", Some(root), None);
    log.append("desk", "you hold open work", None, Some("one"));
    log.append("three", "the cache is stale", None, None);
    log
}

#[test]
fn the_memory_log_pages_newest_first_and_says_when_it_is_done() {
    let log = journal();
    let first = log.read_before(None, 4);
    let sequences: Vec<u64> = first.messages.iter().map(|row| row.sequence.0).collect();
    assert_eq!(sequences, vec![6, 5, 4, 3]);
    assert_eq!(first.next_before, Some(Sequence(3)));
    let rest = log.read_before(first.next_before, 4);
    let sequences: Vec<u64> = rest.messages.iter().map(|row| row.sequence.0).collect();
    assert_eq!(sequences, vec![2, 1]);
    assert_eq!(rest.next_before, None, "the log is finished");
    assert_eq!(first.messages[2].parent, Some(Sequence(3)), "a thread row names its root");
    assert_eq!(log.latest(), Sequence(6));
    assert_eq!(log.all().len(), 6);
    assert_eq!(log.thread(Sequence(3)).len(), 2);
    assert_eq!(log.thread_since(Sequence(3), Sequence(3)), vec!["@two: port 8080"]);
    let for_two = log.desk_since("two", Sequence(0));
    assert!(for_two.iter().any(|row| row.contains("which port")));
    assert!(!for_two.iter().any(|row| row.contains("open work")));
    assert!(format!("{log:?}").contains("engineering"));
}

#[test]
fn a_log_numbered_from_zero_pages_the_same_way() {
    let mut log = tinyhivemind::journal::MemoryLog::numbered_from("engineering", Sequence(0));
    assert_eq!(log.latest(), None);
    let first = log.append("operator", "the task", None, None);
    assert_eq!(first, Sequence(0));
    log.append_to("marketing", "three", "launch is friday", None, None);
    assert_eq!(log.latest(), Some(Sequence(1)));
    let page = log.read_before(None, 1);
    assert_eq!(page.messages.len(), 1);
    assert_eq!(page.messages[0].chat_id.as_deref(), Some("marketing"));
    assert_eq!(page.next_before, Some(Sequence(1)));
    let rest = log.read_before(page.next_before, 5);
    assert_eq!(rest.messages.len(), 1);
    assert_eq!(rest.next_before, None);
}

#[test]
fn the_next_desk_read_gives_back_exactly_the_row_appended() {
    let mut log = tinyhivemind::journal::MemoryLog::new("engineering");
    log.append("operator", "the task", None, None);
    let root = log.append("one", "asks @two: which port?", None, Some("two"));
    log.append("two", "port 8080", Some(root), None);
    let seen = log.latest();
    log.append("three", "the cache is stale", None, None);
    assert_eq!(log.desk_since("one", seen), ["@three: the cache is stale"]);
    assert_eq!(log.desk_since("two", seen), ["@three: the cache is stale"]);
    assert_eq!(log.desk_since("three", seen), ["@three: the cache is stale"]);
    assert_eq!(log.thread_since(root, Some(root)), ["@two: port 8080"]);
}
