//! Every variant says what failed, in the words a host prints.

use tinyhivemind::error::Error;
use tinyhivemind::session::Sequence;

#[test]
fn each_failure_names_itself() {
    let cases: Vec<(Error, &str)> = vec![
        (Error::UnknownRunner("rae".into()), "TINYHIVEMIND_RUNNER"),
        (Error::IncompleteRoute, "endpoint"),
        (Error::RegistryMissing, "registry"),
        (Error::SeatNotRegistered { seat: "lead".into() }, "lead"),
        (Error::TimedOut { seat: "lead".into() }, "@lead timed out"),
        (Error::Io(std::io::Error::other("disk").to_string()), "writing a seat definition"),
        (Error::Harness("refused".into()), "refused"),
    ];
    for (error, expected) in cases {
        assert!(error.message().contains(expected), "{}: expected {expected:?}", error.message());
    }
}

#[test]
fn a_failure_with_numbers_writes_them_out() {
    assert_eq!(
        Error::InvalidStateRevision { revision: 12, receipt_count: 0 }.message(),
        "state revision 12 does not match its 0 receipts"
    );
    assert_eq!(
        Error::StaleRound { round_revision: 3, state_revision: 10 }.message(),
        "a round proposed at revision 3 is behind the state at 10"
    );
    assert_eq!(
        Error::DuplicateCommittedSequence { sequence: Sequence(907) }.message(),
        "a different event was already committed at 907"
    );
    assert_eq!(Error::Io("disk full".into()).message(), "writing a seat definition: disk full");
    assert_eq!(Error::Harness("no route".into()).message(), "no route");
    assert_eq!(
        Error::UnknownRunner("rae".into()).message(),
        "TINYHIVEMIND_RUNNER must be `embed`, `raw` or `hosted`, not `rae`"
    );
}
