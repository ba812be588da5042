//! What the library's operations can fail with.
use vstd::prelude::*;

use crate::session::Sequence;
use crate::text::decimal;

verus! {

/// Every failure the library reports.
#[derive(Debug, Eq, PartialEq)]
pub enum Error {
    /// `TINYHIVEMIND_RUNNER` named no runner.
    UnknownRunner(String),
    /// A route was missing its endpoint or its key.
    IncompleteRoute,
    /// The definition registry did not come up after the seats were written.
    RegistryMissing,
    /// A seat's definition was written and the registry did not load it.
    SeatNotRegistered {
        /// The seat.
        seat: String,
    },
    /// A seat id would not name one plain file.
    UnsafeSeatId {
        /// The seat.
        seat: String,
    },
    /// A turn ran past its time.
    TimedOut {
        /// The seat.
        seat: String,
    },
    /// A driver was asked for rounds of no seats.
    ZeroRoundWidth,
    /// A state's revision is not its receipt count.
    InvalidStateRevision {
        /// The revision.
        revision: u64,
        /// The receipt count.
        receipt_count: usize,
    },
    /// A state names another desk.
    OutOfHiveEpisode {
        /// The desk id.
        desk_id: String,
    },
    /// A state names no participant.
    NoCompletionParticipants,
    /// A participant's id is blank.
    InvalidCompletionParticipant,
    /// A participant is listed twice.
    DuplicateCompletionParticipant {
        /// The agent id.
        agent_id: String,
    },
    /// A state or event names a seat this hive does not bind.
    OutOfHiveParticipant {
        /// The agent id.
        agent_id: String,
    },
    /// A receipt is filed under another sequence than its event's.
    InvalidReceiptSequence {
        /// The stored.
        stored: Sequence,
        /// The event.
        event: Sequence,
    },
    /// An event is not above the state's freshness floor.
    StaleCommittedEvent {
        /// The sequence.
        sequence: Sequence,
    },
    /// A state's freshness floor is not the one its contents give.
    InvalidFreshnessFloor {
        /// The stored.
        stored: Sequence,
        /// The derived.
        derived: Sequence,
    },
    /// A pending or routed seat has no bound agent.
    UnknownBoundAgent {
        /// The agent id.
        agent_id: String,
    },
    /// Another event reuses a committed sequence.
    DuplicateCommittedSequence {
        /// The sequence.
        sequence: Sequence,
    },
    /// A broadcast arrived without routing inputs.
    MissingBroadcastRouting,
    /// A routed broadcast names more seats than a round holds.
    BroadcastTooWide {
        /// The recipient count.
        recipient_count: usize,
        /// The round width.
        round_width: usize,
    },
    /// A routed broadcast names its own author.
    BroadcastIncludesAuthor {
        /// The agent id.
        agent_id: String,
    },
    /// The state revision is at its greatest.
    StateRevisionOverflow,
    /// A round's events do not match its seats in number.
    PartialRound {
        /// The expected.
        expected: usize,
        /// The received.
        received: usize,
    },
    /// An event's author was not in the round.
    UnexpectedRoundAuthor {
        /// The agent id.
        agent_id: String,
    },
    /// A round was proposed from an older state.
    StaleRound {
        /// The round revision.
        round_revision: u64,
        /// The state revision.
        state_revision: u64,
    },
    /// A round was proposed from another state.
    MismatchedRound {
        /// The round revision.
        round_revision: u64,
        /// The state revision.
        state_revision: u64,
    },
    /// A broadcast has no other participant to fall back on.
    NoBroadcastFallback {
        /// The agent id.
        agent_id: String,
    },
    /// A seat definition could not be written: what the file system said.
    Io(String),
    /// The harness refused: what it said.
    Harness(String),
}

/// The words a host prints for `e`.
pub open spec fn error_text(e: Error) -> Seq<char> {
    match e {
        Error::UnknownRunner(v0) => "TINYHIVEMIND_RUNNER must be `embed`, `raw` or `hosted`, not `"@ + v0@ + "`"@,
        Error::IncompleteRoute => "a route needs both an endpoint and a key"@,
        Error::RegistryMissing => "the definition registry did not initialise"@,
        Error::SeatNotRegistered { seat } => "seat `"@ + seat@ + "` did not register"@,
        Error::UnsafeSeatId { seat } => "seat id `"@ + seat@ + "` is not a plain path component"@,
        Error::TimedOut { seat } => "@"@ + seat@ + " timed out"@,
        Error::ZeroRoundWidth => "a completion round needs a width of at least one"@,
        Error::InvalidStateRevision { revision, receipt_count } => "state revision "@ + decimal(revision as nat) + " does not match its "@ + decimal(receipt_count as nat) + " receipts"@,
        Error::OutOfHiveEpisode { desk_id } => "the episode is not on this hive's desk `"@ + desk_id@ + "`"@,
        Error::NoCompletionParticipants => "a completion episode needs at least one participant"@,
        Error::InvalidCompletionParticipant => "a completion participant needs a nonblank id"@,
        Error::DuplicateCompletionParticipant { agent_id } => "participant `"@ + agent_id@ + "` is listed twice"@,
        Error::OutOfHiveParticipant { agent_id } => "`"@ + agent_id@ + "` is not a seat of this hive"@,
        Error::InvalidReceiptSequence { stored, event } => "the receipt stored at "@ + decimal(stored.0 as nat) + " holds an event at "@ + decimal(event.0 as nat),
        Error::StaleCommittedEvent { sequence } => "the event at "@ + decimal(sequence.0 as nat) + " is not newer than what was already folded"@,
        Error::InvalidFreshnessFloor { stored, derived } => "the stored freshness floor "@ + decimal(stored.0 as nat) + " is not the derived "@ + decimal(derived.0 as nat),
        Error::UnknownBoundAgent { agent_id } => "no agent is bound for `"@ + agent_id@ + "`"@,
        Error::DuplicateCommittedSequence { sequence } => "a different event was already committed at "@ + decimal(sequence.0 as nat),
        Error::MissingBroadcastRouting => "a broadcast needs routing inputs"@,
        Error::BroadcastTooWide { recipient_count, round_width } => "a broadcast routed to "@ + decimal(recipient_count as nat) + " seats, more than a round of "@ + decimal(round_width as nat),
        Error::BroadcastIncludesAuthor { agent_id } => "a broadcast from `"@ + agent_id@ + "` was routed back to its author"@,
        Error::StateRevisionOverflow => "the state revision cannot advance further"@,
        Error::PartialRound { expected, received } => "a round of "@ + decimal(expected as nat) + " seats was answered with "@ + decimal(received as nat) + " events"@,
        Error::UnexpectedRoundAuthor { agent_id } => "`"@ + agent_id@ + "` was not in the round"@,
        Error::StaleRound { round_revision, state_revision } => "a round proposed at revision "@ + decimal(round_revision as nat) + " is behind the state at "@ + decimal(state_revision as nat),
        Error::MismatchedRound { round_revision, state_revision } => "a round proposed at revision "@ + decimal(round_revision as nat) + " does not belong to the state at "@ + decimal(state_revision as nat),
        Error::NoBroadcastFallback { agent_id } => "no other participant can take the broadcast from `"@ + agent_id@ + "`"@,
        Error::Io(cause) => "writing a seat definition: "@ + cause@,
        Error::Harness(cause) => cause@,
    }
}

impl Error {
    /// The words a host prints.
    pub fn message(&self) -> (text: String)
        ensures
            text@ == error_text(*self),
    {
        match self {
            Error::UnknownRunner(v0) => {
                let mut text = "TINYHIVEMIND_RUNNER must be `embed`, `raw` or `hosted`, not `".to_owned();
                text.append(v0.as_str());
                text.append("`");
                text
            },
            Error::IncompleteRoute => {
                let mut text = "a route needs both an endpoint and a key".to_owned();
                text
            },
            Error::RegistryMissing => {
                let mut text = "the definition registry did not initialise".to_owned();
                text
            },
            Error::SeatNotRegistered { seat } => {
                let mut text = "seat `".to_owned();
                text.append(seat.as_str());
                text.append("` did not register");
                text
            },
            Error::UnsafeSeatId { seat } => {
                let mut text = "seat id `".to_owned();
                text.append(seat.as_str());
                text.append("` is not a plain path component");
                text
            },
            Error::TimedOut { seat } => {
                let mut text = "@".to_owned();
                text.append(seat.as_str());
                text.append(" timed out");
                text
            },
            Error::ZeroRoundWidth => {
                let mut text = "a completion round needs a width of at least one".to_owned();
                text
            },
            Error::InvalidStateRevision { revision, receipt_count } => {
                let mut text = "state revision ".to_owned();
                let d = crate::text::decimal_text(*revision);
                text.append(d.as_str());
                text.append(" does not match its ");
                let d = crate::text::decimal_text(*receipt_count as u64);
                text.append(d.as_str());
                text.append(" receipts");
                text
            },
            Error::OutOfHiveEpisode { desk_id } => {
                let mut text = "the episode is not on this hive's desk `".to_owned();
                text.append(desk_id.as_str());
                text.append("`");
                text
            },
            Error::NoCompletionParticipants => {
                let mut text = "a completion episode needs at least one participant".to_owned();
                text
            },
            Error::InvalidCompletionParticipant => {
                let mut text = "a completion participant needs a nonblank id".to_owned();
                text
            },
            Error::DuplicateCompletionParticipant { agent_id } => {
                let mut text = "participant `".to_owned();
                text.append(agent_id.as_str());
                text.append("` is listed twice");
                text
            },
            Error::OutOfHiveParticipant { agent_id } => {
                let mut text = "`".to_owned();
                text.append(agent_id.as_str());
                text.append("` is not a seat of this hive");
                text
            },
            Error::InvalidReceiptSequence { stored, event } => {
                let mut text = "the receipt stored at ".to_owned();
                let d = crate::text::decimal_text(stored.0);
                text.append(d.as_str());
                text.append(" holds an event at ");
                let d = crate::text::decimal_text(event.0);
                text.append(d.as_str());
                text
            },
            Error::StaleCommittedEvent { sequence } => {
                let mut text = "the event at ".to_owned();
                let d = crate::text::decimal_text(sequence.0);
                text.append(d.as_str());
                text.append(" is not newer than what was already folded");
                text
            },
            Error::InvalidFreshnessFloor { stored, derived } => {
                let mut text = "the stored freshness floor ".to_owned();
                let d = crate::text::decimal_text(stored.0);
                text.append(d.as_str());
                text.append(" is not the derived ");
                let d = crate::text::decimal_text(derived.0);
                text.append(d.as_str());
                text
            },
            Error::UnknownBoundAgent { agent_id } => {
                let mut text = "no agent is bound for `".to_owned();
                text.append(agent_id.as_str());
                text.append("`");
                text
            },
            Error::DuplicateCommittedSequence { sequence } => {
                let mut text = "a different event was already committed at ".to_owned();
                let d = crate::text::decimal_text(sequence.0);
                text.append(d.as_str());
                text
            },
            Error::MissingBroadcastRouting => {
                let mut text = "a broadcast needs routing inputs".to_owned();
                text
            },
            Error::BroadcastTooWide { recipient_count, round_width } => {
                let mut text = "a broadcast routed to ".to_owned();
                let d = crate::text::decimal_text(*recipient_count as u64);
                text.append(d.as_str());
                text.append(" seats, more than a round of ");
                let d = crate::text::decimal_text(*round_width as u64);
                text.append(d.as_str());
                text
            },
            Error::BroadcastIncludesAuthor { agent_id } => {
                let mut text = "a broadcast from `".to_owned();
                text.append(agent_id.as_str());
                text.append("` was routed back to its author");
                text
            },
            Error::StateRevisionOverflow => {
                let mut text = "the state revision cannot advance further".to_owned();
                text
            },
            Error::PartialRound { expected, received } => {
                let mut text = "a round of ".to_owned();
                let d = crate::text::decimal_text(*expected as u64);
                text.append(d.as_str());
                text.append(" seats was answered with ");
                let d = crate::text::decimal_text(*received as u64);
                text.append(d.as_str());
                text.append(" events");
                text
            },
            Error::UnexpectedRoundAuthor { agent_id } => {
                let mut text = "`".to_owned();
                text.append(agent_id.as_str());
                text.append("` was not in the round");
                text
            },
            Error::StaleRound { round_revision, state_revision } => {
                let mut text = "a round proposed at revision ".to_owned();
                let d = crate::text::decimal_text(*round_revision);
                text.append(d.as_str());
                text.append(" is behind the state at ");
                let d = crate::text::decimal_text(*state_revision);
                text.append(d.as_str());
                text
            },
            Error::MismatchedRound { round_revision, state_revision } => {
                let mut text = "a round proposed at revision ".to_owned();
                let d = crate::text::decimal_text(*round_revision);
                text.append(d.as_str());
                text.append(" does not belong to the state at ");
                let d = crate::text::decimal_text(*state_revision);
                text.append(d.as_str());
                text
            },
            Error::NoBroadcastFallback { agent_id } => {
                let mut text = "no other participant can take the broadcast from `".to_owned();
                text.append(agent_id.as_str());
                text.append("`");
                text
            },
            Error::Io(cause) => {
                let mut text = "writing a seat definition: ".to_owned();
                text.append(cause.as_str());
                text
            },
            Error::Harness(cause) => cause.clone(),
        }
    }
}

} // verus!
