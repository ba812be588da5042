//! Resumable completion state: checked on resume, folded one committed
//! event at a time, replayed without effect, and run in bounded rounds.

use tinyhivemind::driver::{
    broadcast_fallback, extend_pending_order, route_ids, BroadcastRouting, CommittedUtterance, CompletionDriver,
    DriverState, EpisodeState, Hive, HiveReply, HostAction, MessageRoute, Participant, Preflight, RoundStart, RoutingPlan,
    sort_by_sequence,
};
use tinyhivemind::error::Error;
use tinyhivemind::responder::Probability;
use tinyhivemind::routing::{RouteCandidate, RoutingPolicy, RoutingSource};
use tinyhivemind::session::Sequence;
use tinyhivemind::speech::Utterance;

fn hive(ids: &[&str]) -> Hive {
    Hive {
        desk_id: "engineering".into(),
        desk_purpose: Some("ship the fix".into()),
        bound: ids.iter().map(|id| (*id).to_owned()).collect(),
        candidates: ids
            .iter()
            .map(|id| RouteCandidate {
                id: (*id).to_owned(),
                label: id.to_uppercase(),
                role: None,
                description: None,
                capabilities: Vec::new(),
                learned_topics: Vec::new(),
                available: true,
            })
            .collect(),
    }
}

fn episode(ids: &[&str]) -> EpisodeState {
    EpisodeState {
        desk_id: "engineering".into(),
        thread_root: None,
        watermark: Sequence(0),
        participants: ids
            .iter()
            .map(|id| Participant { agent_id: (*id).to_owned(), assigned_at: Sequence(0), completed_at: None, pending: true })
            .collect(),
        complete: false,
    }
}

fn committed(author: &str, sequence: u64, utterance: Utterance) -> CommittedUtterance {
    CommittedUtterance { author_id: author.to_owned(), sequence: Sequence(sequence), utterance }
}

fn post(message: &str) -> Utterance {
    Utterance::Post { message: message.to_owned() }
}

fn broadcast(message: &str) -> Utterance {
    Utterance::Broadcast { message: message.to_owned() }
}

fn driver(ids: &[&str], width: usize) -> CompletionDriver {
    CompletionDriver::new(hive(ids), width).expect("driver")
}

#[test]
fn a_driver_needs_a_round_of_at_least_one() {
    assert!(matches!(CompletionDriver::new(hive(&["one"]), 0), Err(Error::ZeroRoundWidth)));
}

#[test]
fn a_state_from_elsewhere_is_refused_on_resume() {
    let driver = driver(&["one", "two"], 2);
    let mut other = episode(&["one"]);
    other.desk_id = "legal".into();
    assert!(matches!(driver.start(other), Err(Error::OutOfHiveEpisode { desk_id }) if desk_id == "engineering"));
    assert!(matches!(driver.start(episode(&[])), Err(Error::NoCompletionParticipants)));
    assert!(matches!(driver.start(episode(&["one", " "])), Err(Error::InvalidCompletionParticipant)));
    assert!(matches!(driver.start(episode(&["one", "one"])), Err(Error::DuplicateCompletionParticipant { agent_id }) if agent_id == "one"));
    assert!(matches!(driver.start(episode(&["one", "ghost"])), Err(Error::OutOfHiveParticipant { agent_id }) if agent_id == "ghost"));
    let mut late = episode(&["one"]);
    late.participants[0].assigned_at = Sequence(4);
    let state = driver.start(late).expect("a valid episode starts");
    assert_eq!(state.freshness_floor(), Sequence(4), "the floor is the newest sequence the episode holds");
    assert_eq!(state.revision(), 0);
    let kept = state.into_episode();
    assert_eq!(kept.desk_id, "engineering");
    assert_eq!(kept.participants.len(), 1);
    assert_eq!(kept.participants[0].assigned_at, Sequence(4));
}

#[test]
fn a_tampered_state_is_refused_with_what_is_wrong() {
    let driver = driver(&["one", "two"], 2);
    let state = driver.start(episode(&["one", "two"])).expect("state");
    let state = driver
        .apply_committed(&state, committed("one", 3, post("found it")), HiveReply::Nothing, None)
        .expect("fold")
        .state;
    let resumed = driver.resume(state).expect("a folded state resumes");
    assert_eq!(resumed.revision(), 1);
    assert_eq!(resumed.freshness_floor(), Sequence(3));
    let forged = DriverState::from_parts(episode(&["one", "two"]), Vec::new(), Sequence(0), Vec::new(), 1).expect("ascending");
    assert!(matches!(driver.resume(forged), Err(Error::InvalidStateRevision { revision: 1, receipt_count: 0 })));
    let floor_off = DriverState::from_parts(episode(&["one", "two"]), Vec::new(), Sequence(9), Vec::new(), 0).expect("ascending");
    assert!(matches!(
        driver.resume(floor_off),
        Err(Error::InvalidFreshnessFloor { stored: Sequence(9), derived: Sequence(0) })
    ));
    let stale = DriverState::from_parts(
        episode(&["one", "two"]),
        vec![(Sequence(0), committed("one", 0, post("old")))],
        Sequence(0),
        Vec::new(),
        1,
    )
    .expect("ascending");
    assert!(matches!(driver.resume(stale), Err(Error::StaleCommittedEvent { sequence: Sequence(0) })));
    let strange_order = DriverState::from_parts(episode(&["one", "two"]), Vec::new(), Sequence(0), vec!["ghost".into()], 0).expect("ascending");
    let unsorted = DriverState::from_parts(
        episode(&["one", "two"]),
        vec![(Sequence(2), committed("one", 2, post("b"))), (Sequence(1), committed("one", 1, post("a")))],
        Sequence(2),
        Vec::new(),
        2,
    );
    assert!(unsorted.is_none(), "receipts are filed in ascending order");
    assert!(matches!(driver.resume(strange_order), Err(Error::OutOfHiveParticipant { agent_id }) if agent_id == "ghost"));
}

#[test]
fn an_exact_replay_changes_nothing_and_another_event_under_its_sequence_is_refused() {
    let driver = driver(&["one", "two"], 2);
    let state = driver.start(episode(&["one", "two"])).expect("state");
    let first = driver
        .apply_committed(&state, committed("one", 1, post("found it")), HiveReply::Nothing, None)
        .expect("fold");
    assert!(first.actions.is_empty());
    let again = driver
        .apply_committed(&first.state, committed("one", 1, post("found it")), HiveReply::Nothing, None)
        .expect("an exact replay");
    assert!(again.actions.is_empty());
    assert_eq!(again.state.revision(), first.state.revision());
    assert!(matches!(
        driver.apply_committed(&first.state, committed("two", 1, post("mine")), HiveReply::Nothing, None),
        Err(Error::DuplicateCommittedSequence { sequence: Sequence(1) })
    ));
    assert!(matches!(
        driver.apply_committed(&first.state, committed("two", 0, post("late")), HiveReply::Nothing, None),
        Err(Error::StaleCommittedEvent { sequence: Sequence(0) })
    ));
    assert!(matches!(
        driver.apply_committed(&first.state, committed("ghost", 2, post("hi")), HiveReply::Nothing, None),
        Err(Error::OutOfHiveParticipant { agent_id }) if agent_id == "ghost"
    ));
}

#[test]
fn a_direct_message_is_delivered_as_written_and_a_completion_takes_the_hives_episode() {
    let driver = driver(&["one", "two"], 2);
    let state = driver.start(episode(&["one", "two"])).expect("state");
    let dm = Utterance::Dm { to: vec!["two".into()], message: "the port is 8080".into() };
    let route = MessageRoute { recipient_ids: vec!["two".into()] };
    let sent = driver
        .apply_committed(&state, committed("one", 1, dm), HiveReply::Direct(Ok(route)), None)
        .expect("delivered");
    assert_eq!(sent.actions.len(), 1);
    assert!(matches!(&sent.actions[0], HostAction::DeliverDm { message, .. } if message == "the port is 8080"));
    let mut done = episode(&["one", "two"]);
    done.participants[0].pending = false;
    done.participants[0].completed_at = Some(Sequence(2));
    let completed = driver
        .apply_committed(&sent.state, committed("one", 2, Utterance::CompleteEpisode { message: "fixed".into() }), HiveReply::Completion(Ok(done)), None)
        .expect("completed");
    assert!(completed.actions.is_empty());
    assert_eq!(completed.state.episode().participants[0].completed_at, Some(Sequence(2)));
    assert_eq!(completed.state.revision(), 2);
    let refused = driver.apply_committed(
        &completed.state,
        committed("two", 3, Utterance::CompleteEpisode { message: "me too".into() }),
        HiveReply::Completion(Err(Error::NoCompletionParticipants)),
        None,
    );
    assert!(matches!(refused, Err(Error::NoCompletionParticipants)), "the hive's refusal stands");
}

#[test]
fn a_broadcast_runs_the_routed_seats_and_remembers_them_as_pending() {
    let driver = driver(&["one", "two", "three"], 2);
    let state = driver.start(episode(&["one", "two", "three"])).expect("state");
    let routing = BroadcastRouting { policy: policy(3), roster_version: 1, thread_context: Vec::new() };
    let request = driver.broadcast_request(state.episode(), "one", "take the cache", &routing);
    let candidates: Vec<&str> = request.candidates.iter().map(|c| c.id.as_str()).collect();
    assert_eq!(candidates, ["two", "three"], "the author is not its own candidate");
    assert_eq!(request.policy.round_width, 2, "the driver's round bounds the policy's");
    assert!(matches!(&request.source, RoutingSource::AgentBroadcast { author_id } if author_id == "one"));
    let plan = RoutingPlan::Hive { primary_id: "three".into(), invited_ids: vec!["two".into()] };
    assert_eq!(route_ids(&plan), ["three", "two"]);
    let routed = driver
        .apply_committed(
            &state,
            committed("one", 1, broadcast("take the cache")),
            HiveReply::Routed { plan: Some(plan), assigned: Ok(episode(&["one", "two", "three"])) },
            None,
        )
        .expect("routed");
    assert!(matches!(&routed.actions[0], HostAction::RunAgents { agent_ids, .. } if agent_ids == &["three", "two"]));
    assert_eq!(routed.state.pending_order(), &["three", "two"]);
    let too_wide = RoutingPlan::Hive { primary_id: "three".into(), invited_ids: vec!["two".into(), "one".into()] };
    assert!(matches!(
        driver.apply_committed(&state, committed("one", 1, broadcast("x")), HiveReply::Routed { plan: Some(too_wide), assigned: Ok(episode(&["one"])) }, None),
        Err(Error::BroadcastTooWide { recipient_count: 3, round_width: 2 })
    ));
    let to_self = RoutingPlan::One { responder_id: "one".into() };
    assert!(matches!(
        driver.apply_committed(&state, committed("one", 1, broadcast("x")), HiveReply::Routed { plan: Some(to_self), assigned: Ok(episode(&["one"])) }, None),
        Err(Error::BroadcastIncludesAuthor { agent_id }) if agent_id == "one"
    ));
    assert!(matches!(
        driver.apply_committed(&state, committed("one", 1, broadcast("x")), HiveReply::Routed { plan: None, assigned: Ok(episode(&["one"])) }, None),
        Err(Error::MissingBroadcastRouting)
    ));
}

fn policy(width: usize) -> RoutingPolicy {
    RoutingPolicy {
        minimum_confidence: Probability::new(350_000).expect("bounded"),
        high_impact_minimum_confidence: Probability::new(700_000).expect("bounded"),
        collaboration_threshold: Probability::one(),
        contribution_threshold: Probability::one(),
        clarification_threshold: Probability::one(),
        high_impact_threshold: Probability::one(),
        round_width: width,
        choice_option_limit: 8,
    }
}

#[test]
fn all_broadcast_round_uses_a_distinct_valid_fallback_for_each_author() {
    let driver = driver(&["one", "two", "three"], 3);
    let state = driver.start(episode(&["one", "two", "three"])).expect("state");
    let round = driver.pending_round(&state).expect("round");
    assert_eq!(round.agents(), &["one", "two", "three"]);
    let events = vec![
        committed("one", 1, broadcast("from one")),
        committed("two", 2, broadcast("from two")),
        committed("three", 3, broadcast("from three")),
    ];
    let Ok(RoundStart::Fold(events)) = driver.open_round(&state, &round, events) else { panic!("the round opens") };
    let mut pre = Preflight::begin(&state);
    for event in &events {
        pre = driver.preflight_event(&state, pre, event, HiveReply::Nothing, true).expect("preflight");
    }
    let mut next = state;
    let mut responders = Vec::new();
    let mut actions = Vec::new();
    for event in events {
        let fallback = pre.fallback_for(event.sequence).expect("a fallback").to_owned();
        let plan = RoutingPlan::Fallback { responder_id: fallback.clone() };
        responders.push(fallback.clone());
        let reply = HiveReply::Routed { plan: Some(plan), assigned: Ok(episode(&["one", "two", "three"])) };
        let transition = driver.apply_committed(&next, event, reply, Some(&fallback)).expect("applies");
        next = transition.state;
        actions.extend(transition.actions);
    }
    assert_eq!(actions.len(), 3);
    assert_eq!(responders, ["two", "three", "one"]);
    assert_eq!(next.revision(), 3);
}

#[test]
fn broadcast_without_another_participant_is_rejected_before_router_call() {
    let driver = driver(&["one"], 1);
    let state = driver.start(episode(&["one"])).expect("state");
    let round = driver.pending_round(&state).expect("round");
    let Ok(RoundStart::Fold(events)) = driver.open_round(&state, &round, vec![committed("one", 1, broadcast("anyone?"))]) else {
        panic!("the round opens")
    };
    let result = driver.preflight_event(&state, Preflight::begin(&state), &events[0], HiveReply::Nothing, true);
    assert!(matches!(result, Err(Error::NoBroadcastFallback { agent_id }) if agent_id == "one"));
    assert_eq!(state.revision(), 0);
}

#[test]
fn committed_round_preflights_every_event_before_routing() {
    let driver = driver(&["one", "two"], 2);
    let state = driver.start(episode(&["one", "two"])).expect("state");
    let round = driver.pending_round(&state).expect("round");
    let events = vec![committed("one", 1, broadcast("route me")), committed("two", 1, post("duplicate sequence"))];
    let Ok(RoundStart::Fold(events)) = driver.open_round(&state, &round, events) else { panic!("the round opens") };
    let mut pre = Preflight::begin(&state);
    let mut failed = None;
    for event in &events {
        match driver.preflight_event(&state, pre, event, HiveReply::Nothing, true) {
            Ok(next) => pre = next,
            Err(error) => {
                failed = Some(error);
                break;
            }
        }
    }
    assert!(matches!(failed, Some(Error::DuplicateCommittedSequence { sequence: Sequence(1) })));
    assert_eq!(state.revision(), 0, "rejected batch cannot advance state");
}

#[test]
fn pending_round_rejects_stale_and_mismatched_state_snapshots() {
    let driver = driver(&["one", "two"], 2);
    let initial = driver.start(episode(&["one", "two"])).expect("state");
    let stale_round = driver.pending_round(&initial).expect("round");
    let advanced = driver
        .apply_committed(&initial, committed("one", 1, post("advanced")), HiveReply::Nothing, None)
        .expect("commit")
        .state;
    assert!(matches!(
        driver.open_round(&advanced, &stale_round, vec![committed("one", 2, post("one")), committed("two", 3, post("two"))]),
        Err(Error::StaleRound { .. })
    ));
    let other = driver.start(episode(&["two", "one"])).expect("other state");
    let other_round = driver.pending_round(&other).expect("other round");
    assert!(matches!(
        driver.open_round(&initial, &other_round, vec![committed("two", 1, post("two")), committed("one", 2, post("one"))]),
        Err(Error::MismatchedRound { .. })
    ));
}

#[test]
fn a_round_must_be_answered_by_its_own_seats_once_each() {
    let driver = driver(&["one", "two", "three"], 2);
    let state = driver.start(episode(&["one", "two", "three"])).expect("state");
    let round = driver.pending_round(&state).expect("round");
    assert_eq!(round.agents(), &["one", "two"], "a round is no wider than the driver's width");
    assert!(matches!(
        driver.open_round(&state, &round, vec![committed("one", 1, post("x"))]),
        Err(Error::PartialRound { expected: 2, received: 1 })
    ));
    assert!(matches!(
        driver.open_round(&state, &round, vec![committed("one", 1, post("x")), committed("three", 2, post("y"))]),
        Err(Error::UnexpectedRoundAuthor { agent_id }) if agent_id == "three"
    ));
    assert!(matches!(
        driver.open_round(&state, &round, vec![committed("one", 1, post("x")), committed("one", 2, post("y"))]),
        Err(Error::PartialRound { expected: 2, received: 1 })
    ));
    let Ok(RoundStart::Fold(sorted)) =
        driver.open_round(&state, &round, vec![committed("two", 5, post("late")), committed("one", 4, post("early"))])
    else {
        panic!("the round opens")
    };
    let sequences: Vec<u64> = sorted.iter().map(|e| e.sequence.0).collect();
    assert_eq!(sequences, [4, 5], "folded in order of their sequences");
}

#[test]
fn the_pending_order_keeps_each_seat_once_and_falls_back_around_the_ring() {
    let mut order = vec!["two".to_owned()];
    extend_pending_order(&mut order, &vec!["three".to_owned(), "two".to_owned(), "three".to_owned(), "one".to_owned()]);
    assert_eq!(order, ["two", "three", "one"]);
    let ep = episode(&["one", "two", "three"]);
    assert_eq!(broadcast_fallback(&ep, &vec!["three".to_owned()], "three").as_deref(), Some("one"));
    assert_eq!(broadcast_fallback(&ep, &Vec::new(), "three").as_deref(), Some("one"));
    assert_eq!(broadcast_fallback(&ep, &Vec::new(), "one").as_deref(), Some("two"));
    assert_eq!(broadcast_fallback(&ep, &Vec::new(), "ghost"), None);
    assert_eq!(broadcast_fallback(&episode(&["one"]), &Vec::new(), "one"), None);
}

#[test]
fn events_are_sorted_by_sequence_and_ties_keep_their_order() {
    let sorted = sort_by_sequence(vec![
        committed("c", 7, post("first seven")),
        committed("a", 3, post("three")),
        committed("b", 7, post("second seven")),
        committed("d", 1, post("one")),
        committed("e", 7, post("third seven")),
    ]);
    let authors: Vec<&str> = sorted.iter().map(|e| e.author_id.as_str()).collect();
    assert_eq!(authors, ["d", "a", "c", "b", "e"]);
    assert!(sort_by_sequence(Vec::new()).is_empty());
}
