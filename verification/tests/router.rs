//! Requests, questions, fixed-point conversion, and retry policy of the
//! System One routing adapter.

use tinyhivemind::responder::{Probability, PROBABILITY_SCALE};
use tinyhivemind::router::{
    classify_retry, contribution_key, normalize, primary_probabilities, shortlist, shortlist_size, Asking, Error,
    JevRouter, Question, RetryClass, Rubric,
};
use tinyhivemind::routing::{ConversationKind, ConversationRef, RouteCandidate, RoutingPolicy, RoutingRequest, RoutingSource};
use tinyhivemind::session::Sequence;

fn request(candidate_count: usize, option_limit: usize) -> RoutingRequest {
    RoutingRequest {
        message: "Review the rollout and its legal exposure".into(),
        source: RoutingSource::DeskMessage,
        conversation: ConversationRef { id: "launch".into(), kind: ConversationKind::Desk, thread_root: Some(Sequence(4)) },
        desk_purpose: Some("coordinate launch".into()),
        thread_context: vec!["operator: launch is Friday".into()],
        candidates: (0..candidate_count)
            .map(|index| RouteCandidate {
                id: format!("agent-{index}"),
                label: format!("Agent {index}"),
                role: Some(if index == 0 { "engineering" } else { "legal" }.into()),
                description: None,
                capabilities: vec![format!("capability-{index}")],
                learned_topics: vec![],
                available: true,
            })
            .collect(),
        roster_version: 12,
        policy: RoutingPolicy {
            minimum_confidence: Probability::zero(),
            high_impact_minimum_confidence: Probability::zero(),
            collaboration_threshold: Probability::one(),
            contribution_threshold: Probability::one(),
            clarification_threshold: Probability::one(),
            high_impact_threshold: Probability::one(),
            round_width: 2,
            choice_option_limit: option_limit,
        },
    }
}

#[test]
fn only_rate_limit_and_overload_are_retryable() {
    assert_eq!(classify_retry(429), RetryClass::Retryable);
    assert_eq!(classify_retry(529), RetryClass::Retryable);
    assert_eq!(classify_retry(401), RetryClass::Permanent);
    assert_eq!(classify_retry(422), RetryClass::Permanent);
}

#[test]
fn a_router_asks_jev_latest_unless_pinned() {
    let router = JevRouter::new(7u8);
    assert_eq!(router.model(), "jev-latest");
    assert_eq!(*router.transport(), 7);
    assert_eq!(JevRouter::with_model((), "jev-1.13".into()).model(), "jev-1.13");
    assert_eq!(contribution_key("agent-0"), "contributes_agent-0");
}

#[test]
fn ordinary_desk_is_one_batched_question_set_with_choice_and_all_nouls() {
    let router = JevRouter::new(());
    let (eligible, asking) = router.first_asking(&request(2, 8)).expect("asks");
    assert_eq!(eligible.len(), 2);
    let Asking::Batched(questions) = asking else { panic!("one batched request") };
    assert_eq!(questions.len(), 6);
    let keys: Vec<&str> = questions.iter().map(|(key, _)| key.as_str()).collect();
    assert_eq!(
        keys,
        ["needs_collaboration", "needs_clarification", "high_impact", "contributes_agent-0", "contributes_agent-1", "primary_responder"]
    );
    let Question::Choice { instructions, criteria } = &questions[5].1 else { panic!("the primary is a choice") };
    assert!(instructions.starts_with("Which eligible candidate is the best primary responder"));
    assert_eq!(criteria.len(), 3);
    assert_eq!(criteria[2].0, "none");
    assert!(matches!(&criteria[2].1, Rubric::Text(text) if text.starts_with("No listed candidate")));
    let Question::Noul { instructions, .. } = &questions[3].1 else { panic!("a contribution is a noul") };
    assert!(instructions.contains("candidate `agent-0`"));
}

#[test]
fn large_desk_is_screened_first_then_shortlisted() {
    let router = JevRouter::new(());
    let request = request(4, 3);
    let (eligible, asking) = router.first_asking(&request).expect("asks");
    let Asking::Screening(questions) = asking else { panic!("screening first") };
    assert_eq!(questions.len(), 7);
    assert!(!questions.iter().any(|(key, _)| key == "primary_responder"));
    assert_eq!(shortlist_size(3), 2);
    assert_eq!(shortlist_size(0), 0);
    let chosen = shortlist(&eligible, &vec!["agent-2".to_owned(), "agent-0".to_owned()]);
    let ids: Vec<&str> = chosen.iter().map(|c| c.id.as_str()).collect();
    assert_eq!(ids, ["agent-0", "agent-2"], "kept in eligible order");
    let Question::Choice { criteria, .. } = tinyhivemind::router::primary_question(&request, &chosen) else {
        panic!("the final question is a choice")
    };
    assert_eq!(criteria.len(), 3);
}

#[test]
fn a_request_the_adapter_cannot_ask_is_refused_in_order() {
    let router = JevRouter::new(());
    let mut twice = request(2, 8);
    twice.candidates[1].id = "agent-0".into();
    assert!(matches!(router.first_asking(&twice), Err(Error::InvalidCandidateIds)));
    let mut named_none = request(1, 8);
    named_none.candidates[0].id = "none".into();
    assert!(matches!(router.first_asking(&named_none), Err(Error::InvalidCandidateIds)));
    let mut away = request(2, 8);
    for candidate in &mut away.candidates {
        candidate.available = false;
    }
    assert!(matches!(router.first_asking(&away), Err(Error::NoEligibleCandidates)));
    assert!(matches!(router.first_asking(&request(2, 1)), Err(Error::InvalidChoiceOptionLimit)));
    let broadcast = RoutingRequest { source: RoutingSource::AgentBroadcast { author_id: "lead".into() }, ..request(1, 8) };
    let (_, asking) = router.first_asking(&broadcast).expect("asks");
    let Asking::Batched(questions) = asking else { panic!("batched") };
    let Question::Choice { instructions, .. } = &questions.last().expect("a primary").1 else { panic!("choice") };
    assert!(instructions.starts_with("Agent `lead` is handing off `message`."));
}

#[test]
fn a_distribution_is_made_whole_by_its_selection() {
    let parts = vec![("agent-0".to_owned(), 333_333), ("agent-1".to_owned(), 333_333), ("none".to_owned(), 333_333)];
    let fixed = normalize(&parts, "agent-0").expect("within tolerance");
    let values: Vec<u32> = fixed.iter().map(|(_, p)| p.parts()).collect();
    assert_eq!(values, [333_334, 333_333, 333_333]);
    assert_eq!(values.iter().sum::<u32>(), PROBABILITY_SCALE);
    let far = vec![("agent-0".to_owned(), 500_000), ("none".to_owned(), 400_000)];
    assert!(matches!(
        normalize(&far, "agent-0"),
        Err(Error::InvalidProviderResponse { message }) if message == "Choice distribution total exceeds rounding tolerance"
    ));
    assert!(matches!(
        normalize(&parts, "agent-9"),
        Err(Error::InvalidProviderResponse { message }) if message == "Choice selection is absent from its distribution"
    ));
    let over = vec![("agent-0".to_owned(), 0), ("none".to_owned(), 1_000_001)];
    assert!(matches!(
        normalize(&over, "agent-0"),
        Err(Error::InvalidProviderResponse { message }) if message == "Choice distribution cannot be normalized safely"
    ));
}

#[test]
fn the_primary_distribution_covers_every_alternative_in_label_order() {
    let request = request(4, 8);
    let router = JevRouter::new(());
    let (eligible, _) = router.first_asking(&request).expect("asks");
    let fixed = normalize(
        &vec![("agent-1".to_owned(), 600_000), ("agent-0".to_owned(), 300_000), ("none".to_owned(), 100_000)],
        "agent-1",
    )
    .expect("whole");
    let all = primary_probabilities(&eligible, &fixed).expect("labels match");
    let labels: Vec<&str> = all.iter().map(|(label, _)| label.as_str()).collect();
    assert_eq!(labels, ["agent-0", "agent-1", "agent-2", "agent-3", "none"]);
    let values: Vec<u32> = all.iter().map(|(_, p)| p.parts()).collect();
    assert_eq!(values, [300_000, 600_000, 0, 0, 100_000]);
    let stray = normalize(&vec![("ghost".to_owned(), 1_000_000)], "ghost").expect("whole");
    assert!(matches!(
        primary_probabilities(&eligible, &stray),
        Err(Error::InvalidProviderResponse { message }) if message == "primary Choice labels do not match eligible candidates"
    ));
}

#[test]
fn a_probability_is_never_above_the_scale() {
    assert_eq!(Probability::new(900_000).map(|p| p.parts()), Some(900_000));
    assert!(Probability::new(PROBABILITY_SCALE + 1).is_none());
    assert_eq!(Probability::one().parts(), 1_000_000);
}
