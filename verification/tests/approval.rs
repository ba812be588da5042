//! Applying an approval decision: asking once, and reading the answer.

use tinyhivemind::approval::{
    answer_outcome, dedupe_key, request_approval, ApprovalAnswer, ApprovalDecision, ApprovalOutcome, ApprovalPrompt,
    ApprovalStep, AskOutcome, ConsentEpoch, GrantScope, InvalidApprovalAnswer, Millis, RememberedRefusal, ScopeKey,
    StandingGrant,
};

#[derive(Debug, PartialEq, Eq)]
enum Basis {
    Policy,
}

#[derive(Debug, PartialEq, Eq)]
enum Reason {
    NoRule,
}

type Outcome = ApprovalOutcome<Basis, Reason>;

fn key() -> ScopeKey {
    ScopeKey("write:/repo/file".into())
}

fn ask_with_scope(scope: GrantScope) -> ApprovalDecision<Basis, Reason> {
    ApprovalDecision::Ask { who: "operator".into(), scope, key: key(), epoch: ConsentEpoch(2) }
}

fn prompt(scope: GrantScope) -> ApprovalPrompt {
    match request_approval(ask_with_scope(scope), 9) {
        ApprovalStep::Ask(prompt) => prompt,
        ApprovalStep::Decided(outcome) => panic!("an ask asks: {outcome:?}"),
    }
}

fn grant(scope: GrantScope) -> StandingGrant {
    StandingGrant {
        scope,
        key: key(),
        granted_at_epoch: ConsentEpoch(2),
        granted_at_sequence: 9,
        granted_at: Millis(1),
        expires_at: None,
        revoked: false,
    }
}

#[test]
fn allow_and_deny_call_the_gate_zero_times() {
    assert!(matches!(
        request_approval::<Basis, Reason>(ApprovalDecision::Allow { basis: Basis::Policy }, 9),
        ApprovalStep::Decided(ApprovalOutcome::Allowed { basis: Basis::Policy })
    ));
    assert!(matches!(
        request_approval::<Basis, Reason>(ApprovalDecision::Deny { reason: Reason::NoRule }, 9),
        ApprovalStep::Decided(ApprovalOutcome::Denied { reason: Reason::NoRule })
    ));
}

#[test]
fn prompt_wire_includes_the_scoped_dedupe_key() {
    let prompt = prompt(GrantScope::Call);
    assert_eq!(prompt.request_sequence, 9);
    assert_eq!(prompt.who, "operator");
    assert!(prompt.dedupe_key.ends_with("s1:9"), "{}", prompt.dedupe_key);
    assert_eq!(prompt.dedupe_key, "write:/repo/files1:9");
    assert_eq!(dedupe_key(&key(), 1234), "write:/repo/files4:1234");
    assert_ne!(dedupe_key(&ScopeKey("a".into()), 11), dedupe_key(&ScopeKey("a".into()), 1));
}

#[test]
fn ask_calls_once_and_maps_each_host_status() {
    let prompt = prompt(GrantScope::Call);
    assert_eq!(answer_outcome::<Basis, Reason>(AskOutcome::Asked, &prompt), Ok(Outcome::Asked));
    assert_eq!(answer_outcome::<Basis, Reason>(AskOutcome::Already, &prompt), Ok(Outcome::Already));
}

#[test]
fn narrower_grant_and_refusal_scopes_are_accepted() {
    let offered = prompt(GrantScope::Resource { root: "/repo".into() });
    for scope in [GrantScope::Call, GrantScope::Action, GrantScope::Resource { root: "/repo/file".into() }] {
        let approved = AskOutcome::Answered { answer: ApprovalAnswer::Approved { grant: Some(grant(scope)) } };
        assert!(matches!(answer_outcome::<Basis, Reason>(approved, &offered), Ok(ApprovalOutcome::Approved { .. })));
    }
    for scope in [GrantScope::Call, GrantScope::Action, GrantScope::Resource { root: "/repo/file".into() }] {
        let refused = AskOutcome::Answered {
            answer: ApprovalAnswer::Refused { refusal: Some(RememberedRefusal { scope, key: key(), epoch: ConsentEpoch(2) }) },
        };
        assert!(matches!(answer_outcome::<Basis, Reason>(refused, &offered), Ok(ApprovalOutcome::Refused { .. })));
    }
    let beside = AskOutcome::Answered {
        answer: ApprovalAnswer::Approved { grant: Some(grant(GrantScope::Resource { root: "/repository".into() })) },
    };
    assert_eq!(answer_outcome::<Basis, Reason>(beside, &offered), Err(InvalidApprovalAnswer), "a sibling path is not under the root");
}

#[test]
fn exact_grant_is_accepted_and_widened_grant_is_rejected() {
    let offered = prompt(GrantScope::Call);
    let exact = AskOutcome::Answered { answer: ApprovalAnswer::Approved { grant: Some(grant(GrantScope::Call)) } };
    assert!(matches!(answer_outcome::<Basis, Reason>(exact, &offered), Ok(ApprovalOutcome::Approved { grant: Some(_) })));
    let widened = AskOutcome::Answered { answer: ApprovalAnswer::Approved { grant: Some(grant(GrantScope::Action)) } };
    assert_eq!(answer_outcome::<Basis, Reason>(widened, &offered), Err(InvalidApprovalAnswer));
    let once = AskOutcome::Answered { answer: ApprovalAnswer::Approved { grant: None } };
    assert_eq!(answer_outcome::<Basis, Reason>(once, &offered), Ok(Outcome::Approved { grant: None }));
}

#[test]
fn exact_refusal_is_accepted_and_mismatched_refusal_is_rejected() {
    let offered = prompt(GrantScope::Call);
    let exact = RememberedRefusal { scope: GrantScope::Call, key: key(), epoch: ConsentEpoch(2) };
    let taken = AskOutcome::Answered { answer: ApprovalAnswer::Refused { refusal: Some(exact) } };
    assert!(matches!(answer_outcome::<Basis, Reason>(taken, &offered), Ok(ApprovalOutcome::Refused { refusal: Some(_) })));
    let other_epoch = RememberedRefusal { scope: GrantScope::Call, key: key(), epoch: ConsentEpoch(99) };
    let mismatched = AskOutcome::Answered { answer: ApprovalAnswer::Refused { refusal: Some(other_epoch) } };
    assert_eq!(answer_outcome::<Basis, Reason>(mismatched, &offered), Err(InvalidApprovalAnswer));
    let other_key = RememberedRefusal { scope: GrantScope::Call, key: ScopeKey("read:/x".into()), epoch: ConsentEpoch(2) };
    let elsewhere = AskOutcome::Answered { answer: ApprovalAnswer::Refused { refusal: Some(other_key) } };
    assert_eq!(answer_outcome::<Basis, Reason>(elsewhere, &offered), Err(InvalidApprovalAnswer));
}
