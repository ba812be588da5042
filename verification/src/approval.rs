//! Applying an approval decision: what a person is asked, under a key that
//! names the question once, and what their answer is taken to mean.
use vstd::prelude::*;

use crate::text::{decimal, decimal_text};

verus! {

/// The consent epoch a question or an answer belongs to.
#[derive(Clone, Copy, Debug, PartialEq, Eq, Structural)]
pub struct ConsentEpoch(pub u64);

/// A moment, in milliseconds.
#[derive(Clone, Copy, Debug, PartialEq, Eq, Structural)]
pub struct Millis(pub u64);

/// How far an approval reaches.
#[derive(Debug, PartialEq, Eq)]
pub enum GrantScope {
    /// This one call.
    Call,
    /// This action.
    Action,
    /// Everything under a resource.
    Resource {
        /// The resource's root.
        root: String,
    },
}

/// Whether the path `inner` is `outer` or lies under it.
pub open spec fn under(inner: Seq<char>, outer: Seq<char>) -> bool {
    &&& outer.len() <= inner.len()
    &&& inner.take(outer.len() as int) == outer
    &&& (inner.len() == outer.len() || (outer.len() > 0 && outer.last() == '/') || inner[outer.len() as int] == '/')
}

/// Whether a grant of scope `a` reaches no further than `b`: one call is
/// within anything, an action within an action or a resource, and a
/// resource within a resource whose root it lies under.
pub open spec fn within(a: GrantScope, b: GrantScope) -> bool {
    match (a, b) {
        (GrantScope::Call, _) => true,
        (GrantScope::Action, GrantScope::Action) => true,
        (GrantScope::Action, GrantScope::Resource { .. }) => true,
        (GrantScope::Resource { root: x }, GrantScope::Resource { root: y }) => under(x@, y@),
        _ => false,
    }
}

/// Whether the path `inner` is `outer` or lies under it.
fn lies_under(inner: &str, outer: &str) -> (r: bool)
    ensures
        r == under(inner@, outer@),
{
    let n = inner.unicode_len();
    let m = outer.unicode_len();
    if m > n {
        return false;
    }
    let mut i: usize = 0;
    while i < m
        invariant
            n == inner@.len(),
            m == outer@.len(),
            m <= n,
            i <= m,
            forall|j: int| 0 <= j < i ==> inner@[j] == outer@[j],
        decreases m - i,
    {
        if inner.get_char(i) != outer.get_char(i) {
            assert(inner@.take(m as int)[i as int] != outer@[i as int]);
            return false;
        }
        i = i + 1;
    }
    assert(inner@.take(m as int) =~= outer@);
    n == m || (m > 0 && outer.get_char(m - 1) == '/') || inner.get_char(m) == '/'
}

/// Whether a grant of scope `a` reaches no further than `b`.
pub fn narrower(a: &GrantScope, b: &GrantScope) -> (r: bool)
    ensures
        r == within(*a, *b),
{
    match (a, b) {
        (GrantScope::Call, _) => true,
        (GrantScope::Action, GrantScope::Action) => true,
        (GrantScope::Action, GrantScope::Resource { .. }) => true,
        (GrantScope::Resource { root: x }, GrantScope::Resource { root: y }) => lies_under(x.as_str(), y.as_str()),
        _ => false,
    }
}

/// The exact action a question is about, by its rendering.
#[derive(Debug, PartialEq, Eq)]
pub struct ScopeKey(pub String);

impl ScopeKey {
    /// Its rendering.
    pub fn render(&self) -> (r: &str)
        ensures
            r@ == self.0@,
    {
        self.0.as_str()
    }
}

/// A person's standing grant.
#[derive(Debug, PartialEq, Eq)]
pub struct StandingGrant {
    /// How far it reaches.
    pub scope: GrantScope,
    /// The action.
    pub key: ScopeKey,
    /// The epoch it was granted in.
    pub granted_at_epoch: ConsentEpoch,
    /// The request it was granted at.
    pub granted_at_sequence: u64,
    /// When.
    pub granted_at: Millis,
    /// Until when, if it expires.
    pub expires_at: Option<Millis>,
    /// Whether it was revoked.
    pub revoked: bool,
}

/// A person's refusal, remembered for an epoch.
#[derive(Debug, PartialEq, Eq)]
pub struct RememberedRefusal {
    /// How far it reaches.
    pub scope: GrantScope,
    /// The action.
    pub key: ScopeKey,
    /// The epoch it holds in.
    pub epoch: ConsentEpoch,
}

/// What pure policy decided of a request, before anyone is asked.
#[derive(Debug)]
pub enum ApprovalDecision<B, D> {
    /// Allowed, on this basis.
    Allow {
        /// The basis.
        basis: B,
    },
    /// Denied, for this reason.
    Deny {
        /// The reason.
        reason: D,
    },
    /// A person must be asked.
    Ask {
        /// Who.
        who: String,
        /// The widest grant the answer may claim.
        scope: GrantScope,
        /// The action.
        key: ScopeKey,
        /// The epoch the question applies in.
        epoch: ConsentEpoch,
    },
}

/// The question handed to the host's approval interface.
#[derive(Debug, PartialEq, Eq)]
pub struct ApprovalPrompt {
    /// The person, by id.
    pub who: String,
    /// The widest grant the answer may claim.
    pub scope: GrantScope,
    /// The action.
    pub key: ScopeKey,
    /// The epoch the question applies in.
    pub epoch: ConsentEpoch,
    /// The sequence of the request being gated.
    pub request_sequence: u64,
    /// The key that names this question once.
    pub dedupe_key: String,
}

/// A person's recorded answer.
#[derive(Debug, PartialEq, Eq)]
pub enum ApprovalAnswer {
    /// Approved, minting the offered grant or none.
    Approved {
        /// The grant, if one is kept.
        grant: Option<StandingGrant>,
    },
    /// Refused, remembering it for the epoch or not.
    Refused {
        /// The refusal, if one is kept.
        refusal: Option<RememberedRefusal>,
    },
}

/// What the host's ask-once transaction came back with.
#[derive(Debug, PartialEq, Eq)]
pub enum AskOutcome {
    /// A new question is pending.
    Asked,
    /// The question was already pending.
    Already,
    /// An answer was already recorded.
    Answered {
        /// The answer.
        answer: ApprovalAnswer,
    },
}

/// What came of a request.
#[derive(Debug, PartialEq, Eq)]
pub enum ApprovalOutcome<B, D> {
    /// Policy or a standing grant allowed it.
    Allowed {
        /// The basis.
        basis: B,
    },
    /// Policy denied it.
    Denied {
        /// The reason.
        reason: D,
    },
    /// A new question is pending.
    Asked,
    /// The question was already recorded.
    Already,
    /// The person approved.
    Approved {
        /// The grant the host recorded, if any.
        grant: Option<StandingGrant>,
    },
    /// The person refused.
    Refused {
        /// The refusal the host recorded, if any.
        refusal: Option<RememberedRefusal>,
    },
}

/// An answer that claims more than the question offered.
#[derive(Debug, PartialEq, Eq)]
pub struct InvalidApprovalAnswer;

/// The key naming the question about the action rendered `key` at request
/// `sequence`: the rendering, `s`, how many digits the sequence has, `:`,
/// the sequence.
pub open spec fn dedupe_of(key: Seq<char>, sequence: nat) -> Seq<char> {
    key + "s"@ + decimal(decimal(sequence).len()) + ":"@ + decimal(sequence)
}

/// The key naming the question about `key` at request `sequence`.
pub fn dedupe_key(key: &ScopeKey, sequence: u64) -> (r: String)
    ensures
        r@ == dedupe_of(key.0@, sequence as nat),
{
    let digits = decimal_text(sequence);
    let mut r = key.render().to_owned();
    r.append("s");
    r.append(decimal_text(digits.unicode_len() as u64).as_str());
    r.append(":");
    r.append(digits.as_str());
    proof {
        reveal_strlit("s");
        reveal_strlit(":");
    }
    r
}

/// What one step of asking gives: an outcome already, or a question for
/// the host to ask once.
#[derive(Debug)]
pub enum ApprovalStep<B, D> {
    /// Decided without anyone being asked.
    Decided(ApprovalOutcome<B, D>),
    /// The question to ask.
    Ask(ApprovalPrompt),
}

/// Applies a pure decision to the request at `request_sequence`: allowed and
/// denied stand without asking anyone; an ask becomes the one question, keyed
/// by its action and the request.
pub fn request_approval<B, D>(decision: ApprovalDecision<B, D>, request_sequence: u64) -> (r: ApprovalStep<B, D>)
    ensures
        match decision {
            ApprovalDecision::Allow { basis } => r == ApprovalStep::<B, D>::Decided(ApprovalOutcome::Allowed { basis }),
            ApprovalDecision::Deny { reason } => r == ApprovalStep::<B, D>::Decided(ApprovalOutcome::Denied { reason }),
            ApprovalDecision::Ask { who, scope, key, epoch } => r matches ApprovalStep::Ask(p)
                && p.who == who && p.scope == scope && p.key == key && p.epoch == epoch
                && p.request_sequence == request_sequence && p.dedupe_key@ == dedupe_of(key.0@, request_sequence as nat),
        },
{
    match decision {
        ApprovalDecision::Allow { basis } => ApprovalStep::Decided(ApprovalOutcome::Allowed { basis }),
        ApprovalDecision::Deny { reason } => ApprovalStep::Decided(ApprovalOutcome::Denied { reason }),
        ApprovalDecision::Ask { who, scope, key, epoch } => {
            let dedupe_key = dedupe_key(&key, request_sequence);
            ApprovalStep::Ask(ApprovalPrompt { who, scope, key, epoch, request_sequence, dedupe_key })
        },
    }
}

/// Whether an answer claims no more than `prompt` offered: a grant or a
/// refusal it keeps reaches no further than the offered scope, and is for
/// exactly the offered action and epoch.
pub open spec fn answer_fits(answer: ApprovalAnswer, prompt: ApprovalPrompt) -> bool {
    match answer {
        ApprovalAnswer::Approved { grant } => match grant {
            Some(g) => within(g.scope, prompt.scope) && g.key.0@ == prompt.key.0@ && g.granted_at_epoch == prompt.epoch,
            None => true,
        },
        ApprovalAnswer::Refused { refusal } => match refusal {
            Some(f) => within(f.scope, prompt.scope) && f.key.0@ == prompt.key.0@ && f.epoch == prompt.epoch,
            None => true,
        },
    }
}

/// Whether two keys render the same.
fn same_key(a: &ScopeKey, b: &ScopeKey) -> (r: bool)
    ensures
        r == (a.0@ == b.0@),
{
    crate::text::same(a.0.as_str(), b.0.as_str())
}

/// What the host's ask-once came back with means for the request asked
/// by `prompt`.
///
/// # Errors
///
/// [`InvalidApprovalAnswer`] for an answer that keeps a grant or a refusal
/// wider than the scope offered, or for another action or epoch.
pub fn answer_outcome<B, D>(outcome: AskOutcome, prompt: &ApprovalPrompt) -> (r: Result<ApprovalOutcome<B, D>, InvalidApprovalAnswer>)
    ensures
        match outcome {
            AskOutcome::Asked => r == Ok::<ApprovalOutcome<B, D>, InvalidApprovalAnswer>(ApprovalOutcome::Asked),
            AskOutcome::Already => r == Ok::<ApprovalOutcome<B, D>, InvalidApprovalAnswer>(ApprovalOutcome::Already),
            AskOutcome::Answered { answer } => if answer_fits(answer, *prompt) {
                match answer {
                    ApprovalAnswer::Approved { grant } => r == Ok::<ApprovalOutcome<B, D>, InvalidApprovalAnswer>(ApprovalOutcome::Approved { grant }),
                    ApprovalAnswer::Refused { refusal } => r == Ok::<ApprovalOutcome<B, D>, InvalidApprovalAnswer>(ApprovalOutcome::Refused { refusal }),
                }
            } else {
                r == Err::<ApprovalOutcome<B, D>, InvalidApprovalAnswer>(InvalidApprovalAnswer)
            },
        },
        r matches Ok(ApprovalOutcome::Approved { grant: Some(g) }) ==> g.granted_at_epoch == prompt.epoch
            && g.key.0@ == prompt.key.0@ && within(g.scope, prompt.scope),
        r matches Ok(ApprovalOutcome::Refused { refusal: Some(f) }) ==> f.epoch == prompt.epoch
            && f.key.0@ == prompt.key.0@ && within(f.scope, prompt.scope),
{
    proof {
        if outcome is Answered {
            law_kept_answer_fits_the_question(outcome->answer, *prompt);
        }
    }
    match outcome {
        AskOutcome::Asked => Ok(ApprovalOutcome::Asked),
        AskOutcome::Already => Ok(ApprovalOutcome::Already),
        AskOutcome::Answered { answer } => match answer {
            ApprovalAnswer::Approved { grant } => {
                let fits = match &grant {
                    Some(g) => narrower(&g.scope, &prompt.scope) && same_key(&g.key, &prompt.key)
                        && g.granted_at_epoch.0 == prompt.epoch.0,
                    None => true,
                };
                if fits {
                    Ok(ApprovalOutcome::Approved { grant })
                } else {
                    Err(InvalidApprovalAnswer)
                }
            },
            ApprovalAnswer::Refused { refusal } => {
                let fits = match &refusal {
                    Some(f) => narrower(&f.scope, &prompt.scope) && same_key(&f.key, &prompt.key) && f.epoch.0 == prompt.epoch.0,
                    None => true,
                };
                if fits {
                    Ok(ApprovalOutcome::Refused { refusal })
                } else {
                    Err(InvalidApprovalAnswer)
                }
            },
        },
    }
}

/// A decimal has at least one digit, and no `:` among them.
pub proof fn lemma_decimal_digits(n: nat)
    ensures
        decimal(n).len() >= 1,
        n >= 10 ==> decimal(n).len() >= 2,
        forall|i: int| 0 <= i < decimal(n).len() ==> #[trigger] decimal(n)[i] != ':',
    decreases n,
{
    if n >= 10 {
        lemma_decimal_digits(n / 10);
        assert forall|i: int| 0 <= i < decimal(n).len() implies #[trigger] decimal(n)[i] != ':' by {
            if i < decimal(n / 10).len() {
                assert(decimal(n)[i] == decimal(n / 10)[i]);
            }
        }
    }
}

/// Digits are told apart.
proof fn lemma_digit_injective(x: int, y: int)
    requires
        0 <= x < 10,
        0 <= y < 10,
        crate::text::digit(x) == crate::text::digit(y),
    ensures
        x == y,
{
}

/// Different numbers are written differently.
pub proof fn lemma_decimal_injective(a: nat, b: nat)
    requires
        decimal(a) == decimal(b),
    ensures
        a == b,
    decreases a,
{
    lemma_decimal_digits(a);
    lemma_decimal_digits(b);
    if a < 10 && b < 10 {
        assert(decimal(a) == seq![crate::text::digit(a as int)]);
        assert(decimal(b) == seq![crate::text::digit(b as int)]);
        assert(decimal(a)[0] == crate::text::digit(a as int));
        assert(decimal(b)[0] == crate::text::digit(b as int));
        lemma_digit_injective(a as int, b as int);
    } else if a >= 10 && b >= 10 {
        let da = decimal(a);
        let db = decimal(b);
        assert(da.last() == crate::text::digit((a % 10) as int));
        assert(db.last() == crate::text::digit((b % 10) as int));
        lemma_digit_injective((a % 10) as int, (b % 10) as int);
        assert(decimal(a / 10) =~= da.drop_last());
        assert(decimal(b / 10) =~= db.drop_last());
        lemma_decimal_injective(a / 10, b / 10);
    }
}

/// Questions are keyed apart: two requests have the same dedupe key only
/// when they are about the same action rendering at the same sequence.
pub proof fn law_dedupe_key_is_collision_free(k1: Seq<char>, s1: nat, k2: Seq<char>, s2: nat)
    requires
        dedupe_of(k1, s1) == dedupe_of(k2, s2),
    ensures
        k1 == k2,
        s1 == s2,
{
    let d1 = decimal(s1);
    let d2 = decimal(s2);
    let t = dedupe_of(k1, s1);
    lemma_decimal_digits(s1);
    lemma_decimal_digits(s2);
    let p1 = k1 + "s"@ + decimal(d1.len());
    let p2 = k2 + "s"@ + decimal(d2.len());
    assert(t == p1 + ":"@ + d1);
    assert(t == p2 + ":"@ + d2);
    reveal_strlit(":");
    reveal_strlit("s");
    let n = t.len() as int;
    assert(t[n - d1.len() - 1] == ':');
    assert(t[n - d2.len() - 1] == ':');
    if d1.len() < d2.len() {
        let i = d2.len() - d1.len() - 1;
        assert(t[n - d1.len() - 1] == d2[i]);
    } else if d2.len() < d1.len() {
        let i = d1.len() - d2.len() - 1;
        assert(t[n - d2.len() - 1] == d1[i]);
    }
    assert(d1.len() == d2.len());
    assert(d1 =~= t.subrange(n - d1.len(), n));
    assert(d2 =~= t.subrange(n - d2.len(), n));
    lemma_decimal_injective(s1, s2);
    let m: int = (k1.len() + 1 + decimal(d1.len()).len()) as int;
    assert(p1 =~= t.subrange(0, m));
    assert(p2 =~= t.subrange(0, m));
    assert(k1 =~= p1.subrange(0, k1.len() as int));
    assert(k2 =~= p2.subrange(0, k2.len() as int));
}

/// An answer is taken only if what it keeps is for the question asked: a
/// kept grant or refusal names the prompt's action and consent epoch, and
/// reaches no further than the offered scope.
pub proof fn law_kept_answer_fits_the_question(answer: ApprovalAnswer, prompt: ApprovalPrompt)
    ensures
        answer_fits(answer, prompt) ==> (answer matches ApprovalAnswer::Approved { grant: Some(g) } ==>
            g.granted_at_epoch == prompt.epoch && g.key.0@ == prompt.key.0@ && within(g.scope, prompt.scope)),
        answer_fits(answer, prompt) ==> (answer matches ApprovalAnswer::Refused { refusal: Some(f) } ==>
            f.epoch == prompt.epoch && f.key.0@ == prompt.key.0@ && within(f.scope, prompt.scope)),
        answer matches ApprovalAnswer::Approved { grant: None } ==> answer_fits(answer, prompt),
        answer matches ApprovalAnswer::Refused { refusal: None } ==> answer_fits(answer, prompt),
{
}

/// An answer that keeps exactly the offered scope, action and epoch is
/// always taken, and so is one that keeps nothing.
pub proof fn law_exact_answer_is_accepted(prompt: ApprovalPrompt, g: StandingGrant, f: RememberedRefusal)
    requires
        g.scope == prompt.scope,
        g.key == prompt.key,
        g.granted_at_epoch == prompt.epoch,
        f.scope == prompt.scope,
        f.key == prompt.key,
        f.epoch == prompt.epoch,
    ensures
        answer_fits(ApprovalAnswer::Approved { grant: Some(g) }, prompt),
        answer_fits(ApprovalAnswer::Refused { refusal: Some(f) }, prompt),
        answer_fits(ApprovalAnswer::Approved { grant: None }, prompt),
        answer_fits(ApprovalAnswer::Refused { refusal: None }, prompt),
{
    match prompt.scope {
        GrantScope::Resource { root } => {
            assert(root@.take(root@.len() as int) =~= root@);
        },
        _ => {},
    }
}

/// A scope within one within another is within that other too.
pub proof fn law_within_is_transitive(a: GrantScope, b: GrantScope, c: GrantScope)
    requires
        within(a, b),
        within(b, c),
    ensures
        within(a, c),
{
    match (a, b, c) {
        (GrantScope::Resource { root: x }, GrantScope::Resource { root: y }, GrantScope::Resource { root: z }) => {
            let (x, y, z) = (x@, y@, z@);
            assert(x.take(z.len() as int) =~= y.take(z.len() as int));
            if y.len() == z.len() {
                assert(y =~= z);
            } else if !(z.len() > 0 && z.last() == '/') {
                assert(y[z.len() as int] == '/');
                assert(x[z.len() as int] == x.take(y.len() as int)[z.len() as int]);
            }
        },
        _ => {},
    }
}

} // verus!
