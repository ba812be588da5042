//! The System One routing adapter's logic: which requests it takes, the
//! questions it asks, and how an answer's fixed-point distribution is made
//! whole. The transport and the floating-point answers stay with the host.
use vstd::prelude::*;

use crate::responder::{Probability, PROBABILITY_SCALE};
use crate::routing::{candidate_view, RouteCandidate, RoutingRequest, RoutingSource};
use crate::text::{blank, views};

verus! {

/// The question-schema version recorded in routing evaluations.
pub const QUESTION_SCHEMA_VERSION: u32 = 1;

/// The key of the primary-responder choice.
pub const PRIMARY: &'static str = "primary_responder";

/// The key of the collaboration question.
pub const COLLABORATION: &'static str = "needs_collaboration";

/// The key of the clarification question.
pub const CLARIFICATION: &'static str = "needs_clarification";

/// The key of the high-impact question.
pub const HIGH_IMPACT: &'static str = "high_impact";

/// Whether a failed provider response may be retried.
#[derive(Clone, Copy, Debug, Eq, PartialEq)]
pub enum RetryClass {
    /// Rate limit or transient provider overload; apply bounded backoff.
    Retryable,
    /// Authentication, validation, and other failures should not be retried.
    Permanent,
}

/// Classify the documented transient statuses: 429 and 529 are retryable,
/// every other status permanent.
pub fn classify_retry(status: u16) -> (r: RetryClass)
    ensures
        r == if status == 429 || status == 529 { RetryClass::Retryable } else { RetryClass::Permanent },
{
    if status == 429 || status == 529 {
        RetryClass::Retryable
    } else {
        RetryClass::Permanent
    }
}

/// A typed failure from building or converting a System One routing request.
#[derive(Debug)]
pub enum Error {
    /// Candidate ids cannot safely form distinct question keys.
    InvalidCandidateIds,
    /// The request has no candidate eligible for an immediate turn.
    NoEligibleCandidates,
    /// The choice bound cannot hold a candidate and the reserved `none`.
    InvalidChoiceOptionLimit,
    /// A provider response contradicts the request's typed schema.
    InvalidProviderResponse {
        /// Why it was rejected.
        message: &'static str,
    },
    /// A host-owned transport failed.
    Transport {
        /// HTTP-like status when one exists.
        status: Option<u16>,
        /// Provider-safe diagnostic.
        message: String,
    },
}

/// A semantic router over a host-provided System One transport.
pub struct JevRouter<T> {
    transport: T,
    model: String,
}

impl<T> JevRouter<T> {
    /// A router asking the model `jev-latest`.
    pub fn new(transport: T) -> (r: Self)
        ensures
            r.model_id()@ == "jev-latest"@,
            r.transport_of() == transport,
    {
        proof {
            reveal_strlit("jev-latest");
        }
        JevRouter { transport, model: "jev-latest".to_owned() }
    }

    /// A router pinned to model `model`.
    pub fn with_model(transport: T, model: String) -> (r: Self)
        ensures
            r.model_id() == model,
            r.transport_of() == transport,
    {
        JevRouter { transport, model }
    }

    /// The model it asks.
    pub closed spec fn model_id(&self) -> String {
        self.model
    }

    /// The transport it asks through.
    pub closed spec fn transport_of(&self) -> T {
        self.transport
    }

    /// The underlying transport.
    pub fn transport(&self) -> (r: &T)
        ensures
            *r == self.transport_of(),
    {
        &self.transport
    }

    /// The model identity it asks for.
    pub fn model(&self) -> (r: &str)
        ensures
            r@ == self.model_id()@,
    {
        self.model.as_str()
    }
}

/// The key of candidate `id`'s contribution question: `contributes_` and
/// the id.
pub open spec fn contribution_of(id: Seq<char>) -> Seq<char> {
    "contributes_"@ + id
}

/// The key of candidate `id`'s contribution question.
pub fn contribution_key(id: &str) -> (r: String)
    ensures
        r@ == contribution_of(id@),
{
    let mut r = "contributes_".to_owned();
    r.append(id);
    proof {
        reveal_strlit("contributes_");
    }
    r
}

/// Optional true/false rubric for a yes/no question.
#[derive(Debug)]
pub struct NoulCriteria {
    /// What a probability near one means.
    pub true_description: String,
    /// What a probability near zero means.
    pub false_description: String,
}

/// Token accounting returned by System One.
#[derive(Clone, Copy, Debug, Eq, PartialEq)]
pub struct TokenUsage {
    /// Input tokens charged.
    pub input_tokens: u64,
    /// Output tokens charged.
    pub output_tokens: u64,
}

/// What an alternative of a choice is judged by.
#[derive(Debug)]
pub enum Rubric {
    /// A candidate, by its label, role, description, capabilities and
    /// learned topics.
    Candidate(RouteCandidate),
    /// A sentence.
    Text(String),
}

/// A routing question.
#[derive(Debug)]
pub enum Question {
    /// Select one of mutually exclusive alternatives.
    Choice {
        /// The decision instruction.
        instructions: String,
        /// The alternatives, by key, and what each is judged by.
        criteria: Vec<(String, Rubric)>,
    },
    /// Judge one yes/no condition.
    Noul {
        /// The yes/no instruction.
        instructions: String,
        /// What yes and no mean, if said.
        criteria: Option<NoulCriteria>,
    },
}

/// A yes/no question with its rubric.
pub open spec fn is_noul(q: Question, instructions: Seq<char>, yes: Seq<char>, no: Seq<char>) -> bool {
    q matches Question::Noul { instructions: i, criteria: Some(c) }
        && i@ == instructions && c.true_description@ == yes && c.false_description@ == no
}

/// A yes/no question with its rubric.
fn noul(instructions: &str, yes: &str, no: &str) -> (q: Question)
    ensures
        is_noul(q, instructions@, yes@, no@),
{
    Question::Noul {
        instructions: instructions.to_owned(),
        criteria: Some(NoulCriteria { true_description: yes.to_owned(), false_description: no.to_owned() }),
    }
}

/// The collaboration question.
pub const COLLABORATION_ASKS: &'static str = "Would one competent primary agent be insufficient for `message` without distinct expertise from another candidate?";
/// Its yes.
pub const COLLABORATION_YES: &'static str = "The request has multiple material domains or benefits from independent specialist challenge";
/// Its no.
pub const COLLABORATION_NO: &'static str = "One suitable agent can handle the request";
/// The clarification question.
pub const CLARIFICATION_ASKS: &'static str = "Is essential information absent such that no candidate can be responsibly selected for `message`?";
/// Its yes.
pub const CLARIFICATION_YES: &'static str = "A routing-critical fact must be clarified";
/// Its no.
pub const CLARIFICATION_NO: &'static str = "The supplied state is sufficient to route";
/// The high-impact question.
pub const HIGH_IMPACT_ASKS: &'static str = "Would a materially wrong answer to `message` have unusually serious legal, financial, safety, or irreversible consequences?";
/// Its yes.
pub const HIGH_IMPACT_YES: &'static str = "The consequences require the higher confidence threshold";
/// Its no.
pub const HIGH_IMPACT_NO: &'static str = "Ordinary routing confidence is appropriate";
/// A contribution question's yes.
pub const CONTRIBUTION_YES: &'static str = "The candidate adds non-duplicative expertise material to the request";
/// A contribution question's no.
pub const CONTRIBUTION_NO: &'static str = "The candidate is irrelevant or duplicates the primary";
/// The rubric of the reserved `none` alternative.
pub const NONE_RUBRIC: &'static str = "No listed candidate is a competent primary responder for this request";

/// A contribution question's instruction for candidate `id`.
pub open spec fn contribution_asks(id: Seq<char>) -> Seq<char> {
    "If collaboration is needed, does candidate `"@ + id + "` offer distinct expertise relevant to `message` beyond the primary responder?"@
}

/// Whether `qs` are the screening questions for candidates `cs`: the three
/// about the message, then one contribution question per candidate, in order.
pub open spec fn screens(qs: Seq<(String, Question)>, cs: Seq<RouteCandidate>) -> bool {
    &&& qs.len() == 3 + cs.len()
    &&& qs[0].0@ == COLLABORATION@ && is_noul(qs[0].1, COLLABORATION_ASKS@, COLLABORATION_YES@, COLLABORATION_NO@)
    &&& qs[1].0@ == CLARIFICATION@ && is_noul(qs[1].1, CLARIFICATION_ASKS@, CLARIFICATION_YES@, CLARIFICATION_NO@)
    &&& qs[2].0@ == HIGH_IMPACT@ && is_noul(qs[2].1, HIGH_IMPACT_ASKS@, HIGH_IMPACT_YES@, HIGH_IMPACT_NO@)
    &&& forall|i: int| 0 <= i < cs.len() ==> (#[trigger] qs[3 + i]).0@ == contribution_of(cs[i].id@)
        && is_noul(qs[3 + i].1, contribution_asks(cs[i].id@), CONTRIBUTION_YES@, CONTRIBUTION_NO@)
}

/// The screening questions: whether the message needs collaboration,
/// clarification, or the high-impact threshold, and whether each candidate
/// would contribute.
pub fn screening_questions(eligible: &Vec<RouteCandidate>) -> (qs: Vec<(String, Question)>)
    ensures
        screens(qs@, eligible@),
{
    let mut qs: Vec<(String, Question)> = Vec::new();
    qs.push((COLLABORATION.to_owned(), noul(COLLABORATION_ASKS, COLLABORATION_YES, COLLABORATION_NO)));
    qs.push((CLARIFICATION.to_owned(), noul(CLARIFICATION_ASKS, CLARIFICATION_YES, CLARIFICATION_NO)));
    qs.push((HIGH_IMPACT.to_owned(), noul(HIGH_IMPACT_ASKS, HIGH_IMPACT_YES, HIGH_IMPACT_NO)));
    let mut i: usize = 0;
    while i < eligible.len()
        invariant
            i <= eligible@.len(),
            qs@.len() == 3 + i,
            qs@[0].0@ == COLLABORATION@ && is_noul(qs@[0].1, COLLABORATION_ASKS@, COLLABORATION_YES@, COLLABORATION_NO@),
            qs@[1].0@ == CLARIFICATION@ && is_noul(qs@[1].1, CLARIFICATION_ASKS@, CLARIFICATION_YES@, CLARIFICATION_NO@),
            qs@[2].0@ == HIGH_IMPACT@ && is_noul(qs@[2].1, HIGH_IMPACT_ASKS@, HIGH_IMPACT_YES@, HIGH_IMPACT_NO@),
            forall|j: int| 0 <= j < i ==> (#[trigger] qs@[3 + j]).0@ == contribution_of(eligible@[j].id@)
                && is_noul(qs@[3 + j].1, contribution_asks(eligible@[j].id@), CONTRIBUTION_YES@, CONTRIBUTION_NO@),
        decreases eligible@.len() - i,
    {
        let id = eligible[i].id.as_str();
        let mut asks = "If collaboration is needed, does candidate `".to_owned();
        asks.append(id);
        asks.append("` offer distinct expertise relevant to `message` beyond the primary responder?");
        proof {
            reveal_strlit("If collaboration is needed, does candidate `");
            reveal_strlit("` offer distinct expertise relevant to `message` beyond the primary responder?");
        }
        let q = noul(asks.as_str(), CONTRIBUTION_YES, CONTRIBUTION_NO);
        let key = contribution_key(id);
        let ghost before = qs@;
        qs.push((key, q));
        assert forall|j: int| 0 <= j < i + 1 implies (#[trigger] qs@[3 + j]).0@ == contribution_of(eligible@[j].id@)
            && is_noul(qs@[3 + j].1, contribution_asks(eligible@[j].id@), CONTRIBUTION_YES@, CONTRIBUTION_NO@) by {
            if j < i {
                assert(qs@[3 + j] == before[3 + j]);
            }
        }
        i = i + 1;
    }
    qs
}

/// The instruction of the primary-responder choice for a message from
/// `source`.
pub open spec fn primary_asks(source: RoutingSource) -> Seq<char> {
    match source {
        RoutingSource::DeskMessage => "Which eligible candidate is the best primary responder for `message`? Select `none` when no candidate is competent."@,
        RoutingSource::AgentBroadcast { author_id } => "Agent `"@ + author_id@
            + "` is handing off `message`. Which eligible teammate is best placed to take up that work? Select `none` when no candidate is competent."@,
    }
}

/// Whether `q` is the primary-responder choice among `cs` for a message from
/// `source`: each candidate by its own rubric, then `none`.
pub open spec fn chooses(q: Question, source: RoutingSource, cs: Seq<RouteCandidate>) -> bool {
    q matches Question::Choice { instructions, criteria } && {
        &&& instructions@ == primary_asks(source)
        &&& criteria@.len() == cs.len() + 1
        &&& forall|i: int| 0 <= i < cs.len() ==> (#[trigger] criteria@[i]).0@ == cs[i].id@
            && (criteria@[i].1 matches Rubric::Candidate(c) && candidate_view(c) == candidate_view(cs[i]))
        &&& criteria@[cs.len() as int].0@ == "none"@
        &&& criteria@[cs.len() as int].1 matches Rubric::Text(t) && t@ == NONE_RUBRIC@
    }
}

/// The primary-responder choice among `eligible`.
pub fn primary_question(request: &RoutingRequest, eligible: &Vec<RouteCandidate>) -> (q: Question)
    ensures
        chooses(q, request.source, eligible@),
{
    let mut criteria: Vec<(String, Rubric)> = Vec::new();
    let mut i: usize = 0;
    while i < eligible.len()
        invariant
            i <= eligible@.len(),
            criteria@.len() == i,
            forall|j: int| 0 <= j < i ==> (#[trigger] criteria@[j]).0@ == eligible@[j].id@
                && (criteria@[j].1 matches Rubric::Candidate(c) && candidate_view(c) == candidate_view(eligible@[j])),
        decreases eligible@.len() - i,
    {
        criteria.push((eligible[i].id.clone(), Rubric::Candidate(eligible[i].copy())));
        i = i + 1;
    }
    criteria.push(("none".to_owned(), Rubric::Text(NONE_RUBRIC.to_owned())));
    let instructions = match &request.source {
        RoutingSource::DeskMessage => "Which eligible candidate is the best primary responder for `message`? Select `none` when no candidate is competent.".to_owned(),
        RoutingSource::AgentBroadcast { author_id } => {
            let mut s = "Agent `".to_owned();
            s.append(author_id.as_str());
            s.append("` is handing off `message`. Which eligible teammate is best placed to take up that work? Select `none` when no candidate is competent.");
            s
        },
    };
    proof {
        reveal_strlit("none");
        reveal_strlit("Agent `");
        reveal_strlit("` is handing off `message`. Which eligible teammate is best placed to take up that work? Select `none` when no candidate is competent.");
    }
    Question::Choice { instructions, criteria }
}

/// Candidate ids that can safely key distinct questions: none twice, none
/// blank, none `none`.
pub open spec fn valid_ids(ids: Seq<Seq<char>>) -> bool {
    &&& ids.no_duplicates()
    &&& forall|i: int| 0 <= i < ids.len() ==> !blank(#[trigger] ids[i]) && ids[i] != "none"@
}

/// The ids of candidates, in order.
pub open spec fn candidate_ids(cs: Seq<RouteCandidate>) -> Seq<Seq<char>> {
    cs.map_values(|c: RouteCandidate| c.id@)
}

/// Whether the candidates' ids are valid question keys.
pub fn valid_candidate_ids(candidates: &Vec<RouteCandidate>) -> (r: bool)
    ensures
        r == valid_ids(candidate_ids(candidates@)),
{
    let ghost ids = candidate_ids(candidates@);
    let mut i: usize = 0;
    while i < candidates.len()
        invariant
            ids == candidate_ids(candidates@),
            i <= candidates@.len(),
            forall|a: int, b: int| 0 <= a < b < i ==> ids[a] != ids[b],
            forall|a: int| 0 <= a < i ==> !blank(#[trigger] ids[a]) && ids[a] != "none"@,
        decreases candidates@.len() - i,
    {
        let id = candidates[i].id.as_str();
        assert(ids[i as int] == id@);
        if crate::text::is_blank(id) || crate::text::same(id, "none") {
            proof {
                reveal_strlit("none");
            }
            return false;
        }
        let mut j: usize = 0;
        while j < i
            invariant
                ids == candidate_ids(candidates@),
                i < candidates@.len(),
                ids[i as int] == id@,
                j <= i,
                forall|a: int| 0 <= a < j ==> ids[a] != ids[i as int],
            decreases i - j,
        {
            if crate::text::same(candidates[j].id.as_str(), id) {
                assert(ids[j as int] == ids[i as int]);
                return false;
            }
            j = j + 1;
        }
        proof {
            reveal_strlit("none");
        }
        i = i + 1;
    }
    true
}

/// The candidates of `cs` that may take a turn now, in order, as plain values.
pub open spec fn available_of(cs: Seq<RouteCandidate>) -> Seq<(Seq<char>, Seq<char>, Option<Seq<char>>, Option<Seq<char>>, Seq<Seq<char>>, Seq<Seq<char>>, bool)>
    decreases cs.len(),
{
    if cs.len() == 0 {
        Seq::empty()
    } else if cs.last().available {
        available_of(cs.drop_last()).push(candidate_view(cs.last()))
    } else {
        available_of(cs.drop_last())
    }
}

/// Candidates as plain values.
pub open spec fn candidate_views(cs: Seq<RouteCandidate>) -> Seq<(Seq<char>, Seq<char>, Option<Seq<char>>, Option<Seq<char>>, Seq<Seq<char>>, Seq<Seq<char>>, bool)> {
    cs.map_values(|c: RouteCandidate| candidate_view(c))
}

/// Copies of the candidates that may take a turn now.
pub fn eligible(candidates: &Vec<RouteCandidate>) -> (r: Vec<RouteCandidate>)
    ensures
        candidate_views(r@) == available_of(candidates@),
{
    let mut r: Vec<RouteCandidate> = Vec::new();
    let mut i: usize = 0;
    while i < candidates.len()
        invariant
            i <= candidates@.len(),
            candidate_views(r@) == available_of(candidates@.take(i as int)),
        decreases candidates@.len() - i,
    {
        assert(candidates@.take(i + 1).drop_last() =~= candidates@.take(i as int));
        assert(candidates@.take(i + 1).last() == candidates@[i as int]);
        if candidates[i].available {
            let ghost before = r@;
            let c = candidates[i].copy();
            r.push(c);
            assert(candidate_views(r@) =~= candidate_views(before).push(candidate_view(candidates@[i as int])));
        }
        i = i + 1;
    }
    assert(candidates@.take(i as int) =~= candidates@);
    r
}

/// What a router asks first.
#[derive(Debug)]
pub enum Asking {
    /// Few enough candidates: one request with the screening questions and
    /// the primary choice.
    Batched(Vec<(String, Question)>),
    /// Too many for one choice: the screening questions alone, to shortlist
    /// by.
    Screening(Vec<(String, Question)>),
}

impl<T> JevRouter<T> {
    /// Checks a request and says what to ask first, with the eligible
    /// candidates: every question in one request when there are fewer
    /// eligible candidates than the choice option limit, the screening
    /// questions alone otherwise.
    ///
    /// # Errors
    ///
    /// [`Error::InvalidCandidateIds`], [`Error::NoEligibleCandidates`],
    /// [`Error::InvalidChoiceOptionLimit`] for a limit under two, in that order.
    pub fn first_asking(&self, request: &RoutingRequest) -> (r: Result<(Vec<RouteCandidate>, Asking), Error>)
        ensures
            !valid_ids(candidate_ids(request.candidates@)) ==> (r matches Err(e) && e is InvalidCandidateIds),
            valid_ids(candidate_ids(request.candidates@)) && available_of(request.candidates@).len() == 0 ==> (r matches Err(e) && e is NoEligibleCandidates),
            valid_ids(candidate_ids(request.candidates@)) && available_of(request.candidates@).len() > 0 && request.policy.choice_option_limit < 2
                ==> (r matches Err(e) && e is InvalidChoiceOptionLimit),
            r is Ok ==> valid_ids(candidate_ids(request.candidates@)) && available_of(request.candidates@).len() > 0 && request.policy.choice_option_limit >= 2,
            r matches Ok((el, asking)) ==> candidate_views(el@) == available_of(request.candidates@) && match asking {
                Asking::Batched(qs) => el@.len() < request.policy.choice_option_limit
                    && screens(qs@.drop_last(), el@) && qs@.last().0@ == PRIMARY@ && chooses(qs@.last().1, request.source, el@),
                Asking::Screening(qs) => el@.len() >= request.policy.choice_option_limit && screens(qs@, el@),
            },
    {
        if !valid_candidate_ids(&request.candidates) {
            return Err(Error::InvalidCandidateIds);
        }
        let el = eligible(&request.candidates);
        if el.len() == 0 {
            return Err(Error::NoEligibleCandidates);
        }
        if request.policy.choice_option_limit < 2 {
            return Err(Error::InvalidChoiceOptionLimit);
        }
        let mut qs = screening_questions(&el);
        if el.len() < request.policy.choice_option_limit {
            let ghost screening = qs@;
            let primary = primary_question(request, &el);
            qs.push((PRIMARY.to_owned(), primary));
            assert(qs@.drop_last() =~= screening);
            return Ok((el, Asking::Batched(qs)));
        }
        Ok((el, Asking::Screening(qs)))
    }
}

/// How many candidates a screening shortlists: one fewer than the choice
/// option limit, leaving room for `none`.
pub fn shortlist_size(choice_option_limit: usize) -> (r: usize)
    ensures
        r == if choice_option_limit == 0 { 0 } else { (choice_option_limit - 1) as usize },
{
    if choice_option_limit == 0 {
        0
    } else {
        choice_option_limit - 1
    }
}

/// The candidates of `cs` whose ids are among `chosen`, in order, as plain values.
pub open spec fn chosen_of(cs: Seq<RouteCandidate>, chosen: Seq<Seq<char>>) -> Seq<(Seq<char>, Seq<char>, Option<Seq<char>>, Option<Seq<char>>, Seq<Seq<char>>, Seq<Seq<char>>, bool)>
    decreases cs.len(),
{
    if cs.len() == 0 {
        Seq::empty()
    } else if chosen.contains(cs.last().id@) {
        chosen_of(cs.drop_last(), chosen).push(candidate_view(cs.last()))
    } else {
        chosen_of(cs.drop_last(), chosen)
    }
}

/// The shortlist: the eligible candidates whose ids screening ranked
/// highest, `chosen`, kept in their eligible order.
pub fn shortlist(eligible: &Vec<RouteCandidate>, chosen: &Vec<String>) -> (r: Vec<RouteCandidate>)
    ensures
        candidate_views(r@) == chosen_of(eligible@, views(chosen@)),
{
    let mut r: Vec<RouteCandidate> = Vec::new();
    let mut i: usize = 0;
    while i < eligible.len()
        invariant
            i <= eligible@.len(),
            candidate_views(r@) == chosen_of(eligible@.take(i as int), views(chosen@)),
        decreases eligible@.len() - i,
    {
        assert(eligible@.take(i + 1).drop_last() =~= eligible@.take(i as int));
        assert(eligible@.take(i + 1).last() == eligible@[i as int]);
        proof {
            crate::text::lemma_holds_views(chosen@, eligible@[i as int].id@);
        }
        if crate::text::contains(chosen, eligible[i].id.as_str()) {
            let ghost before = r@;
            let c = eligible[i].copy();
            r.push(c);
            assert(candidate_views(r@) =~= candidate_views(before).push(candidate_view(eligible@[i as int])));
        }
        i = i + 1;
    }
    assert(eligible@.take(i as int) =~= eligible@);
    r
}

/// Labelled parts as plain values.
pub open spec fn part_views(ps: Seq<(String, u32)>) -> Seq<(Seq<char>, u32)> {
    ps.map_values(|p: (String, u32)| (p.0@, p.1))
}

/// The labels of labelled values, in order.
pub open spec fn labels_of<V>(ps: Seq<(String, V)>) -> Seq<Seq<char>> {
    ps.map_values(|p: (String, V)| p.0@)
}

/// The sum of the parts of `ps`.
pub open spec fn total(ps: Seq<(Seq<char>, u32)>) -> int
    decreases ps.len(),
{
    if ps.len() == 0 {
        0
    } else {
        total(ps.drop_last()) + ps.last().1
    }
}

/// How far the parts of `ps` fall short of one (negative where they exceed it).
pub open spec fn shortfall(ps: Seq<(Seq<char>, u32)>) -> int {
    PROBABILITY_SCALE - total(ps)
}

/// The rejection of a distribution whose total is off by more than its
/// rounding allows.
pub const OFF_TOLERANCE: &'static str = "Choice distribution total exceeds rounding tolerance";
/// The rejection of a distribution that lacks its own selection.
pub const SELECTION_ABSENT: &'static str = "Choice selection is absent from its distribution";
/// The rejection of a distribution whose selection cannot absorb the shortfall.
pub const UNSAFE_NORMALIZATION: &'static str = "Choice distribution cannot be normalized safely";
/// The rejection of a part above the scale.
pub const ABOVE_SCALE: &'static str = "probability exceeds the fixed-point scale";
/// The rejection of a choice whose labels are not the eligible candidates.
pub const LABELS_MISMATCH: &'static str = "primary Choice labels do not match eligible candidates";

/// The distribution `ps` made whole: the selected alternative's parts take
/// the shortfall, when the total is off by no more than one part per
/// alternative (each rounded by at most half a part), the selection is
/// there, its parts stay within the scale, and every other alternative's
/// parts are within it.
pub open spec fn normalized(ps: Seq<(Seq<char>, u32)>, selected: Seq<char>, r: Result<Vec<(String, Probability)>, Error>) -> bool {
    let d = shortfall(ps);
    let k = crate::search::first_where(label_check(ps, selected), 0, ps.len() as int);
    if d > ps.len() || -d > ps.len() {
        r matches Err(e) && (e matches Error::InvalidProviderResponse { message } && message@ == OFF_TOLERANCE@)
    } else if k >= ps.len() {
        r matches Err(e) && (e matches Error::InvalidProviderResponse { message } && message@ == SELECTION_ABSENT@)
    } else if ps[k].1 + d < 0 || ps[k].1 + d > PROBABILITY_SCALE {
        r matches Err(e) && (e matches Error::InvalidProviderResponse { message } && message@ == UNSAFE_NORMALIZATION@)
    } else if exists|i: int| 0 <= i < ps.len() && i != k && (#[trigger] ps[i]).1 > PROBABILITY_SCALE {
        r matches Err(e) && (e matches Error::InvalidProviderResponse { message } && message@ == ABOVE_SCALE@)
    } else {
        r matches Ok(out) && out@.len() == ps.len() && forall|i: int| 0 <= i < ps.len() ==> (#[trigger] out@[i]).0@ == ps[i].0
            && out@[i].1.spec_parts() == if i == k { ps[i].1 + d } else { ps[i].1 as int }
    }
}

/// The check that a part is labelled `selected`.
pub open spec fn label_check(ps: Seq<(Seq<char>, u32)>, selected: Seq<char>) -> spec_fn(int) -> bool {
    |i: int| ps[i].0 == selected
}

/// A choice's distribution, in fixed-point parts, made whole by its
/// selection.
///
/// # Errors
///
/// [`Error::InvalidProviderResponse`], as `normalized` says.
#[verifier::loop_isolation(false)]
pub fn normalize(parts: &Vec<(String, u32)>, selected: &str) -> (r: Result<Vec<(String, Probability)>, Error>)
    requires
        labels_of(parts@).no_duplicates(),
    ensures
        normalized(part_views(parts@), selected@, r),
{
    let ghost ps = part_views(parts@);
    let mut sum: u128 = 0;
    let mut i: usize = 0;
    while i < parts.len()
        invariant
            ps == part_views(parts@),
            i <= parts@.len(),
            sum == total(ps.take(i as int)),
            sum <= i * 0x1_0000_0000,
        decreases parts@.len() - i,
    {
        assert(ps.take(i + 1).drop_last() =~= ps.take(i as int));
        assert(ps[i as int].1 == parts@[i as int].1);
        sum = sum + parts[i].1 as u128;
        i = i + 1;
    }
    assert(ps.take(i as int) =~= ps);
    let n = parts.len() as u128;
    let scale = PROBABILITY_SCALE as u128;
    let off_high = sum > scale && sum - scale > n;
    let off_low = sum < scale && scale - sum > n;
    if off_high || off_low {
        return Err(Error::InvalidProviderResponse { message: OFF_TOLERANCE });
    }
    let ghost lc = label_check(ps, selected@);
    let mut k: usize = 0;
    while k < parts.len() && !crate::text::same(parts[k].0.as_str(), selected)
        invariant
            ps == part_views(parts@),
            lc == label_check(ps, selected@),
            k <= parts@.len(),
            forall|j: int| 0 <= j < k ==> !#[trigger] lc(j),
        decreases parts@.len() - k,
    {
        assert(ps[k as int].0 == parts@[k as int].0@);
        k = k + 1;
    }
    proof {
        if k < parts@.len() {
            assert(ps[k as int].0 == parts@[k as int].0@);
            assert(lc(k as int));
        }
        crate::search::lemma_first_where(lc, 0, k as int, ps.len() as int);
    }
    if k == parts.len() {
        return Err(Error::InvalidProviderResponse { message: SELECTION_ABSENT });
    }
    let own = parts[k].1 as u128;
    let adjusted: u128 = if sum <= scale { own + (scale - sum) } else if own >= sum - scale { own - (sum - scale) } else {
        return Err(Error::InvalidProviderResponse { message: UNSAFE_NORMALIZATION });
    };
    if adjusted > scale {
        return Err(Error::InvalidProviderResponse { message: UNSAFE_NORMALIZATION });
    }
    let mut out: Vec<(String, Probability)> = Vec::new();
    let mut j: usize = 0;
    while j < parts.len()
        invariant
            ps == part_views(parts@),
            0 <= k < parts@.len(),
            ps[k as int].1 + shortfall(ps) == adjusted,
            adjusted <= PROBABILITY_SCALE,
            j <= parts@.len(),
            out@.len() == j,
            forall|m: int| 0 <= m < j ==> (#[trigger] out@[m]).0@ == ps[m].0
                && out@[m].1.spec_parts() == if m == k { ps[m].1 + shortfall(ps) } else { ps[m].1 as int },
            forall|m: int| 0 <= m < j && m != k ==> (#[trigger] ps[m]).1 <= PROBABILITY_SCALE,
        decreases parts@.len() - j,
    {
        assert(ps[j as int] == (parts@[j as int].0@, parts@[j as int].1));
        let value: u32 = if j == k { adjusted as u32 } else { parts[j].1 };
        match Probability::new(value) {
            Some(p) => {
                out.push((parts[j].0.clone(), p));
            },
            None => {
                proof {
                    assert(j != k);
                    assert(ps[j as int].1 > PROBABILITY_SCALE);
                }
                return Err(Error::InvalidProviderResponse { message: ABOVE_SCALE });
            },
        }
        j = j + 1;
    }
    Ok(out)
}

/// Texts in strictly ascending order.
pub open spec fn ascending_text(s: Seq<Seq<char>>) -> bool {
    forall|i: int, j: int| 0 <= i < j < s.len() ==> crate::text::before(#[trigger] s[i], #[trigger] s[j])
}

/// Puts `x` in its place among the ascending `out`, which lacks it.
fn insert_label(out: &mut Vec<String>, x: String)
    requires
        ascending_text(views(old(out)@)),
        !views(old(out)@).contains(x@),
    ensures
        ascending_text(views(final(out)@)),
        views(final(out)@).to_set() == views(old(out)@).to_set().insert(x@),
        final(out)@.len() == old(out)@.len() + 1,
{
    let ghost before = views(out@);
    let mut p: usize = 0;
    while p < out.len() && !crate::text::precedes(x.as_str(), out[p].as_str())
        invariant
            before == views(out@),
            ascending_text(before),
            !before.contains(x@),
            p <= out@.len(),
            forall|i: int| 0 <= i < p ==> crate::text::before(#[trigger] before[i], x@),
        decreases out@.len() - p,
    {
        proof {
            crate::text::lemma_before_total(out@[p as int]@, x@);
            assert(before[p as int] == out@[p as int]@);
            assert(before[p as int] != x@);
        }
        p = p + 1;
    }
    proof {
        if p < out@.len() {
            assert(before[p as int] == out@[p as int]@);
        }
    }
    let ghost xv = x@;
    out.insert(p, x);
    proof {
        let after = views(out@);
        assert(after =~= before.insert(p as int, xv));
        assert forall|i: int, j: int| 0 <= i < j < after.len() implies crate::text::before(#[trigger] after[i], #[trigger] after[j]) by {
            if j < p {
            } else if j == p {
                assert(after[i] == before[i]);
            } else if i < p {
                assert(after[i] == before[i]);
                assert(after[j] == before[j - 1]);
                assert(crate::text::before(xv, before[p as int]));
                if j - 1 > p {
                    crate::text::lemma_before_transitive(xv, before[p as int], before[j - 1]);
                }
                crate::text::lemma_before_transitive(before[i], xv, before[j - 1]);
            } else if i == p {
                assert(after[j] == before[j - 1]);
                assert(crate::text::before(xv, before[p as int]));
                if j - 1 > p {
                    crate::text::lemma_before_transitive(xv, before[p as int], before[j - 1]);
                }
            } else {
                assert(after[i] == before[i - 1]);
                assert(after[j] == before[j - 1]);
            }
        }
        assert forall|y: Seq<char>| after.to_set().contains(y) <==> before.to_set().insert(xv).contains(y) by {
            if after.contains(y) {
                let k = choose|k: int| 0 <= k < after.len() && after[k] == y;
                if k < p {
                    assert(before[k] == y);
                } else if k > p {
                    assert(before[k - 1] == y);
                }
            }
            if before.contains(y) {
                let k = choose|k: int| 0 <= k < before.len() && before[k] == y;
                if k < p {
                    assert(after[k] == y);
                } else {
                    assert(after[k + 1] == y);
                }
            }
            if y == xv {
                assert(after[p as int] == y);
            }
        }
        assert(after.to_set() =~= before.to_set().insert(xv));
    }
}

/// The parts `fixed` gives alternative `l`, or none where it lacks `l`.
pub open spec fn parts_for(fixed: Seq<(String, Probability)>, l: Seq<char>) -> int {
    if exists|j: int| 0 <= j < fixed.len() && (#[trigger] fixed[j]).0@ == l {
        fixed[choose|j: int| 0 <= j < fixed.len() && (#[trigger] fixed[j]).0@ == l].1.spec_parts() as int
    } else {
        0
    }
}

/// Every alternative a primary choice may name: each eligible candidate,
/// and `none`.
pub open spec fn alternatives(eligible: Seq<RouteCandidate>) -> Seq<Seq<char>> {
    candidate_ids(eligible).push("none"@)
}

/// The primary choice's distribution over every alternative, in ascending
/// order of their labels: each as the distribution gives it, or nothing
/// where it is absent.
///
/// # Errors
///
/// [`Error::InvalidProviderResponse`] where the distribution names a label
/// that is not an alternative.
#[verifier::loop_isolation(false)]
pub fn primary_probabilities(eligible: &Vec<RouteCandidate>, fixed: &Vec<(String, Probability)>) -> (r: Result<Vec<(String, Probability)>, Error>)
    requires
        valid_ids(candidate_ids(eligible@)),
        labels_of(fixed@).no_duplicates(),
    ensures
        r is Ok <==> (forall|i: int| 0 <= i < fixed@.len() ==> alternatives(eligible@).contains(#[trigger] labels_of(fixed@)[i])),
        r matches Err(e) ==> (e matches Error::InvalidProviderResponse { message } && message@ == LABELS_MISMATCH@),
        r matches Ok(out) ==> {
            &&& ascending_text(labels_of(out@))
            &&& labels_of(out@).to_set() == alternatives(eligible@).to_set()
            &&& out@.len() == alternatives(eligible@).len()
            &&& forall|i: int| 0 <= i < out@.len() ==> (#[trigger] out@[i]).1.spec_parts() == parts_for(fixed@, out@[i].0@)
        },
{
    let ghost alts = alternatives(eligible@);
    let mut allowed: Vec<String> = Vec::new();
    let mut i: usize = 0;
    while i < eligible.len()
        invariant
            i <= eligible@.len(),
            allowed@.len() == i,
            forall|j: int| 0 <= j < i ==> (#[trigger] allowed@[j])@ == eligible@[j].id@,
        decreases eligible@.len() - i,
    {
        allowed.push(eligible[i].id.clone());
        i = i + 1;
    }
    allowed.push("none".to_owned());
    proof {
        reveal_strlit("none");
        assert(views(allowed@) =~= alts);
    }
    let mut k: usize = 0;
    while k < fixed.len()
        invariant
            views(allowed@) == alts,
            k <= fixed@.len(),
            forall|j: int| 0 <= j < k ==> alts.contains(#[trigger] labels_of(fixed@)[j]),
        decreases fixed@.len() - k,
    {
        proof {
            crate::text::lemma_holds_views(allowed@, fixed@[k as int].0@);
            assert(labels_of(fixed@)[k as int] == fixed@[k as int].0@);
        }
        if !crate::text::contains(&allowed, fixed[k].0.as_str()) {
            assert(!alts.contains(labels_of(fixed@)[k as int]));
            return Err(Error::InvalidProviderResponse { message: LABELS_MISMATCH });
        }
        k = k + 1;
    }
    proof {
        assert forall|a: int, b: int| 0 <= a < alts.len() && 0 <= b < alts.len() && a != b implies alts[a] != alts[b] by {
            let ids = candidate_ids(eligible@);
            if a < ids.len() && b < ids.len() {
            } else if a < ids.len() {
                assert(alts[a] == ids[a]);
                assert(ids[a] != "none"@);
            } else {
                assert(alts[b] == ids[b]);
                assert(ids[b] != "none"@);
            }
        }
    }
    let mut sorted: Vec<String> = Vec::new();
    let mut m: usize = 0;
    while m < allowed.len()
        invariant
            views(allowed@) == alts,
            alts.no_duplicates(),
            m <= allowed@.len(),
            sorted@.len() == m,
            ascending_text(views(sorted@)),
            views(sorted@).to_set() == alts.take(m as int).to_set(),
        decreases allowed@.len() - m,
    {
        proof {
            assert(alts.take(m + 1) =~= alts.take(m as int).push(alts[m as int]));
            crate::text::lemma_push_to_set(alts.take(m as int), alts[m as int]);
            if views(sorted@).contains(alts[m as int]) {
                assert(views(sorted@).to_set().contains(alts[m as int]));
                let q = choose|q: int| 0 <= q < alts.take(m as int).len() && alts.take(m as int)[q] == alts[m as int];
                assert(alts[q] == alts[m as int]);
            }
            assert(allowed@[m as int]@ == alts[m as int]);
        }
        insert_label(&mut sorted, allowed[m].clone());
        m = m + 1;
    }
    proof {
        assert(alts.take(m as int) =~= alts);
    }
    let mut out: Vec<(String, Probability)> = Vec::new();
    let mut j: usize = 0;
    while j < sorted.len()
        invariant
            j <= sorted@.len(),
            out@.len() == j,
            forall|q: int| 0 <= q < j ==> (#[trigger] out@[q]).0@ == sorted@[q]@ && out@[q].1.spec_parts() == parts_for(fixed@, sorted@[q]@),
        decreases sorted@.len() - j,
    {
        let label = &sorted[j];
        let mut f: usize = 0;
        while f < fixed.len() && !crate::text::same(fixed[f].0.as_str(), label.as_str())
            invariant
                f <= fixed@.len(),
                forall|q: int| 0 <= q < f ==> (#[trigger] fixed@[q]).0@ != label@,
            decreases fixed@.len() - f,
        {
            f = f + 1;
        }
        let p = if f < fixed.len() {
            proof {
                let c = choose|c: int| 0 <= c < fixed@.len() && (#[trigger] fixed@[c]).0@ == label@;
                if c != f {
                    assert(labels_of(fixed@)[c] == labels_of(fixed@)[f as int]);
                }
            }
            fixed[f].1
        } else {
            Probability::zero()
        };
        let ghost prev = out@;
        out.push((label.clone(), p));
        assert(out@[j as int].1.spec_parts() == parts_for(fixed@, sorted@[j as int]@));
        assert forall|q: int| 0 <= q < j + 1 implies (#[trigger] out@[q]).0@ == sorted@[q]@ && out@[q].1.spec_parts() == parts_for(fixed@, sorted@[q]@) by {
            if q < j {
                assert(out@[q] == prev[q]);
            }
        }
        j = j + 1;
    }
    proof {
        assert(labels_of(out@) =~= views(sorted@));
    }
    Ok(out)
}

} // verus!

verus! {

/// Fixed-point probabilities as labelled parts.
pub open spec fn fixed_views(out: Seq<(String, Probability)>) -> Seq<(Seq<char>, u32)> {
    out.map_values(|p: (String, Probability)| (p.0@, p.1.spec_parts()))
}

/// Two labelled part lists that differ only at `k`, by `d` there, differ by
/// `d` in total.
proof fn lemma_total_shifted(a: Seq<(Seq<char>, u32)>, b: Seq<(Seq<char>, u32)>, k: int, d: int)
    requires
        a.len() == b.len(),
        0 <= k < a.len(),
        forall|i: int| 0 <= i < a.len() && i != k ==> (#[trigger] b[i]).1 == a[i].1,
        b[k].1 == a[k].1 + d,
    ensures
        total(b) == total(a) + d,
    decreases a.len(),
{
    if k == a.len() - 1 {
        lemma_total_same(a.drop_last(), b.drop_last());
    } else {
        lemma_total_shifted(a.drop_last(), b.drop_last(), k, d);
    }
}

/// Two labelled part lists with the same parts have the same total.
proof fn lemma_total_same(a: Seq<(Seq<char>, u32)>, b: Seq<(Seq<char>, u32)>)
    requires
        a.len() == b.len(),
        forall|i: int| 0 <= i < a.len() ==> (#[trigger] b[i]).1 == a[i].1,
    ensures
        total(b) == total(a),
    decreases a.len(),
{
    if a.len() > 0 {
        lemma_total_same(a.drop_last(), b.drop_last());
    }
}

/// A distribution that was made whole is whole: its parts add up to exactly
/// one, and every label keeps its place.
pub proof fn law_normalized_is_whole(ps: Seq<(Seq<char>, u32)>, selected: Seq<char>, out: Vec<(String, Probability)>)
    requires
        normalized(ps, selected, Ok(out)),
    ensures
        total(fixed_views(out@)) == PROBABILITY_SCALE,
        forall|i: int| 0 <= i < ps.len() ==> (#[trigger] fixed_views(out@)[i]).0 == ps[i].0,
{
    let k = crate::search::first_where(label_check(ps, selected), 0, ps.len() as int);
    let d = shortfall(ps);
    let fv = fixed_views(out@);
    crate::search::lemma_first_where_floor(label_check(ps, selected), 0, ps.len() as int);
    assert forall|i: int| 0 <= i < ps.len() && i != k implies (#[trigger] fv[i]).1 == ps[i].1 by {
        assert(fv[i].1 == out@[i].1.spec_parts());
    }
    assert(fv[k].1 == out@[k].1.spec_parts());
    lemma_total_shifted(ps, fv, k, d);
}

} // verus!

verus! {

/// The parts labelled `l` in `a`, or none where no part is.
pub open spec fn part_labelled(a: Seq<(Seq<char>, u32)>, l: Seq<char>) -> int {
    if exists|j: int| 0 <= j < a.len() && (#[trigger] a[j]).0 == l {
        a[choose|j: int| 0 <= j < a.len() && (#[trigger] a[j]).0 == l].1 as int
    } else {
        0
    }
}

/// Labels of labelled parts.
pub open spec fn part_labels(a: Seq<(Seq<char>, u32)>) -> Seq<Seq<char>> {
    a.map_values(|p: (Seq<char>, u32)| p.0)
}

/// With distinct labels, the parts labelled like `a[j]` are `a[j]`'s.
proof fn lemma_part_labelled(a: Seq<(Seq<char>, u32)>, j: int)
    requires
        part_labels(a).no_duplicates(),
        0 <= j < a.len(),
    ensures
        part_labelled(a, a[j].0) == a[j].1,
{
    let k = choose|k: int| 0 <= k < a.len() && (#[trigger] a[k]).0 == a[j].0;
    assert(part_labels(a)[k] == part_labels(a)[j]);
}

/// Removing one part takes exactly its parts from the total.
proof fn lemma_total_remove(a: Seq<(Seq<char>, u32)>, j: int)
    requires
        0 <= j < a.len(),
    ensures
        total(a) == total(a.remove(j)) + a[j].1,
    decreases a.len(),
{
    if j == a.len() - 1 {
        assert(a.remove(j) =~= a.drop_last());
    } else {
        lemma_total_remove(a.drop_last(), j);
        assert(a.remove(j).drop_last() =~= a.drop_last().remove(j));
        assert(a.remove(j).last() == a.last());
    }
}

/// A list that gives every label of `a` (and perhaps more), each label
/// once, with the parts `a` gives it (none where `a` has none), has `a`'s
/// total.
proof fn lemma_total_spread(a: Seq<(Seq<char>, u32)>, b: Seq<(Seq<char>, u32)>)
    requires
        part_labels(a).no_duplicates(),
        part_labels(b).no_duplicates(),
        forall|i: int| 0 <= i < a.len() ==> part_labels(b).contains(#[trigger] a[i].0),
        forall|i: int| 0 <= i < b.len() ==> (#[trigger] b[i]).1 == part_labelled(a, b[i].0),
    ensures
        total(b) == total(a),
    decreases b.len(),
{
    if b.len() == 0 {
        if a.len() > 0 {
            assert(part_labels(b).contains(a[0].0));
        }
    } else {
        let l = b.last().0;
        let b2 = b.drop_last();
        assert(part_labels(b2) =~= part_labels(b).drop_last());
        if exists|j: int| 0 <= j < a.len() && (#[trigger] a[j]).0 == l {
            let j = choose|j: int| 0 <= j < a.len() && (#[trigger] a[j]).0 == l;
            let a2 = a.remove(j);
            assert(part_labels(a2) =~= part_labels(a).remove(j));
            assert forall|i: int| 0 <= i < a2.len() implies part_labels(b2).contains(#[trigger] a2[i].0) by {
                let i0 = if i < j { i } else { i + 1 };
                assert(a2[i] == a[i0]);
                assert(part_labels(a)[i0] != part_labels(a)[j]);
                assert(part_labels(b).contains(a[i0].0));
                let k = choose|k: int| 0 <= k < part_labels(b).len() && part_labels(b)[k] == a[i0].0;
                assert(k != b.len() - 1);
                assert(part_labels(b2)[k] == a2[i].0);
            }
            assert forall|i: int| 0 <= i < b2.len() implies (#[trigger] b2[i]).1 == part_labelled(a2, b2[i].0) by {
                assert(b2[i] == b[i]);
                assert(part_labels(b)[i] != part_labels(b)[b.len() - 1]);
                if exists|m: int| 0 <= m < a.len() && (#[trigger] a[m]).0 == b2[i].0 {
                    let m = choose|m: int| 0 <= m < a.len() && (#[trigger] a[m]).0 == b2[i].0;
                    lemma_part_labelled(a, m);
                    assert(m != j);
                    let m2 = if m < j { m } else { m - 1 };
                    assert(a2[m2] == a[m]);
                    lemma_part_labelled(a2, m2);
                } else {
                    assert forall|m: int| 0 <= m < a2.len() implies (#[trigger] a2[m]).0 != b2[i].0 by {
                        let m0 = if m < j { m } else { m + 1 };
                        assert(a2[m] == a[m0]);
                    }
                }
            }
            lemma_total_spread(a2, b2);
            lemma_part_labelled(a, j);
            lemma_total_remove(a, j);
        } else {
            assert forall|i: int| 0 <= i < a.len() implies part_labels(b2).contains(#[trigger] a[i].0) by {
                assert(part_labels(b).contains(a[i].0));
                let k = choose|k: int| 0 <= k < part_labels(b).len() && part_labels(b)[k] == a[i].0;
                assert(k != b.len() - 1);
                assert(part_labels(b2)[k] == a[i].0);
            }
            assert forall|i: int| 0 <= i < b2.len() implies (#[trigger] b2[i]).1 == part_labelled(a, b2[i].0) by {
                assert(b2[i] == b[i]);
            }
            lemma_total_spread(a, b2);
        }
    }
}

/// The primary choice's distribution, once made whole and spread over every
/// alternative, is whole: it names each eligible candidate and `none`, once
/// each, in ascending order, and its parts add up to exactly one.
pub proof fn law_primary_distribution_is_whole(
    ps: Seq<(Seq<char>, u32)>,
    selected: Seq<char>,
    fixed: Vec<(String, Probability)>,
    eligible: Seq<RouteCandidate>,
    out: Vec<(String, Probability)>,
)
    requires
        part_labels(ps).no_duplicates(),
        normalized(ps, selected, Ok(fixed)),
        forall|i: int| 0 <= i < fixed@.len() ==> alternatives(eligible).contains(#[trigger] labels_of(fixed@)[i]),
        ascending_text(labels_of(out@)),
        labels_of(out@).to_set() == alternatives(eligible).to_set(),
        out@.len() == alternatives(eligible).len(),
        forall|i: int| 0 <= i < out@.len() ==> (#[trigger] out@[i]).1.spec_parts() == parts_for(fixed@, out@[i].0@),
    ensures
        total(fixed_views(out@)) == PROBABILITY_SCALE,
        ascending_text(labels_of(out@)),
        labels_of(out@).to_set() == alternatives(eligible).to_set(),
        out@.len() == alternatives(eligible).len(),
{
    let a = fixed_views(fixed@);
    let b = fixed_views(out@);
    law_normalized_is_whole(ps, selected, fixed);
    assert(a.len() == ps.len());
    assert(part_labels(a) =~= part_labels(ps)) by {
        assert forall|i: int| 0 <= i < a.len() implies part_labels(a)[i] == part_labels(ps)[i] by {
            assert(a[i].0 == ps[i].0);
        }
    }
    assert forall|i: int, j: int| 0 <= i < j < b.len() implies part_labels(b)[i] != part_labels(b)[j] by {
        assert(crate::text::before(labels_of(out@)[i], labels_of(out@)[j]));
        crate::text::lemma_before_total(labels_of(out@)[i], labels_of(out@)[j]);
        assert(part_labels(b)[i] == labels_of(out@)[i]);
        assert(part_labels(b)[j] == labels_of(out@)[j]);
    }
    assert(part_labels(b).no_duplicates());
    assert forall|i: int| 0 <= i < a.len() implies part_labels(b).contains(#[trigger] a[i].0) by {
        assert(a[i].0 == labels_of(fixed@)[i]);
        assert(alternatives(eligible).to_set().contains(a[i].0));
        assert(labels_of(out@).to_set().contains(a[i].0));
        let k = choose|k: int| 0 <= k < labels_of(out@).len() && labels_of(out@)[k] == a[i].0;
        assert(part_labels(b)[k] == a[i].0);
    }
    assert forall|i: int| 0 <= i < b.len() implies (#[trigger] b[i]).1 == part_labelled(a, b[i].0) by {
        let l = b[i].0;
        assert(l == out@[i].0@);
        assert(b[i].1 == parts_for(fixed@, l));
        if exists|j: int| 0 <= j < fixed@.len() && (#[trigger] fixed@[j]).0@ == l {
            let c = choose|j: int| 0 <= j < fixed@.len() && (#[trigger] fixed@[j]).0@ == l;
            assert(a[c].0 == l);
            assert forall|j: int| 0 <= j < fixed@.len() && (#[trigger] fixed@[j]).0@ == l implies j == c by {
                assert(a[j].0 == l);
                assert(part_labels(a)[j] == part_labels(a)[c]);
            }
            assert(a[c].1 == fixed@[c].1.spec_parts());
            let c2 = choose|j: int| 0 <= j < fixed@.len() && (#[trigger] fixed@[j]).0@ == l;
            assert(c2 == c);
            assert(parts_for(fixed@, l) == fixed@[c].1.spec_parts() as int);
            lemma_part_labelled(a, c);
        } else {
            assert forall|j: int| 0 <= j < a.len() implies (#[trigger] a[j]).0 != l by {
                assert(a[j].0 == fixed@[j].0@);
            }
        }
    }
    lemma_total_spread(a, b);
}

} // verus!
