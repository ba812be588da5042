//! Resumable completion episodes: the state a host keeps between turns,
//! checked whenever it comes back, and folded one committed event at a time.
//!
//! The episode's own bookkeeping (who is a participant, who still owes a
//! turn, whether the episode is complete) is held here as plain values; the
//! hive that computes it hands it over in an [`EpisodeState`].
use vstd::prelude::*;

use crate::error::Error;
use crate::routing::{candidate_view, ConversationKind, ConversationRef, RouteCandidate, RoutingPolicy, RoutingRequest, RoutingSource};
use crate::session::Sequence;
use crate::speech::{said, Utterance};
use crate::search::{first_where, lemma_first_where, lemma_first_where_bound, lemma_first_where_floor};
use crate::text::{blank, contains, is_blank, lemma_holds_views, views};

verus! {

/// One seat's place in a completion episode.
pub struct Participant {
    /// Its canonical hive id.
    pub agent_id: String,
    /// The sequence of the event that last gave it work.
    pub assigned_at: Sequence,
    /// The sequence of its completion, once it completed.
    pub completed_at: Option<Sequence>,
    /// Whether it still owes the episode a turn.
    pub pending: bool,
}

impl Clone for Participant {
    fn clone(&self) -> (r: Self)
        ensures
            r == *self,
    {
        Participant {
            agent_id: self.agent_id.clone(),
            assigned_at: self.assigned_at,
            completed_at: self.completed_at,
            pending: self.pending,
        }
    }
}

/// A completion episode, as the hive keeps it.
pub struct EpisodeState {
    /// The desk it runs at.
    pub desk_id: String,
    /// The thread it runs in, if any.
    pub thread_root: Option<Sequence>,
    /// The newest host sequence the episode had seen when it began.
    pub watermark: Sequence,
    /// Its participants, in the hive's order.
    pub participants: Vec<Participant>,
    /// Whether every participant has completed.
    pub complete: bool,
}

/// Two episodes with the same contents.
pub open spec fn same_episode(a: EpisodeState, b: EpisodeState) -> bool {
    &&& a.desk_id == b.desk_id
    &&& a.thread_root == b.thread_root
    &&& a.watermark == b.watermark
    &&& a.participants@ == b.participants@
    &&& a.complete == b.complete
}

impl Clone for EpisodeState {
    fn clone(&self) -> (r: Self)
        ensures
            same_episode(r, *self),
    {
        EpisodeState {
            desk_id: self.desk_id.clone(),
            thread_root: self.thread_root,
            watermark: self.watermark,
            participants: copy_participants(&self.participants),
            complete: self.complete,
        }
    }
}

/// A copy of each participant, in order.
fn copy_participants(ps: &Vec<Participant>) -> (r: Vec<Participant>)
    ensures
        r@ == ps@,
{
    let mut r: Vec<Participant> = Vec::new();
    let mut i: usize = 0;
    while i < ps.len()
        invariant
            i <= ps@.len(),
            r@ == ps@.take(i as int),
        decreases ps@.len() - i,
    {
        r.push(ps[i].clone());
        assert(r@ =~= ps@.take(i + 1));
        i = i + 1;
    }
    assert(ps@.take(ps@.len() as int) =~= ps@);
    r
}

/// One utterance after the host has durably given it its sequence.
pub struct CommittedUtterance {
    /// Canonical hive id of the author.
    pub author_id: String,
    /// The host sequence of the appended row.
    pub sequence: Sequence,
    /// The accepted utterance the row holds.
    pub utterance: Utterance,
}

impl View for CommittedUtterance {
    type V = (Seq<char>, Sequence, (int, Seq<Seq<char>>, Seq<char>));

    open spec fn view(&self) -> Self::V {
        (self.author_id@, self.sequence, said(self.utterance))
    }
}

impl CommittedUtterance {
    /// A copy of the event.
    pub fn copy(&self) -> (r: CommittedUtterance)
        ensures
            r@ == self@,
    {
        CommittedUtterance {
            author_id: self.author_id.clone(),
            sequence: self.sequence,
            utterance: self.utterance.copy(),
        }
    }

    /// Whether `other` is the same event: same author, sequence and words.
    pub fn same_as(&self, other: &CommittedUtterance) -> (r: bool)
        ensures
            r == (self@ == other@),
    {
        self.sequence.0 == other.sequence.0 && crate::text::same(self.author_id.as_str(), other.author_id.as_str())
            && self.utterance.same_as(&other.utterance)
    }
}

/// A committed event, filed under the sequence it was folded at.
pub struct Receipt {
    /// The key it is filed under.
    pub sequence: Sequence,
    /// The event.
    pub event: CommittedUtterance,
}

/// A participant as plain values.
pub open spec fn part_view(p: Participant) -> (Seq<char>, Sequence, Option<Sequence>, bool) {
    (p.agent_id@, p.assigned_at, p.completed_at, p.pending)
}

/// Two episodes that hold the same values.
pub open spec fn alike_episode(a: EpisodeState, b: EpisodeState) -> bool {
    &&& a.desk_id@ == b.desk_id@
    &&& a.thread_root == b.thread_root
    &&& a.watermark == b.watermark
    &&& a.participants@.map_values(|p: Participant| part_view(p)) == b.participants@.map_values(|p: Participant| part_view(p))
    &&& a.complete == b.complete
}

/// Receipts as plain values.
pub open spec fn receipt_views(rs: Seq<Receipt>) -> Seq<(Sequence, (Seq<char>, Sequence, (int, Seq<Seq<char>>, Seq<char>)))> {
    rs.map_values(|r: Receipt| (r.sequence, r.event@))
}

/// The keys receipts are filed under.
pub open spec fn receipt_keys(rs: Seq<Receipt>) -> Seq<Sequence> {
    rs.map_values(|r: Receipt| r.sequence)
}

/// Receipts filed in strictly ascending order of their keys, as a map of
/// sequences keeps them.
pub open spec fn ascending(rs: Seq<Receipt>) -> bool {
    forall|i: int, j: int| 0 <= i < j < rs.len() ==> (#[trigger] rs[i]).sequence.0 < (#[trigger] rs[j]).sequence.0
}

/// What a driver state holds.
pub struct DriverView {
    /// The episode.
    pub episode: EpisodeState,
    /// The receipts, by ascending key.
    pub receipts: Seq<Receipt>,
    /// The freshness floor.
    pub freshness_floor: Sequence,
    /// The order pending seats are run in.
    pub pending_order: Seq<String>,
    /// The revision.
    pub revision: u64,
}

/// Caller-owned resumable completion state.
///
/// The receipts hold only committed event identity, filed by host sequence:
/// they recognise exact replay without proposing actions again, and tell a
/// different event reusing a sequence. The freshness floor is the greatest of
/// the episode's watermark, its participants' assignment and completion
/// sequences, and the receipts' keys.
pub struct DriverState {
    episode: EpisodeState,
    receipts: Vec<Receipt>,
    freshness_floor: Sequence,
    pending_order: Vec<String>,
    revision: u64,
}

impl View for DriverState {
    type V = DriverView;

    closed spec fn view(&self) -> DriverView {
        DriverView {
            episode: self.episode,
            receipts: self.receipts@,
            freshness_floor: self.freshness_floor,
            pending_order: self.pending_order@,
            revision: self.revision,
        }
    }
}

/// Two states that hold the same values.
pub open spec fn alike(a: DriverView, b: DriverView) -> bool {
    &&& alike_episode(a.episode, b.episode)
    &&& receipt_views(a.receipts) == receipt_views(b.receipts)
    &&& a.freshness_floor == b.freshness_floor
    &&& views(a.pending_order) == views(b.pending_order)
    &&& a.revision == b.revision
}

impl DriverState {
    #[verifier::type_invariant]
    closed spec fn keyed(&self) -> bool {
        ascending(self.receipts@)
    }

    /// The episode it drives.
    pub fn episode(&self) -> (e: &EpisodeState)
        ensures
            *e == self@.episode,
    {
        &self.episode
    }

    /// The episode, giving up the rest.
    pub fn into_episode(self) -> (e: EpisodeState)
        ensures
            e == self@.episode,
    {
        self.episode
    }

    /// The revision that binds pending rounds: one per committed event.
    pub fn revision(&self) -> (r: u64)
        ensures
            r == self@.revision,
    {
        self.revision
    }

    /// Its freshness floor.
    pub fn freshness_floor(&self) -> (r: Sequence)
        ensures
            r == self@.freshness_floor,
    {
        self.freshness_floor
    }

    /// The order pending seats are run in.
    pub fn pending_order(&self) -> (r: &Vec<String>)
        ensures
            r@ == self@.pending_order,
    {
        &self.pending_order
    }

    /// Its receipts, by ascending key.
    pub fn receipts(&self) -> (r: &Vec<Receipt>)
        ensures
            r@ == self@.receipts,
            ascending(r@),
    {
        proof {
            use_type_invariant(self);
        }
        &self.receipts
    }

    /// A state from its parts, as a host stored it: the receipts as
    /// `(key, event)` pairs in ascending order of their keys, as a map keeps
    /// them; `None` where they are not.
    #[verifier::loop_isolation(false)]
    pub fn from_parts(
        episode: EpisodeState,
        receipts: Vec<(Sequence, CommittedUtterance)>,
        freshness_floor: Sequence,
        pending_order: Vec<String>,
        revision: u64,
    ) -> (r: Option<DriverState>)
        ensures
            r is Some <==> (forall|i: int, j: int| 0 <= i < j < receipts@.len() ==> (#[trigger] receipts@[i]).0.0 < (#[trigger] receipts@[j]).0.0),
            r matches Some(s) ==> {
                &&& s@.episode == episode
                &&& s@.freshness_floor == freshness_floor
                &&& s@.pending_order == pending_order@
                &&& s@.revision == revision
                &&& s@.receipts.len() == receipts@.len()
                &&& forall|i: int| 0 <= i < receipts@.len() ==> (#[trigger] s@.receipts[i]).sequence == receipts@[i].0
                    && s@.receipts[i].event == receipts@[i].1
            },
    {
        let ghost given = receipts@;
        let mut rest = receipts;
        let mut filed: Vec<Receipt> = Vec::new();
        while rest.len() > 0
            invariant
                rest@ == given.take(rest@.len() as int),
                rest@.len() <= given.len(),
                filed@.len() == given.len() - rest@.len(),
                forall|t: int| 0 <= t < filed@.len() ==> (#[trigger] filed@[t]).sequence == given[rest@.len() + t].0
                    && filed@[t].event == given[rest@.len() + t].1,
                ascending(filed@),
            decreases rest@.len(),
        {
            let ghost before = rest@;
            let (key, event) = rest.pop().unwrap();
            proof {
                assert(rest@ =~= given.take(rest@.len() as int));
                assert(given[rest@.len() as int] == (key, event));
            }
            if filed.len() > 0 && filed[0].sequence.0 <= key.0 {
                proof {
                    let i = rest@.len() as int;
                    assert(filed@[0].sequence == given[i + 1].0);
                    assert(given[i].0.0 >= given[i + 1].0.0);
                    assert(!(forall|a: int, b: int| 0 <= a < b < given.len() ==> (#[trigger] given[a]).0.0 < (#[trigger] given[b]).0.0));
                }
                return None;
            }
            let ghost old_filed = filed@;
            filed.insert(0, Receipt { sequence: key, event });
            proof {
                assert forall|x: int, y: int| 0 <= x < y < filed@.len() implies (#[trigger] filed@[x]).sequence.0 < (#[trigger] filed@[y]).sequence.0 by {
                    if x == 0 {
                        assert(filed@[y] == old_filed[y - 1]);
                        if y > 1 {
                            assert(old_filed[0].sequence.0 < old_filed[y - 1].sequence.0);
                        }
                    } else {
                        assert(filed@[x] == old_filed[x - 1]);
                        assert(filed@[y] == old_filed[y - 1]);
                    }
                }
                assert forall|t: int| 0 <= t < filed@.len() implies (#[trigger] filed@[t]).sequence == given[rest@.len() + t].0
                    && filed@[t].event == given[rest@.len() + t].1 by {
                    if t > 0 {
                        assert(filed@[t] == old_filed[t - 1]);
                    }
                }
            }
        }
        proof {
            assert forall|i: int, j: int| 0 <= i < j < given.len() implies (#[trigger] given[i]).0.0 < (#[trigger] given[j]).0.0 by {
                assert(filed@[i].sequence.0 < filed@[j].sequence.0);
            }
        }
        Some(DriverState { episode, receipts: filed, freshness_floor, pending_order, revision })
    }

    /// A copy of the state.
    pub fn copy(&self) -> (r: DriverState)
        ensures
            alike(r@, self@),
    {
        proof {
            use_type_invariant(self);
        }
        let receipts = copy_receipts(&self.receipts);
        let episode = self.episode.clone();
        proof {
            assert(alike_episode(episode, self.episode));
        }
        let pending_order = crate::speech::copy_all(&self.pending_order);
        DriverState {
            episode,
            receipts,
            freshness_floor: self.freshness_floor,
            pending_order,
            revision: self.revision,
        }
    }
}

/// The ids of `ps`, in order.
pub open spec fn agent_ids(ps: Seq<Participant>) -> Seq<Seq<char>> {
    ps.map_values(|p: Participant| p.agent_id@)
}

/// The ids of the participants of `ps` that still owe a turn.
pub open spec fn pending_set(ps: Seq<Participant>) -> Set<Seq<char>> {
    Set::new(|id: Seq<char>| exists|i: int| 0 <= i < ps.len() && (#[trigger] ps[i]).pending && ps[i].agent_id@ == id)
}

/// The members of `keep` in `s`, each in the place it first takes.
pub open spec fn keep_first(s: Seq<Seq<char>>, keep: Set<Seq<char>>) -> Seq<Seq<char>>
    decreases s.len(),
{
    if s.len() == 0 {
        Seq::empty()
    } else {
        let prev = keep_first(s.drop_last(), keep);
        if keep.contains(s.last()) && !prev.contains(s.last()) {
            prev.push(s.last())
        } else {
            prev
        }
    }
}

/// `base`, then each of `rs` it does not hold yet, in first-seen order.
pub open spec fn appended(base: Seq<Seq<char>>, rs: Seq<Seq<char>>) -> Seq<Seq<char>>
    decreases rs.len(),
{
    if rs.len() == 0 {
        base
    } else {
        let prev = appended(base, rs.drop_last());
        if prev.contains(rs.last()) {
            prev
        } else {
            prev.push(rs.last())
        }
    }
}

/// Pushes a copy of `id` onto `out` when `keep` holds and `out` lacks it.
fn push_new(out: &mut Vec<String>, id: &String, keep: bool)
    ensures
        views(final(out)@) == if keep && !views(old(out)@).contains(id@) {
            views(old(out)@).push(id@)
        } else {
            views(old(out)@)
        },
{
    proof {
        lemma_holds_views(out@, id@);
    }
    if keep && !contains(out, id.as_str()) {
        out.push(id.clone());
        assert(views(out@) =~= views(old(out)@).push(id@));
    }
}

/// Whether some participant of `ps` with id `id` still owes a turn.
fn is_pending(ps: &Vec<Participant>, id: &String) -> (r: bool)
    ensures
        r == pending_set(ps@).contains(id@),
{
    let mut i: usize = 0;
    while i < ps.len()
        invariant
            i <= ps@.len(),
            forall|j: int| 0 <= j < i ==> !((#[trigger] ps@[j]).pending && ps@[j].agent_id@ == id@),
        decreases ps@.len() - i,
    {
        if ps[i].pending && crate::text::same(ps[i].agent_id.as_str(), id.as_str()) {
            assert(ps@[i as int].pending && ps@[i as int].agent_id@ == id@);
            return true;
        }
        i = i + 1;
    }
    false
}

/// Whether `id` is a participant of `ps`.
fn is_participant(ps: &Vec<Participant>, id: &String) -> (r: bool)
    ensures
        r == agent_ids(ps@).contains(id@),
{
    let mut i: usize = 0;
    while i < ps.len()
        invariant
            i <= ps@.len(),
            forall|j: int| 0 <= j < i ==> (#[trigger] ps@[j]).agent_id@ != id@,
        decreases ps@.len() - i,
    {
        if crate::text::same(ps[i].agent_id.as_str(), id.as_str()) {
            assert(agent_ids(ps@)[i as int] == id@);
            return true;
        }
        i = i + 1;
    }
    proof {
        if agent_ids(ps@).contains(id@) {
            let k = choose|k: int| 0 <= k < agent_ids(ps@).len() && agent_ids(ps@)[k] == id@;
            assert(ps@[k].agent_id@ == id@);
        }
    }
    false
}

/// `keep_first` never holds an id twice, and holds only ids of `s` in `keep`.
pub proof fn lemma_keep_first(s: Seq<Seq<char>>, keep: Set<Seq<char>>)
    ensures
        keep_first(s, keep).no_duplicates(),
        forall|x: Seq<char>| keep_first(s, keep).contains(x) <==> (s.contains(x) && keep.contains(x)),
    decreases s.len(),
{
    if s.len() > 0 {
        lemma_keep_first(s.drop_last(), keep);
        let prev = keep_first(s.drop_last(), keep);
        assert forall|x: Seq<char>| keep_first(s, keep).contains(x) <==> (s.contains(x) && keep.contains(x)) by {
            if s.contains(x) && keep.contains(x) {
                let k = choose|k: int| 0 <= k < s.len() && s[k] == x;
                if k < s.len() - 1 {
                    assert(s.drop_last()[k] == x);
                }
            }
            if s.drop_last().contains(x) {
                let k = choose|k: int| 0 <= k < s.drop_last().len() && s.drop_last()[k] == x;
                assert(s[k] == x);
            }
            if keep_first(s, keep).contains(x) && !prev.contains(x) {
                assert(keep_first(s, keep) == prev.push(s.last()));
                let k = choose|k: int| 0 <= k < prev.push(s.last()).len() && prev.push(s.last())[k] == x;
                assert(x == s.last());
                assert(s[s.len() - 1] == x);
            }
            if prev.contains(x) {
                let k = choose|k: int| 0 <= k < prev.len() && prev[k] == x;
                if keep.contains(s.last()) && !prev.contains(s.last()) {
                    assert(prev.push(s.last())[k] == x);
                }
            }
            if x == s.last() && keep.contains(x) && !prev.contains(x) {
                assert(prev.push(s.last())[prev.len() as int] == x);
            }
        }
    }
}

/// The seats that still owe a turn, in the order they are run: as the
/// pending order lists them, then as the episode lists its participants,
/// each once; none once the episode is complete.
pub open spec fn pending_in_order(v: DriverView) -> Seq<Seq<char>> {
    if v.episode.complete {
        Seq::empty()
    } else {
        keep_first(views(v.pending_order) + agent_ids(v.episode.participants@), pending_set(v.episode.participants@))
    }
}

/// The seats that still owe a turn, in the order they are run.
pub fn pending_ids_in_order(state: &DriverState) -> (r: Vec<String>)
    ensures
        views(r@) == pending_in_order(state@),
        views(r@).no_duplicates(),
        forall|x: Seq<char>| #[trigger] views(r@).contains(x)
            <==> (!state@.episode.complete && pending_set(state@.episode.participants@).contains(x)),
        forall|i: int, j: int| 0 <= i < views(r@).len() && 0 <= j < views(r@).len()
            && views(state@.pending_order).contains(#[trigger] views(r@)[i])
            && !views(state@.pending_order).contains(#[trigger] views(r@)[j]) ==> i < j,
{
    proof {
        law_pending_order_runs_first(state@);
    }
    let mut out: Vec<String> = Vec::new();
    if state.episode.complete {
        assert(views(out@) =~= Seq::<Seq<char>>::empty());
        return out;
    }
    let ps = &state.episode.participants;
    let order = &state.pending_order;
    let ghost keep = pending_set(ps@);
    let ghost s = views(order@) + agent_ids(ps@);
    assert(views(out@) =~= keep_first(s.take(0), keep));
    let mut i: usize = 0;
    while i < order.len()
        invariant
            i <= order@.len(),
            s == views(order@) + agent_ids(ps@),
            keep == pending_set(ps@),
            views(out@) == keep_first(s.take(i as int), keep),
        decreases order@.len() - i,
    {
        assert(s.take(i + 1).drop_last() =~= s.take(i as int));
        assert(s[i as int] == order@[i as int]@);
        let k = is_pending(ps, &order[i]);
        push_new(&mut out, &order[i], k);
        i = i + 1;
    }
    let mut j: usize = 0;
    while j < ps.len()
        invariant
            j <= ps@.len(),
            i == order@.len(),
            s == views(order@) + agent_ids(ps@),
            keep == pending_set(ps@),
            views(out@) == keep_first(s.take(i + j), keep),
        decreases ps@.len() - j,
    {
        assert(s.take(i + j + 1).drop_last() =~= s.take(i + j));
        assert(s[i + j] == ps@[j as int].agent_id@);
        let k = is_pending(ps, &ps[j].agent_id);
        push_new(&mut out, &ps[j].agent_id, k);
        j = j + 1;
    }
    assert(s.take(i + j) =~= s);
    out
}

impl DriverState {
    /// Keeps in the pending order only seats that still owe a turn, each once.
    fn prune_pending_order(&mut self)
        ensures
            views(final(self)@.pending_order) == keep_first(views(old(self)@.pending_order), pending_set(old(self)@.episode.participants@)),
            final(self)@.episode == old(self)@.episode,
            final(self)@.receipts == old(self)@.receipts,
            final(self)@.freshness_floor == old(self)@.freshness_floor,
            final(self)@.revision == old(self)@.revision,
    {
        proof {
            use_type_invariant(&*self);
        }
        let mut out: Vec<String> = Vec::new();
        let ghost keep = pending_set(self.episode.participants@);
        let ghost s = views(self.pending_order@);
        assert(views(out@) =~= keep_first(s.take(0), keep));
        let mut i: usize = 0;
        while i < self.pending_order.len()
            invariant
                i <= self.pending_order@.len(),
                s == views(self.pending_order@),
                keep == pending_set(self.episode.participants@),
                views(out@) == keep_first(s.take(i as int), keep),
            decreases self.pending_order@.len() - i,
        {
            assert(s.take(i + 1).drop_last() =~= s.take(i as int));
            let k = is_pending(&self.episode.participants, &self.pending_order[i]);
            push_new(&mut out, &self.pending_order[i], k);
            i = i + 1;
        }
        assert(s.take(i as int) =~= s);
        self.pending_order = out;
    }
}

/// The ring a broadcast falls back along: the pending order, then the
/// participants, keeping participants only, each once.
pub open spec fn fallback_order(e: EpisodeState, order: Seq<String>) -> Seq<Seq<char>> {
    keep_first(views(order) + agent_ids(e.participants@), agent_ids(e.participants@).to_set())
}

/// The seat after `author` on the ring `o`, if `author` is on it and is not
/// alone there.
pub open spec fn fallback_of(o: Seq<Seq<char>>, author: Seq<char>) -> Option<Seq<char>> {
    if o.contains(author) && o.len() > 1 {
        Some(o[(o.index_of(author) + 1) % (o.len() as int)])
    } else {
        None
    }
}

/// The participant a broadcast by `author_id` falls back to when routing
/// places it with no one: the next after the author on the ring of
/// `fallback_order`.
pub fn broadcast_fallback(episode: &EpisodeState, pending_order: &Vec<String>, author_id: &str) -> (r: Option<String>)
    ensures
        crate::text::text_opt(r) == fallback_of(fallback_order(*episode, pending_order@), author_id@),
{
    let ps = &episode.participants;
    let ghost keep = agent_ids(ps@).to_set();
    let ghost s = views(pending_order@) + agent_ids(ps@);
    let mut ring: Vec<String> = Vec::new();
    assert(views(ring@) =~= keep_first(s.take(0), keep));
    let mut i: usize = 0;
    while i < pending_order.len()
        invariant
            i <= pending_order@.len(),
            s == views(pending_order@) + agent_ids(ps@),
            keep == agent_ids(ps@).to_set(),
            views(ring@) == keep_first(s.take(i as int), keep),
        decreases pending_order@.len() - i,
    {
        assert(s.take(i + 1).drop_last() =~= s.take(i as int));
        assert(s[i as int] == pending_order@[i as int]@);
        let k = is_participant(ps, &pending_order[i]);
        push_new(&mut ring, &pending_order[i], k);
        i = i + 1;
    }
    let mut j: usize = 0;
    while j < ps.len()
        invariant
            j <= ps@.len(),
            i == pending_order@.len(),
            s == views(pending_order@) + agent_ids(ps@),
            keep == agent_ids(ps@).to_set(),
            views(ring@) == keep_first(s.take(i + j), keep),
        decreases ps@.len() - j,
    {
        assert(s.take(i + j + 1).drop_last() =~= s.take(i + j));
        assert(s[i + j] == ps@[j as int].agent_id@);
        assert(agent_ids(ps@).contains(ps@[j as int].agent_id@));
        push_new(&mut ring, &ps[j].agent_id, true);
        j = j + 1;
    }
    assert(s.take(i + j) =~= s);
    let ghost o = views(ring@);
    proof {
        lemma_keep_first(s, keep);
        assert(o == fallback_order(*episode, pending_order@));
    }
    let n = ring.len();
    let mut k: usize = 0;
    while k < n
        invariant
            n == ring@.len(),
            o == views(ring@),
            o == fallback_order(*episode, pending_order@),
            o.no_duplicates(),
            k <= n,
            forall|m: int| 0 <= m < k ==> o[m] != author_id@,
        decreases n - k,
    {
        if crate::text::same(ring[k].as_str(), author_id) {
            if n < 2 {
                return None;
            }
            proof {
                assert(o[k as int] == author_id@);
                let x = o.index_of(author_id@);
                assert(o[x] == author_id@);
                assert(x == k as int);
            }
            let next = (k + 1) % n;
            let found = ring[next].clone();
            assert(found@ == o[next as int]);
            return Some(found);
        }
        k = k + 1;
    }
    proof {
        if o.contains(author_id@) {
            let m = choose|m: int| 0 <= m < o.len() && o[m] == author_id@;
            assert(o[m] != author_id@);
        }
    }
    None
}

/// The greater of two sequence numbers.
pub open spec fn greater(a: u64, b: u64) -> u64 {
    if a < b { b } else { a }
}

/// The greatest of `w` and the assignment and completion sequences of `ps`.
pub open spec fn floor_over(ps: Seq<Participant>, w: Sequence) -> u64
    decreases ps.len(),
{
    if ps.len() == 0 {
        w.0
    } else {
        let p = ps.last();
        greater(greater(floor_over(ps.drop_last(), w), p.assigned_at.0), match p.completed_at {
            Some(c) => c.0,
            None => w.0,
        })
    }
}

/// The greatest of the watermark `w` and every assignment and completion
/// sequence of `ps` bounds each of them, and is one of them.
pub proof fn law_floor_is_greatest(ps: Seq<Participant>, w: Sequence)
    ensures
        floor_over(ps, w) >= w.0,
        forall|i: int| 0 <= i < ps.len() ==> floor_over(ps, w) >= (#[trigger] ps[i]).assigned_at.0,
        forall|i: int| 0 <= i < ps.len() ==> ((#[trigger] ps[i]).completed_at matches Some(c) ==> floor_over(ps, w) >= c.0),
        floor_over(ps, w) == w.0 || exists|i: int| 0 <= i < ps.len()
            && (floor_over(ps, w) == (#[trigger] ps[i]).assigned_at.0 || ps[i].completed_at == Some(Sequence(floor_over(ps, w)))),
    decreases ps.len(),
{
    if ps.len() > 0 {
        let init = ps.drop_last();
        law_floor_is_greatest(init, w);
        let f = floor_over(ps, w);
        assert forall|i: int| 0 <= i < ps.len() implies f >= (#[trigger] ps[i]).assigned_at.0 by {
            if i < ps.len() - 1 {
                assert(init[i] == ps[i]);
            }
        }
        assert forall|i: int| 0 <= i < ps.len() implies ((#[trigger] ps[i]).completed_at matches Some(c) ==> f >= c.0) by {
            if i < ps.len() - 1 {
                assert(init[i] == ps[i]);
            }
        }
        let g = floor_over(init, w);
        if f != w.0 {
            let last = ps.len() - 1;
            if f == ps[last].assigned_at.0 || ps[last].completed_at == Some(Sequence(f)) {
            } else {
                assert(f == g);
                let i = choose|i: int| 0 <= i < init.len()
                    && (g == (#[trigger] init[i]).assigned_at.0 || init[i].completed_at == Some(Sequence(g)));
                assert(init[i] == ps[i]);
            }
        }
    }
}

/// The freshness floor an episode alone gives: the greatest of its
/// watermark and every participant's assignment and completion sequence.
pub fn episode_freshness_floor(episode: &EpisodeState) -> (r: Sequence)
    ensures
        r.0 == floor_over(episode.participants@, episode.watermark),
        r.0 >= episode.watermark.0,
        forall|i: int| 0 <= i < episode.participants@.len() ==> r.0 >= (#[trigger] episode.participants@[i]).assigned_at.0,
        forall|i: int| 0 <= i < episode.participants@.len() ==> ((#[trigger] episode.participants@[i]).completed_at matches Some(c) ==> r.0 >= c.0),
        r == episode.watermark || exists|i: int| 0 <= i < episode.participants@.len()
            && ((#[trigger] episode.participants@[i]).assigned_at == r || episode.participants@[i].completed_at == Some(r)),
{
    proof {
        law_floor_is_greatest(episode.participants@, episode.watermark);
    }
    let ps = &episode.participants;
    let mut floor: u64 = episode.watermark.0;
    let mut i: usize = 0;
    while i < ps.len()
        invariant
            i <= ps@.len(),
            floor == floor_over(ps@.take(i as int), episode.watermark),
        decreases ps@.len() - i,
    {
        assert(ps@.take(i + 1).drop_last() =~= ps@.take(i as int));
        let p = &ps[i];
        if floor < p.assigned_at.0 {
            floor = p.assigned_at.0;
        }
        let done = match p.completed_at {
            Some(c) => c.0,
            None => episode.watermark.0,
        };
        if floor < done {
            floor = done;
        }
        i = i + 1;
    }
    assert(ps@.take(i as int) =~= ps@);
    Sequence(floor)
}

/// What a driver holds of one validated hive, as plain values.
pub struct Hive {
    /// The desk's id.
    pub desk_id: String,
    /// What the desk is for, if it says.
    pub desk_purpose: Option<String>,
    /// The ids of the agents the hive binds.
    pub bound: Vec<String>,
    /// The routing candidates of the hive's graph, in its order.
    pub candidates: Vec<RouteCandidate>,
}

/// What a driver knows of its hive: the desk, the agents it binds, its
/// routing candidates, and how many seats a round runs.
pub struct HiveView {
    /// The desk's id.
    pub desk_id: Seq<char>,
    /// What the desk is for, if it says.
    pub desk_purpose: Option<Seq<char>>,
    /// The ids of the agents the hive binds.
    pub bound: Seq<Seq<char>>,
    /// The routing candidates.
    pub candidates: Seq<RouteCandidate>,
    /// The round width.
    pub round_width: usize,
}

/// A bounded driver over one validated hive.
pub struct CompletionDriver {
    hive: Hive,
    round_width: usize,
}

impl View for CompletionDriver {
    type V = HiveView;

    closed spec fn view(&self) -> HiveView {
        HiveView {
            desk_id: self.hive.desk_id@,
            desk_purpose: crate::text::text_opt(self.hive.desk_purpose),
            bound: views(self.hive.bound@),
            candidates: self.hive.candidates@,
            round_width: self.round_width,
        }
    }
}

/// Whether the `i`th participant id cannot take part: blank, listed before,
/// or bound to no agent.
pub open spec fn participant_faulty(ids: Seq<Seq<char>>, bound: Seq<Seq<char>>, i: int) -> bool {
    blank(ids[i]) || ids.take(i).contains(ids[i]) || !bound.contains(ids[i])
}

/// The participant check, place by place.
pub open spec fn participant_check(ids: Seq<Seq<char>>, bound: Seq<Seq<char>>) -> spec_fn(int) -> bool {
    |i: int| participant_faulty(ids, bound, i)
}

/// The error for a faulty `i`th participant.
pub open spec fn participant_error(ids: Seq<Seq<char>>, i: int, e: Error) -> bool {
    if blank(ids[i]) {
        e == Error::InvalidCompletionParticipant
    } else if ids.take(i).contains(ids[i]) {
        e matches Error::DuplicateCompletionParticipant { agent_id } && agent_id@ == ids[i]
    } else {
        e matches Error::OutOfHiveParticipant { agent_id } && agent_id@ == ids[i]
    }
}

/// Whether the `j`th receipt is unsound: filed under another sequence than
/// its event's, not above the watermark, or by an unbound author.
pub open spec fn receipt_faulty(rs: Seq<Receipt>, w: Sequence, bound: Seq<Seq<char>>, j: int) -> bool {
    rs[j].sequence != rs[j].event.sequence || rs[j].sequence.0 <= w.0 || !bound.contains(rs[j].event.author_id@)
}

/// The receipt check, place by place.
pub open spec fn receipt_check(rs: Seq<Receipt>, w: Sequence, bound: Seq<Seq<char>>) -> spec_fn(int) -> bool {
    |j: int| receipt_faulty(rs, w, bound, j)
}

/// The error for an unsound `j`th receipt.
pub open spec fn receipt_error(rs: Seq<Receipt>, w: Sequence, j: int, e: Error) -> bool {
    if rs[j].sequence != rs[j].event.sequence {
        e == Error::InvalidReceiptSequence { stored: rs[j].sequence, event: rs[j].event.sequence }
    } else if rs[j].sequence.0 <= w.0 {
        e == Error::StaleCommittedEvent { sequence: rs[j].sequence }
    } else {
        e matches Error::OutOfHiveParticipant { agent_id } && agent_id@ == rs[j].event.author_id@
    }
}

/// The check that each seat in a pending order is bound.
pub open spec fn order_check(order: Seq<Seq<char>>, bound: Seq<Seq<char>>) -> spec_fn(int) -> bool {
    |k: int| !bound.contains(order[k])
}

/// The freshness floor a state's contents give: the episode's, raised to
/// its newest receipt.
pub open spec fn derived_floor(v: DriverView) -> u64 {
    let f = floor_over(v.episode.participants@, v.episode.watermark);
    if v.receipts.len() == 0 {
        f
    } else {
        greater(f, v.receipts.last().sequence.0)
    }
}

/// Whether a state passes every check of a resume at hive `h`.
pub open spec fn resumable(h: HiveView, v: DriverView) -> bool {
    let ids = agent_ids(v.episode.participants@);
    let order = views(v.pending_order);
    &&& v.revision == v.receipts.len()
    &&& v.episode.desk_id@ == h.desk_id
    &&& ids.len() > 0
    &&& first_where(participant_check(ids, h.bound), 0, ids.len() as int) == ids.len()
    &&& first_where(receipt_check(v.receipts, v.episode.watermark, h.bound), 0, v.receipts.len() as int) == v.receipts.len()
    &&& first_where(order_check(order, h.bound), 0, order.len() as int) == order.len()
    &&& v.freshness_floor.0 == derived_floor(v)
}

/// The error a resume at hive `h` refuses `v` with: that of the first check
/// it fails, in the order revision, desk, participants, receipts, pending
/// order, freshness floor.
pub open spec fn resume_error(h: HiveView, v: DriverView, e: Error) -> bool {
    let ids = agent_ids(v.episode.participants@);
    let order = views(v.pending_order);
    let pi = first_where(participant_check(ids, h.bound), 0, ids.len() as int);
    let ri = first_where(receipt_check(v.receipts, v.episode.watermark, h.bound), 0, v.receipts.len() as int);
    let oi = first_where(order_check(order, h.bound), 0, order.len() as int);
    if v.revision != v.receipts.len() {
        e == Error::InvalidStateRevision { revision: v.revision, receipt_count: v.receipts.len() as usize }
    } else if v.episode.desk_id@ != h.desk_id {
        e matches Error::OutOfHiveEpisode { desk_id } && desk_id@ == h.desk_id
    } else if ids.len() == 0 {
        e == Error::NoCompletionParticipants
    } else if pi < ids.len() {
        participant_error(ids, pi, e)
    } else if ri < v.receipts.len() {
        receipt_error(v.receipts, v.episode.watermark, ri, e)
    } else if oi < order.len() {
        e matches Error::OutOfHiveParticipant { agent_id } && agent_id@ == order[oi]
    } else if v.freshness_floor.0 != derived_floor(v) {
        e == Error::InvalidFreshnessFloor { stored: v.freshness_floor, derived: Sequence(derived_floor(v)) }
    } else {
        false
    }
}

/// Whether `id` is listed among `ids[..i]`.
fn listed_before(ps: &Vec<Participant>, i: usize) -> (r: bool)
    requires
        i < ps@.len(),
    ensures
        r == agent_ids(ps@).take(i as int).contains(ps@[i as int].agent_id@),
{
    let ghost ids = agent_ids(ps@);
    let mut j: usize = 0;
    while j < i
        invariant
            i < ps@.len(),
            ids == agent_ids(ps@),
            j <= i,
            forall|k: int| 0 <= k < j ==> ids[k] != ids[i as int],
        decreases i - j,
    {
        if crate::text::same(ps[j].agent_id.as_str(), ps[i].agent_id.as_str()) {
            assert(ids.take(i as int)[j as int] == ids[i as int]);
            return true;
        }
        j = j + 1;
    }
    proof {
        if ids.take(i as int).contains(ids[i as int]) {
            let k = choose|k: int| 0 <= k < ids.take(i as int).len() && ids.take(i as int)[k] == ids[i as int];
            assert(ids[k] == ids[i as int]);
        }
    }
    false
}

impl CompletionDriver {
    /// A driver over `hive`, running rounds of at most `round_width` seats.
    ///
    /// # Errors
    ///
    /// [`Error::ZeroRoundWidth`] for a width of zero.
    pub fn new(hive: Hive, round_width: usize) -> (r: Result<CompletionDriver, Error>)
        ensures
            round_width == 0 <==> r is Err,
            r matches Err(e) ==> e == Error::ZeroRoundWidth,
            r matches Ok(d) ==> d@ == (HiveView {
                desk_id: hive.desk_id@,
                desk_purpose: crate::text::text_opt(hive.desk_purpose),
                bound: views(hive.bound@),
                candidates: hive.candidates@,
                round_width,
            }),
    {
        if round_width == 0 {
            return Err(Error::ZeroRoundWidth);
        }
        Ok(CompletionDriver { hive, round_width })
    }

    /// Whether the hive binds an agent of id `id`.
    pub fn binds(&self, id: &str) -> (r: bool)
        ensures
            r == self@.bound.contains(id@),
    {
        proof {
            lemma_holds_views(self.hive.bound@, id@);
        }
        contains(&self.hive.bound, id)
    }

    /// Starts new caller-owned state for `episode`: no receipts, an empty
    /// pending order, revision zero, the episode's own freshness floor; then
    /// checks it as [`CompletionDriver::resume`] does.
    ///
    /// # Errors
    ///
    /// Those of `resume`.
    pub fn start(&self, episode: EpisodeState) -> (r: Result<DriverState, Error>)
        ensures
            ({
                let v = DriverView {
                    episode,
                    receipts: Seq::empty(),
                    freshness_floor: Sequence(floor_over(episode.participants@, episode.watermark)),
                    pending_order: Seq::empty(),
                    revision: 0,
                };
                &&& r is Ok <==> resumable(self@, v)
                &&& r matches Err(e) ==> resume_error(self@, v, e)
                &&& r matches Ok(s) ==> s@ == v
            }),
            r matches Ok(s) ==> s@.freshness_floor.0 >= episode.watermark.0,
            r matches Ok(s) ==> forall|i: int| 0 <= i < episode.participants@.len()
                ==> s@.freshness_floor.0 >= (#[trigger] episode.participants@[i]).assigned_at.0,
            r matches Ok(s) ==> forall|i: int| 0 <= i < episode.participants@.len()
                ==> ((#[trigger] episode.participants@[i]).completed_at matches Some(c) ==> s@.freshness_floor.0 >= c.0),
    {
        proof {
            law_floor_is_greatest(episode.participants@, episode.watermark);
        }
        let freshness_floor = episode_freshness_floor(&episode);
        let state = DriverState {
            episode,
            receipts: Vec::new(),
            freshness_floor,
            pending_order: Vec::new(),
            revision: 0,
        };
        let r = self.resume(state);
        proof {
            assert(keep_first(views(Seq::<String>::empty()), pending_set(episode.participants@)) =~= Seq::<Seq<char>>::empty());
            if r is Ok {
                assert(r->Ok_0@.pending_order =~= Seq::<String>::empty());
            }
        }
        r
    }

    /// Checks caller-owned state against this hive: its revision counts its
    /// receipts; it is this desk's; its participants are there, none blank,
    /// none twice, all bound; each receipt is filed under its event's
    /// sequence, above the watermark, by a bound author; each seat of the
    /// pending order is bound; and its freshness floor is the one its
    /// contents give. Then keeps in the pending order only seats that still
    /// owe a turn, each once.
    ///
    /// # Errors
    ///
    /// The error of the first check that fails.
    #[verifier::loop_isolation(false)]
    pub fn resume(&self, state: DriverState) -> (r: Result<DriverState, Error>)
        ensures
            r is Ok <==> resumable(self@, state@),
            r matches Err(e) ==> resume_error(self@, state@, e),
            r matches Ok(s) ==> {
                &&& s@.episode == state@.episode
                &&& s@.receipts == state@.receipts
                &&& s@.freshness_floor == state@.freshness_floor
                &&& s@.revision == state@.revision
                &&& views(s@.pending_order) == keep_first(views(state@.pending_order), pending_set(state@.episode.participants@))
            },
    {
        proof {
            use_type_invariant(&state);
        }
        let mut state = state;
        let ghost v = state@;
        let ghost h = self@;
        if state.revision as u128 != state.receipts.len() as u128 {
            return Err(Error::InvalidStateRevision { revision: state.revision, receipt_count: state.receipts.len() });
        }
        if !crate::text::same(state.episode.desk_id.as_str(), self.hive.desk_id.as_str()) {
            return Err(Error::OutOfHiveEpisode { desk_id: self.hive.desk_id.clone() });
        }
        let ps = &state.episode.participants;
        if ps.len() == 0 {
            return Err(Error::NoCompletionParticipants);
        }
        let ghost ids = agent_ids(ps@);
        let ghost pc = participant_check(ids, h.bound);
        let mut i: usize = 0;
        while i < ps.len()
            invariant
                ids == agent_ids(ps@),
                pc == participant_check(ids, h.bound),
                h == self@,
                i <= ps@.len(),
                forall|j: int| 0 <= j < i ==> !#[trigger] pc(j),
            decreases ps@.len() - i,
        {
            let id = &ps[i].agent_id;
            assert(ids[i as int] == id@);
            if is_blank(id.as_str()) {
                proof {
                    lemma_first_where(pc, 0, i as int, ids.len() as int);
                }
                return Err(Error::InvalidCompletionParticipant);
            }
            if listed_before(ps, i) {
                proof {
                    lemma_first_where(pc, 0, i as int, ids.len() as int);
                }
                return Err(Error::DuplicateCompletionParticipant { agent_id: id.clone() });
            }
            if !self.binds(id.as_str()) {
                proof {
                    lemma_first_where(pc, 0, i as int, ids.len() as int);
                }
                return Err(Error::OutOfHiveParticipant { agent_id: id.clone() });
            }
            i = i + 1;
        }
        proof {
            lemma_first_where(pc, 0, i as int, ids.len() as int);
        }
        let rs = &state.receipts;
        let w = state.episode.watermark;
        let ghost rc = receipt_check(rs@, w, h.bound);
        let mut j: usize = 0;
        while j < rs.len()
            invariant
                rc == receipt_check(rs@, w, h.bound),
                h == self@,
                j <= rs@.len(),
                forall|k: int| 0 <= k < j ==> !#[trigger] rc(k),
            decreases rs@.len() - j,
        {
            let receipt = &rs[j];
            if receipt.sequence.0 != receipt.event.sequence.0 {
                proof {
                    lemma_first_where(rc, 0, j as int, rs@.len() as int);
                }
                return Err(Error::InvalidReceiptSequence { stored: receipt.sequence, event: receipt.event.sequence });
            }
            if receipt.sequence.0 <= w.0 {
                proof {
                    lemma_first_where(rc, 0, j as int, rs@.len() as int);
                }
                return Err(Error::StaleCommittedEvent { sequence: receipt.sequence });
            }
            if !self.binds(receipt.event.author_id.as_str()) {
                proof {
                    lemma_first_where(rc, 0, j as int, rs@.len() as int);
                }
                return Err(Error::OutOfHiveParticipant { agent_id: receipt.event.author_id.clone() });
            }
            j = j + 1;
        }
        proof {
            lemma_first_where(rc, 0, j as int, rs@.len() as int);
        }
        let order = &state.pending_order;
        let ghost oc = order_check(views(order@), h.bound);
        let mut k: usize = 0;
        while k < order.len()
            invariant
                oc == order_check(views(order@), h.bound),
                h == self@,
                k <= order@.len(),
                forall|m: int| 0 <= m < k ==> !#[trigger] oc(m),
            decreases order@.len() - k,
        {
            assert(views(order@)[k as int] == order@[k as int]@);
            if !self.binds(order[k].as_str()) {
                proof {
                    lemma_first_where(oc, 0, k as int, order@.len() as int);
                }
                return Err(Error::OutOfHiveParticipant { agent_id: order[k].clone() });
            }
            k = k + 1;
        }
        proof {
            lemma_first_where(oc, 0, k as int, order@.len() as int);
        }
        state.prune_pending_order();
        let episode_floor = episode_freshness_floor(&state.episode);
        let n = state.receipts.len();
        let derived = if n == 0 {
            episode_floor
        } else {
            let newest = state.receipts[n - 1].sequence;
            if episode_floor.0 < newest.0 {
                newest
            } else {
                episode_floor
            }
        };
        if state.freshness_floor.0 != derived.0 {
            return Err(Error::InvalidFreshnessFloor { stored: state.freshness_floor, derived });
        }
        Ok(state)
    }
}

/// The event filed under `k` in `rs`, as plain values, if any.
pub open spec fn receipt_for(rs: Seq<Receipt>, k: Sequence) -> Option<(Seq<char>, Sequence, (int, Seq<Seq<char>>, Seq<char>))> {
    if exists|i: int| 0 <= i < rs.len() && (#[trigger] rs[i]).sequence == k {
        Some(rs[choose|i: int| 0 <= i < rs.len() && (#[trigger] rs[i]).sequence == k].event@)
    } else {
        None
    }
}

/// Where in `rs` the receipt filed under `k` is, if any.
fn find_receipt(rs: &Vec<Receipt>, k: Sequence) -> (r: Option<usize>)
    requires
        ascending(rs@),
    ensures
        r matches Some(i) ==> i < rs@.len() && rs@[i as int].sequence == k && receipt_for(rs@, k) == Some(rs@[i as int].event@),
        r is None ==> receipt_for(rs@, k) is None,
{
    let mut i: usize = 0;
    while i < rs.len()
        invariant
            ascending(rs@),
            i <= rs@.len(),
            forall|j: int| 0 <= j < i ==> (#[trigger] rs@[j]).sequence != k,
        decreases rs@.len() - i,
    {
        if rs[i].sequence.0 == k.0 {
            proof {
                let c = choose|c: int| 0 <= c < rs@.len() && (#[trigger] rs@[c]).sequence == k;
                if c < i {
                    assert(rs@[c].sequence != k);
                } else if c > i {
                    assert(rs@[i as int].sequence.0 < rs@[c].sequence.0);
                }
            }
            return Some(i);
        }
        i = i + 1;
    }
    None
}

/// Whether `e` is already folded into `v`, exactly.
pub open spec fn replayed(v: DriverView, e: CommittedUtterance) -> bool {
    receipt_for(v.receipts, e.sequence) == Some(e@)
}

/// Whether `e` is new to `v` and may be folded at hive `h`: nothing is
/// filed under its sequence, it is above the freshness floor, and its
/// author is bound.
pub open spec fn fresh(h: HiveView, v: DriverView, e: CommittedUtterance) -> bool {
    &&& receipt_for(v.receipts, e.sequence) is None
    &&& v.freshness_floor.0 < e.sequence.0
    &&& h.bound.contains(e.author_id@)
}

/// The error an event that is neither replayed nor fresh is refused with.
pub open spec fn replay_error(h: HiveView, v: DriverView, e: CommittedUtterance, err: Error) -> bool {
    if receipt_for(v.receipts, e.sequence) is Some {
        err == Error::DuplicateCommittedSequence { sequence: e.sequence }
    } else if e.sequence.0 <= v.freshness_floor.0 {
        err == Error::StaleCommittedEvent { sequence: e.sequence }
    } else {
        err matches Error::OutOfHiveParticipant { agent_id } && agent_id@ == e.author_id@
    }
}

/// The plan a router accepted for a broadcast, by the ids it names.
pub enum RoutingPlan {
    /// One responder was chosen.
    One {
        /// Its id.
        responder_id: String,
    },
    /// No one was chosen and the fallback responder takes it.
    Fallback {
        /// Its id.
        responder_id: String,
    },
    /// A primary responder, with others invited.
    Hive {
        /// The primary.
        primary_id: String,
        /// The invited.
        invited_ids: Vec<String>,
    },
    /// The author is asked to say more first.
    Clarify,
}

/// The ids a plan runs, primary first.
pub open spec fn plan_ids(p: RoutingPlan) -> Seq<Seq<char>> {
    match p {
        RoutingPlan::One { responder_id } => seq![responder_id@],
        RoutingPlan::Fallback { responder_id } => seq![responder_id@],
        RoutingPlan::Hive { primary_id, invited_ids } => seq![primary_id@] + views(invited_ids@),
        RoutingPlan::Clarify => Seq::empty(),
    }
}

/// The ids a plan runs, primary first.
pub fn route_ids(plan: &RoutingPlan) -> (r: Vec<String>)
    ensures
        views(r@) == plan_ids(*plan),
{
    let mut r: Vec<String> = Vec::new();
    match plan {
        RoutingPlan::One { responder_id } => {
            r.push(responder_id.clone());
        },
        RoutingPlan::Fallback { responder_id } => {
            r.push(responder_id.clone());
        },
        RoutingPlan::Hive { primary_id, invited_ids } => {
            r.push(primary_id.clone());
            let mut i: usize = 0;
            while i < invited_ids.len()
                invariant
                    i <= invited_ids@.len(),
                    r@.len() == i + 1,
                    r@[0]@ == primary_id@,
                    forall|j: int| 0 <= j < i ==> (#[trigger] r@[j + 1])@ == invited_ids@[j]@,
                decreases invited_ids@.len() - i,
            {
                r.push(invited_ids[i].clone());
                i = i + 1;
            }
            assert(views(r@) =~= seq![primary_id@] + views(invited_ids@)) by {
                assert forall|j: int| 0 <= j < r@.len() implies views(r@)[j] == (seq![primary_id@] + views(invited_ids@))[j] by {
                    if j > 0 {
                        assert(r@[(j - 1) + 1]@ == invited_ids@[j - 1]@);
                    }
                }
            }
        },
        RoutingPlan::Clarify => {},
    }
    assert(views(r@) =~= plan_ids(*plan));
    r
}

/// The desk-private route a hive resolved for a direct message, by the
/// seats it reaches.
pub struct MessageRoute {
    /// The seats reached.
    pub recipient_ids: Vec<String>,
}

/// An action proposed to the host after a committed event. A description
/// only: the library runs no turn and appends no row.
pub enum HostAction {
    /// Run these seats.
    RunAgents {
        /// The seats, in the plan's order.
        agent_ids: Vec<String>,
        /// The plan they come from, kept for the host's audit.
        plan: RoutingPlan,
    },
    /// Deliver a committed desk-private message.
    DeliverDm {
        /// The route.
        route: MessageRoute,
        /// The message, as written.
        message: String,
    },
}

/// What folding committed events gives.
pub struct Transition {
    /// The next caller-owned state.
    pub state: DriverState,
    /// The host actions the events call for.
    pub actions: Vec<HostAction>,
}

/// Whether recipients `rs` of a broadcast by `author` fit hive `h`: no more
/// than a round holds, not the author, each bound.
pub open spec fn recipients_fit(h: HiveView, author: Seq<char>, rs: Seq<Seq<char>>) -> bool {
    &&& rs.len() <= h.round_width
    &&& !rs.contains(author)
    &&& forall|i: int| 0 <= i < rs.len() ==> h.bound.contains(#[trigger] rs[i])
}

/// The check that each recipient is bound.
pub open spec fn bound_check(rs: Seq<Seq<char>>, bound: Seq<Seq<char>>) -> spec_fn(int) -> bool {
    |i: int| !bound.contains(rs[i])
}

/// The error recipients that do not fit are refused with.
pub open spec fn recipients_error(h: HiveView, author: Seq<char>, rs: Seq<Seq<char>>, e: Error) -> bool {
    if rs.len() > h.round_width {
        e == Error::BroadcastTooWide { recipient_count: rs.len() as usize, round_width: h.round_width }
    } else if rs.contains(author) {
        e matches Error::BroadcastIncludesAuthor { agent_id } && agent_id@ == author
    } else {
        e matches Error::UnknownBoundAgent { agent_id } && agent_id@ == rs[first_where(bound_check(rs, h.bound), 0, rs.len() as int)]
    }
}

impl CompletionDriver {
    /// Checks the recipients of a broadcast by `author_id`.
    ///
    /// # Errors
    ///
    /// [`Error::BroadcastTooWide`] past the round width,
    /// [`Error::BroadcastIncludesAuthor`] when the author is among them,
    /// [`Error::UnknownBoundAgent`] for the first unbound one.
    #[verifier::loop_isolation(false)]
    pub fn check_recipients(&self, author_id: &str, recipients: &Vec<String>) -> (r: Result<(), Error>)
        ensures
            r is Ok <==> recipients_fit(self@, author_id@, views(recipients@)),
            r matches Err(e) ==> recipients_error(self@, author_id@, views(recipients@), e),
    {
        let ghost rs = views(recipients@);
        if recipients.len() > self.round_width {
            return Err(Error::BroadcastTooWide { recipient_count: recipients.len(), round_width: self.round_width });
        }
        proof {
            lemma_holds_views(recipients@, author_id@);
        }
        if contains(recipients, author_id) {
            return Err(Error::BroadcastIncludesAuthor { agent_id: author_id.to_owned() });
        }
        let ghost bc = bound_check(rs, self@.bound);
        let mut i: usize = 0;
        while i < recipients.len()
            invariant
                rs == views(recipients@),
                bc == bound_check(rs, self@.bound),
                i <= recipients@.len(),
                forall|j: int| 0 <= j < i ==> !#[trigger] bc(j),
            decreases recipients@.len() - i,
        {
            assert(rs[i as int] == recipients@[i as int]@);
            if !self.binds(recipients[i].as_str()) {
                proof {
                    lemma_first_where(bc, 0, i as int, rs.len() as int);
                }
                return Err(Error::UnknownBoundAgent { agent_id: recipients[i].clone() });
            }
            i = i + 1;
        }
        assert forall|j: int| 0 <= j < rs.len() implies self@.bound.contains(#[trigger] rs[j]) by {
            assert(!bc(j));
        }
        Ok(())
    }

    /// Checks a committed event against `state`: an exact replay of a folded
    /// event gives the state back unchanged with no actions; an event that
    /// may be folded gives `None`.
    ///
    /// # Errors
    ///
    /// [`Error::DuplicateCommittedSequence`] for another event under a folded
    /// sequence, [`Error::StaleCommittedEvent`] at or below the freshness
    /// floor, [`Error::OutOfHiveParticipant`] for an unbound author.
    pub fn replay_or_validate(&self, state: &DriverState, event: &CommittedUtterance) -> (r: Result<Option<Transition>, Error>)
        ensures
            replayed(state@, *event) ==> (r matches Ok(Some(t)) && alike(t.state@, state@) && t.actions@.len() == 0),
            fresh(self@, state@, *event) ==> r matches Ok(None),
            !replayed(state@, *event) && !fresh(self@, state@, *event) ==> (r matches Err(e) && replay_error(self@, state@, *event, e)),
    {
        proof {
            use_type_invariant(state);
        }
        match find_receipt(&state.receipts, event.sequence) {
            Some(i) => {
                if state.receipts[i].event.same_as(event) {
                    return Ok(Some(Transition { state: state.copy(), actions: Vec::new() }));
                }
                return Err(Error::DuplicateCommittedSequence { sequence: event.sequence });
            },
            None => {},
        }
        if event.sequence.0 <= state.freshness_floor.0 {
            return Err(Error::StaleCommittedEvent { sequence: event.sequence });
        }
        if !self.binds(event.author_id.as_str()) {
            return Err(Error::OutOfHiveParticipant { agent_id: event.author_id.clone() });
        }
        Ok(None)
    }
}

/// A copy of each receipt, in order.
fn copy_receipts(rs: &Vec<Receipt>) -> (r: Vec<Receipt>)
    requires
        ascending(rs@),
    ensures
        receipt_views(r@) == receipt_views(rs@),
        receipt_keys(r@) == receipt_keys(rs@),
        ascending(r@),
{
    let mut r: Vec<Receipt> = Vec::new();
    let mut i: usize = 0;
    while i < rs.len()
        invariant
            i <= rs@.len(),
            r@.len() == i,
            forall|j: int| 0 <= j < i ==> (#[trigger] r@[j]).sequence == rs@[j].sequence
                && r@[j].event@ == rs@[j].event@,
        decreases rs@.len() - i,
    {
        let x = &rs[i];
        r.push(Receipt { sequence: x.sequence, event: x.event.copy() });
        i = i + 1;
    }
    assert(receipt_views(r@) =~= receipt_views(rs@));
    assert(receipt_keys(r@) =~= receipt_keys(rs@));
    assert forall|a: int, b: int| 0 <= a < b < r@.len() implies (#[trigger] r@[a]).sequence.0 < (#[trigger] r@[b]).sequence.0 by {
        assert(rs@[a].sequence.0 < rs@[b].sequence.0);
    }
    r
}

/// The check that a key is above `k`.
pub open spec fn above(keys: Seq<Sequence>, k: u64) -> spec_fn(int) -> bool {
    |i: int| keys[i].0 > k
}

/// Where a receipt filed under `k` goes among ascending keys: before the
/// first greater one.
pub open spec fn slot(keys: Seq<Sequence>, k: u64) -> int {
    first_where(above(keys, k), 0, keys.len() as int)
}

/// Files `receipt` in its place among ascending receipts that hold none
/// under its key.
fn file_receipt(rs: &mut Vec<Receipt>, receipt: Receipt)
    requires
        ascending(old(rs)@),
        receipt_for(old(rs)@, receipt.sequence) is None,
    ensures
        final(rs)@ == old(rs)@.insert(slot(receipt_keys(old(rs)@), receipt.sequence.0), receipt),
        ascending(final(rs)@),
{
    let ghost keys = receipt_keys(rs@);
    let ghost k = receipt.sequence.0;
    let ghost ab = above(keys, k);
    let mut i: usize = 0;
    while i < rs.len() && rs[i].sequence.0 <= receipt.sequence.0
        invariant
            keys == receipt_keys(rs@),
            ab == above(keys, k),
            k == receipt.sequence.0,
            i <= rs@.len(),
            forall|j: int| 0 <= j < i ==> !#[trigger] ab(j),
        decreases rs@.len() - i,
    {
        assert(keys[i as int] == rs@[i as int].sequence);
        i = i + 1;
    }
    assert(i < rs@.len() ==> keys[i as int] == rs@[i as int].sequence);
    proof {
        lemma_first_where(ab, 0, i as int, keys.len() as int);
        assert(slot(keys, k) == i);
        assert forall|j: int| 0 <= j < i implies (#[trigger] rs@[j]).sequence.0 < k by {
            assert(!ab(j));
            assert(keys[j] == rs@[j].sequence);
            if rs@[j].sequence.0 == k {
                assert(rs@[j].sequence == receipt.sequence);
            }
        }
    }
    let ghost before = rs@;
    rs.insert(i, receipt);
    assert forall|a: int, b: int| 0 <= a < b < rs@.len() implies (#[trigger] rs@[a]).sequence.0 < (#[trigger] rs@[b]).sequence.0 by {
        if b < i {
        } else if b == i {
            assert(before[a].sequence.0 < k);
        } else if a < i {
            assert(before[a].sequence.0 < k);
            assert(before[i as int].sequence.0 > k) by {
                assert(ab(i as int));
            }
            if b - 1 > i {
                assert(before[i as int].sequence.0 < before[b - 1].sequence.0);
            }
        } else if a == i {
            assert(before[i as int].sequence.0 > k) by {
                assert(ab(i as int));
            }
            if b - 1 > i {
                assert(before[i as int].sequence.0 < before[b - 1].sequence.0);
            }
        } else {
            assert(before[a - 1].sequence.0 < before[b - 1].sequence.0);
        }
    }
}

/// `v` with `e` folded in: the episode `episode`, `e` filed, the floor at
/// `e`'s sequence, one revision on, and the pending order `order` pruned to
/// seats that still owe a turn.
pub open spec fn folded(v: DriverView, e: CommittedUtterance, episode: EpisodeState, order: Seq<Seq<char>>, n: DriverView) -> bool {
    &&& alike_episode(n.episode, episode)
    &&& receipt_views(n.receipts) == receipt_views(v.receipts.insert(slot(receipt_keys(v.receipts), e.sequence.0), Receipt { sequence: e.sequence, event: e }))
    &&& n.freshness_floor == e.sequence
    &&& n.revision == v.revision + 1
    &&& views(n.pending_order) == keep_first(order, pending_set(episode.participants@))
}

/// The outcome of settling `e` into `v`: refused when the revision is at
/// its greatest, else the folded state.
pub open spec fn settled(v: DriverView, e: CommittedUtterance, episode: EpisodeState, order: Seq<Seq<char>>, r: Result<Transition, Error>) -> bool {
    if v.revision == u64::MAX {
        r matches Err(x) && x == Error::StateRevisionOverflow
    } else {
        r matches Ok(t) && folded(v, e, episode, order, t.state@)
    }
}

/// What the hive and the router answered for one committed event, where the
/// event needs them.
pub enum HiveReply {
    /// Nothing was asked of them: the event is a post or an ask.
    Nothing,
    /// The hive applied the completion: the episode after it, or its refusal.
    Completion(Result<EpisodeState, Error>),
    /// The hive resolved the direct message: its route, or its refusal.
    Direct(Result<MessageRoute, Error>),
    /// A broadcast.
    Routed {
        /// The plan the router accepted; `None` where no routing inputs were
        /// supplied.
        plan: Option<RoutingPlan>,
        /// The episode after the hive assigned the plan's seats, or its
        /// refusal; read only where the plan names seats that fit.
        assigned: Result<EpisodeState, Error>,
    },
}

/// Whether `reply` is of the kind utterance `u` asks for.
pub open spec fn answers(u: Utterance, reply: HiveReply) -> bool {
    match u {
        Utterance::CompleteEpisode { .. } => reply is Completion,
        Utterance::Dm { .. } => reply is Direct,
        Utterance::Broadcast { .. } => reply is Routed,
        _ => reply is Nothing,
    }
}

/// What folding the fresh event `e` into `v` at hive `h` gives, with the
/// hive's `reply` and the broadcast fallback `fallback` chosen beforehand,
/// if any.
pub open spec fn fold_outcome(h: HiveView, v: DriverView, e: CommittedUtterance, reply: HiveReply, fallback: Option<Seq<char>>, r: Result<Transition, Error>) -> bool {
    let order = views(v.pending_order);
    match e.utterance {
        Utterance::Dm { message, .. } => match reply {
            HiveReply::Direct(Ok(route)) => settled(v, e, v.episode, order, r)
                && (r matches Ok(t) ==> t.actions@ == seq![HostAction::DeliverDm { route, message }]),
            HiveReply::Direct(Err(x)) => r matches Err(y) && y == x,
            _ => false,
        },
        Utterance::CompleteEpisode { .. } => match reply {
            HiveReply::Completion(Ok(ep)) => settled(v, e, ep, order, r) && (r matches Ok(t) ==> t.actions@.len() == 0),
            HiveReply::Completion(Err(x)) => r matches Err(y) && y == x,
            _ => false,
        },
        Utterance::Broadcast { .. } => match reply {
            HiveReply::Routed { plan: None, .. } => r matches Err(y) && y == Error::MissingBroadcastRouting,
            HiveReply::Routed { plan: Some(p), assigned } => {
                let fb = match fallback {
                    Some(f) => Some(f),
                    None => fallback_of(fallback_order(v.episode, v.pending_order), e.author_id@),
                };
                let ids = plan_ids(p);
                if fb is None {
                    r matches Err(y) && (y matches Error::NoBroadcastFallback { agent_id } && agent_id@ == e.author_id@)
                } else if !recipients_fit(h, e.author_id@, ids) {
                    r matches Err(y) && recipients_error(h, e.author_id@, ids, y)
                } else if ids.len() == 0 {
                    settled(v, e, v.episode, order, r) && (r matches Ok(t) ==> t.actions@.len() == 0)
                } else {
                    match assigned {
                        Ok(ep) => settled(v, e, ep, appended(order, ids), r) && (r matches Ok(t) ==> (t.actions@.len() == 1
                            && (t.actions@[0] matches HostAction::RunAgents { agent_ids, plan } && views(agent_ids@) == ids && plan == p))),
                        Err(x) => r matches Err(y) && y == x,
                    }
                }
            },
            _ => false,
        },
        _ => settled(v, e, v.episode, order, r) && (r matches Ok(t) ==> t.actions@.len() == 0),
    }
}

impl CompletionDriver {
    /// Settles the fresh `event` into `state`, with the episode and pending
    /// order it leaves.
    fn settle(state: &DriverState, event: CommittedUtterance, episode: EpisodeState, pending_order: Vec<String>, actions: Vec<HostAction>) -> (r: Result<Transition, Error>)
        requires
            receipt_for(state@.receipts, event.sequence) is None,
        ensures
            settled(state@, event, episode, views(pending_order@), r),
            r matches Ok(t) ==> t.actions == actions,
    {
        proof {
            use_type_invariant(state);
        }
        let revision = match state.revision.checked_add(1) {
            Some(n) => n,
            None => return Err(Error::StateRevisionOverflow),
        };
        let sequence = event.sequence;
        let mut receipts = copy_receipts(&state.receipts);
        let ghost filed = Receipt { sequence: event.sequence, event };
        proof {
            assert(receipt_for(receipts@, sequence) is None) by {
                if exists|i: int| 0 <= i < receipts@.len() && (#[trigger] receipts@[i]).sequence == sequence {
                    let i = choose|i: int| 0 <= i < receipts@.len() && (#[trigger] receipts@[i]).sequence == sequence;
                    assert(receipt_keys(receipts@)[i] == receipts@[i].sequence);
                    assert(receipt_keys(receipts@).len() == receipts@.len());
                    assert(receipt_keys(state.receipts@).len() == state.receipts@.len());
                    assert(receipt_keys(receipts@)[i] == receipt_keys(state.receipts@)[i]);
                    assert(receipt_keys(state.receipts@)[i] == state.receipts@[i].sequence);
                    assert(state.receipts@[i].sequence == sequence);
                }
            }
        }
        let ghost copied = receipts@;
        file_receipt(&mut receipts, Receipt { sequence, event });
        proof {
            let p = slot(receipt_keys(state.receipts@), sequence.0);
            let n = state.receipts@.len();
            assert(receipt_keys(copied).len() == copied.len());
            assert(receipt_keys(state.receipts@).len() == n);
            assert(copied.len() == n);
            assert(receipt_views(copied).len() == n);
            assert(receipt_views(state.receipts@).len() == n);
            assert(receipts@ == copied.insert(p, filed));
            lemma_first_where_bound(above(receipt_keys(state.receipts@), sequence.0), 0, n as int);
            assert(0 <= p <= n) by {
                lemma_first_where_floor(above(receipt_keys(state.receipts@), sequence.0), 0, n as int);
            }
            let target = state.receipts@.insert(p, filed);
            assert forall|j: int| 0 <= j < receipts@.len() implies receipt_views(receipts@)[j] == receipt_views(target)[j] by {
                if j < p {
                    assert(receipts@[j] == copied[j]);
                    assert(target[j] == state.receipts@[j]);
                    assert(receipt_views(copied)[j] == receipt_views(state.receipts@)[j]);
                } else if j > p {
                    assert(receipts@[j] == copied[j - 1]);
                    assert(target[j] == state.receipts@[j - 1]);
                    assert(receipt_views(copied)[j - 1] == receipt_views(state.receipts@)[j - 1]);
                }
            }
            assert(receipt_views(receipts@) =~= receipt_views(target));
        }
        let mut next = DriverState { episode, receipts, freshness_floor: sequence, pending_order, revision };
        next.prune_pending_order();
        Ok(Transition { state: next, actions })
    }

    /// Folds one committed event into `state` and proposes what the host
    /// does next. An exact replay of a folded event gives the state back
    /// with no actions; the state never advances before the committed form
    /// is supplied. `reply` is what the hive and the router answered for the
    /// event; `fallback`, where given, is the broadcast fallback a round chose
    /// beforehand.
    ///
    /// # Errors
    ///
    /// Those of [`CompletionDriver::replay_or_validate`]; the hive's refusal;
    /// [`Error::MissingBroadcastRouting`], [`Error::NoBroadcastFallback`] and
    /// those of [`CompletionDriver::check_recipients`] for a broadcast;
    /// [`Error::StateRevisionOverflow`].
    pub fn apply_committed(&self, state: &DriverState, event: CommittedUtterance, reply: HiveReply, fallback: Option<&str>) -> (r: Result<Transition, Error>)
        requires
            answers(event.utterance, reply),
        ensures
            replayed(state@, event) ==> (r matches Ok(t) && alike(t.state@, state@) && t.actions@.len() == 0),
            !replayed(state@, event) && !fresh(self@, state@, event) ==> (r matches Err(e) && replay_error(self@, state@, event, e)),
            fresh(self@, state@, event) ==> fold_outcome(self@, state@, event, reply, crate::text::str_opt(fallback), r),
    {
        match self.replay_or_validate(state, &event) {
            Err(e) => return Err(e),
            Ok(Some(t)) => return Ok(t),
            Ok(None) => {},
        }
        let order = crate::speech::copy_all(&state.pending_order);
        match reply {
            HiveReply::Completion(done) => match done {
                Ok(episode) => CompletionDriver::settle(state, event, episode, order, Vec::new()),
                Err(x) => Err(x),
            },
            HiveReply::Direct(resolved) => match resolved {
                Ok(route) => {
                    let message = match &event.utterance {
                        Utterance::Dm { message, .. } => message.clone(),
                        _ => String::new(),
                    };
                    let episode = state.episode.clone();
                    let mut actions: Vec<HostAction> = Vec::new();
                    actions.push(HostAction::DeliverDm { route, message });
                    CompletionDriver::settle(state, event, episode, order, actions)
                },
                Err(x) => Err(x),
            },
            HiveReply::Routed { plan, assigned } => {
                let plan = match plan {
                    Some(p) => p,
                    None => return Err(Error::MissingBroadcastRouting),
                };
                let has_fallback = match fallback {
                    Some(_) => true,
                    None => broadcast_fallback(&state.episode, &state.pending_order, event.author_id.as_str()).is_some(),
                };
                if !has_fallback {
                    return Err(Error::NoBroadcastFallback { agent_id: event.author_id.clone() });
                }
                let recipients = route_ids(&plan);
                match self.check_recipients(event.author_id.as_str(), &recipients) {
                    Err(x) => return Err(x),
                    Ok(()) => {},
                }
                if recipients.len() == 0 {
                    let episode = state.episode.clone();
                    return CompletionDriver::settle(state, event, episode, order, Vec::new());
                }
                let episode = match assigned {
                    Ok(ep) => ep,
                    Err(x) => return Err(x),
                };
                let mut order = order;
                extend_pending_order(&mut order, &recipients);
                let mut actions: Vec<HostAction> = Vec::new();
                actions.push(HostAction::RunAgents { agent_ids: recipients, plan });
                CompletionDriver::settle(state, event, episode, order, actions)
            },
            HiveReply::Nothing => {
                let episode = state.episode.clone();
                CompletionDriver::settle(state, event, episode, order, Vec::new())
            },
        }
    }
}

/// Whether two episodes hold the same values.
pub fn same_episode_values(a: &EpisodeState, b: &EpisodeState) -> (r: bool)
    ensures
        r == alike_episode(*a, *b),
{
    let ghost va = a.participants@.map_values(|p: Participant| part_view(p));
    let ghost vb = b.participants@.map_values(|p: Participant| part_view(p));
    if !crate::text::same(a.desk_id.as_str(), b.desk_id.as_str()) || a.watermark.0 != b.watermark.0 || a.complete != b.complete {
        return false;
    }
    let roots = match (a.thread_root, b.thread_root) {
        (Some(x), Some(y)) => x.0 == y.0,
        (None, None) => true,
        _ => false,
    };
    if !roots {
        return false;
    }
    if a.participants.len() != b.participants.len() {
        assert(va.len() != vb.len());
        return false;
    }
    let mut i: usize = 0;
    while i < a.participants.len()
        invariant
            va == a.participants@.map_values(|p: Participant| part_view(p)),
            vb == b.participants@.map_values(|p: Participant| part_view(p)),
            a.participants@.len() == b.participants@.len(),
            i <= a.participants@.len(),
            forall|j: int| 0 <= j < i ==> #[trigger] va[j] == vb[j],
        decreases a.participants@.len() - i,
    {
        let p = &a.participants[i];
        let q = &b.participants[i];
        let done = match (p.completed_at, q.completed_at) {
            (Some(x), Some(y)) => x.0 == y.0,
            (None, None) => true,
            _ => false,
        };
        if !crate::text::same(p.agent_id.as_str(), q.agent_id.as_str()) || p.assigned_at.0 != q.assigned_at.0 || !done || p.pending != q.pending {
            assert(va[i as int] != vb[i as int]);
            return false;
        }
        assert(va[i as int] == vb[i as int]);
        i = i + 1;
    }
    assert(va =~= vb);
    true
}

/// Whether two states hold the same values.
pub fn same_state(a: &DriverState, b: &DriverState) -> (r: bool)
    ensures
        r == alike(a@, b@),
{
    if !same_episode_values(&a.episode, &b.episode) || a.freshness_floor.0 != b.freshness_floor.0 || a.revision != b.revision {
        return false;
    }
    if !crate::speech::same_list(&a.pending_order, &b.pending_order) {
        return false;
    }
    let ghost va = receipt_views(a.receipts@);
    let ghost vb = receipt_views(b.receipts@);
    if a.receipts.len() != b.receipts.len() {
        assert(va.len() != vb.len());
        return false;
    }
    let mut i: usize = 0;
    while i < a.receipts.len()
        invariant
            va == receipt_views(a.receipts@),
            vb == receipt_views(b.receipts@),
            a.receipts@.len() == b.receipts@.len(),
            i <= a.receipts@.len(),
            forall|j: int| 0 <= j < i ==> #[trigger] va[j] == vb[j],
        decreases a.receipts@.len() - i,
    {
        if a.receipts[i].sequence.0 != b.receipts[i].sequence.0 || !a.receipts[i].event.same_as(&b.receipts[i].event) {
            assert(va[i as int] != vb[i as int]);
            return false;
        }
        assert(va[i as int] == vb[i as int]);
        i = i + 1;
    }
    assert(va =~= vb);
    true
}

/// What a pending round holds.
pub struct RoundView {
    /// Its seats, in the order they run.
    pub agents: Seq<Seq<char>>,
    /// The state it was proposed from.
    pub state: DriverView,
    /// That state's revision.
    pub state_revision: u64,
}

/// One bounded round of pending seats the host may run together.
pub struct PendingRound {
    agents: Vec<String>,
    state: DriverState,
    state_revision: u64,
}

impl View for PendingRound {
    type V = RoundView;

    closed spec fn view(&self) -> RoundView {
        RoundView { agents: views(self.agents@), state: self.state@, state_revision: self.state_revision }
    }
}

impl PendingRound {
    /// Its seats, in the order they run.
    pub fn agents(&self) -> (r: &Vec<String>)
        ensures
            views(r@) == self@.agents,
    {
        &self.agents
    }

    /// Whether the episode has no pending work now.
    pub fn is_empty(&self) -> (r: bool)
        ensures
            r == (self@.agents.len() == 0),
    {
        self.agents.len() == 0
    }
}

/// The seats the next round runs: the first pending ones, as many as a
/// round holds.
pub open spec fn round_ids(h: HiveView, v: DriverView) -> Seq<Seq<char>> {
    let ids = pending_in_order(v);
    if ids.len() <= h.round_width {
        ids
    } else {
        ids.take(h.round_width as int)
    }
}

/// Whether the events `es` are an exact replay: there are some, no two share
/// a sequence, and each is filed exactly.
pub open spec fn exact_replay(v: DriverView, es: Seq<CommittedUtterance>) -> bool {
    &&& es.len() > 0
    &&& forall|i: int, j: int| 0 <= i < j < es.len() ==> (#[trigger] es[i]).sequence != (#[trigger] es[j]).sequence
    &&& forall|i: int| 0 <= i < es.len() ==> replayed(v, #[trigger] es[i])
}

/// Whether `events` replay folded events exactly.
#[verifier::loop_isolation(false)]
pub fn is_exact_round_replay(state: &DriverState, events: &Vec<CommittedUtterance>) -> (r: bool)
    ensures
        r == exact_replay(state@, events@),
{
    proof {
        use_type_invariant(state);
    }
    if events.len() == 0 {
        return false;
    }
    let mut i: usize = 0;
    while i < events.len()
        invariant
            ascending(state@.receipts),
            i <= events@.len(),
            forall|a: int, b: int| 0 <= a < b < i ==> (#[trigger] events@[a]).sequence != (#[trigger] events@[b]).sequence,
            forall|a: int| 0 <= a < i ==> replayed(state@, #[trigger] events@[a]),
        decreases events@.len() - i,
    {
        let e = &events[i];
        let mut j: usize = 0;
        while j < i
            invariant
                i < events@.len(),
                j <= i,
                forall|a: int| 0 <= a < j ==> (#[trigger] events@[a]).sequence != events@[i as int].sequence,
            decreases i - j,
        {
            if events[j].sequence.0 == e.sequence.0 {
                return false;
            }
            j = j + 1;
        }
        match find_receipt(&state.receipts, e.sequence) {
            Some(k) => {
                if !state.receipts[k].event.same_as(e) {
                    return false;
                }
            },
            None => {
                return false;
            },
        }
        i = i + 1;
    }
    true
}

impl CompletionDriver {
    /// The next bounded round, without changing the state: the first
    /// pending seats, as many as a round holds.
    ///
    /// # Errors
    ///
    /// [`Error::UnknownBoundAgent`] for the first of them the hive does not
    /// bind.
    pub fn pending_round(&self, state: &DriverState) -> (r: Result<PendingRound, Error>)
        ensures
            r is Ok <==> (forall|i: int| 0 <= i < round_ids(self@, state@).len() ==> self@.bound.contains(#[trigger] round_ids(self@, state@)[i])),
            r matches Ok(round) ==> round@.agents == round_ids(self@, state@) && alike(round@.state, state@)
                && round@.state_revision == state@.revision,
            r matches Ok(round) ==> round@.agents.len() <= self@.round_width && round@.agents.no_duplicates(),
            r matches Ok(round) ==> round@.agents.len() == if pending_in_order(state@).len() <= self@.round_width {
                pending_in_order(state@).len() as int
            } else {
                self@.round_width as int
            },
            r matches Ok(round) ==> forall|i: int| 0 <= i < round@.agents.len()
                ==> pending_set(state@.episode.participants@).contains(#[trigger] round@.agents[i]),
            r matches Ok(round) ==> forall|i: int, j: int| 0 <= i < round@.agents.len() && 0 <= j < round@.agents.len()
                && views(state@.pending_order).contains(#[trigger] round@.agents[i])
                && !views(state@.pending_order).contains(#[trigger] round@.agents[j]) ==> i < j,
            r matches Err(e) ==> ({
                let ids = round_ids(self@, state@);
                e matches Error::UnknownBoundAgent { agent_id } && agent_id@ == ids[first_where(bound_check(ids, self@.bound), 0, ids.len() as int)]
            }),
    {
        let all = pending_ids_in_order(state);
        let n = if all.len() <= self.round_width { all.len() } else { self.round_width };
        let ghost ids = round_ids(self@, state@);
        let ghost bc = bound_check(ids, self@.bound);
        let mut agents: Vec<String> = Vec::new();
        let mut i: usize = 0;
        while i < n
            invariant
                views(all@) == pending_in_order(state@),
                ids == round_ids(self@, state@),
                bc == bound_check(ids, self@.bound),
                n == ids.len(),
                n <= all@.len(),
                i <= n,
                agents@.len() == i,
                views(agents@) == ids.take(i as int),
                forall|j: int| 0 <= j < i ==> !#[trigger] bc(j),
            decreases n - i,
        {
            assert(ids[i as int] == all@[i as int]@);
            if !self.binds(all[i].as_str()) {
                proof {
                    lemma_first_where(bc, 0, i as int, n as int);
                }
                return Err(Error::UnknownBoundAgent { agent_id: all[i].clone() });
            }
            let ghost before = agents@;
            agents.push(all[i].clone());
            assert(agents@[i as int]@ == ids[i as int]);
            assert forall|j: int| 0 <= j < i + 1 implies views(agents@)[j] == ids.take(i + 1)[j] by {
                if j < i {
                    assert(agents@[j] == before[j]);
                    assert(views(before)[j] == ids.take(i as int)[j]);
                }
            }
            assert(views(agents@) =~= ids.take(i + 1));
            i = i + 1;
        }
        assert(ids.take(i as int) =~= ids);
        assert forall|j: int| 0 <= j < ids.len() implies self@.bound.contains(#[trigger] ids[j]) by {
            assert(!bc(j));
        }
        proof {
            law_pending_order_runs_first(state@);
            law_round_is_pending(self@, state@);
            law_round_is_the_front(self@, state@);
            let all_ids = pending_in_order(state@);
            assert forall|k: int| 0 <= k < ids.len() implies #[trigger] ids[k] == all_ids[k] by {}
            assert forall|i: int, j: int| 0 <= i < ids.len() && 0 <= j < ids.len()
                && views(state@.pending_order).contains(#[trigger] ids[i])
                && !views(state@.pending_order).contains(#[trigger] ids[j]) implies i < j by {
                assert(ids[i] == all_ids[i] && ids[j] == all_ids[j]);
            }
        }
        Ok(PendingRound { agents, state: state.copy(), state_revision: state.revision })
    }

    /// Checks that `round` was proposed from `state`.
    ///
    /// # Errors
    ///
    /// [`Error::StaleRound`] for a round of an older revision,
    /// [`Error::MismatchedRound`] for one proposed from another state.
    pub fn validate_round_state(state: &DriverState, round: &PendingRound) -> (r: Result<(), Error>)
        ensures
            r is Ok <==> (round@.state_revision == state@.revision && alike(round@.state, state@)),
            r matches Err(e) ==> if round@.state_revision < state@.revision {
                e == Error::StaleRound { round_revision: round@.state_revision, state_revision: state@.revision }
            } else {
                e == Error::MismatchedRound { round_revision: round@.state_revision, state_revision: state@.revision }
            },
    {
        if round.state_revision < state.revision {
            return Err(Error::StaleRound { round_revision: round.state_revision, state_revision: state.revision });
        }
        if round.state_revision != state.revision || !same_state(&round.state, state) {
            return Err(Error::MismatchedRound { round_revision: round.state_revision, state_revision: state.revision });
        }
        Ok(())
    }
}

/// The authors of `es`, in order.
pub open spec fn authors_of(es: Seq<CommittedUtterance>) -> Seq<Seq<char>> {
    es.map_values(|e: CommittedUtterance| e.author_id@)
}

/// The distinct ids of `s`, in first-seen order.
pub open spec fn distinct(s: Seq<Seq<char>>) -> Seq<Seq<char>> {
    keep_first(s, Set::full())
}

/// Whether the authors of a round's events are its seats, once each.
pub open spec fn authors_match(agents: Seq<Seq<char>>, authors: Seq<Seq<char>>) -> bool {
    &&& authors.no_duplicates()
    &&& authors.to_set() == agents.to_set()
}

/// The check that an author is not a seat of the round.
pub open spec fn stranger_check(authors: Seq<Seq<char>>, agents: Seq<Seq<char>>) -> spec_fn(int) -> bool {
    |i: int| !agents.contains(authors[i])
}

/// The error events whose authors do not match the round are refused with.
pub open spec fn round_error(agents: Seq<Seq<char>>, es: Seq<CommittedUtterance>, e: Error) -> bool {
    let authors = authors_of(es);
    let k = first_where(stranger_check(authors, agents), 0, authors.len() as int);
    if es.len() != agents.len() {
        e == Error::PartialRound { expected: agents.len() as usize, received: es.len() as usize }
    } else if k < authors.len() {
        e matches Error::UnexpectedRoundAuthor { agent_id } && agent_id@ == authors[k]
    } else {
        e == Error::PartialRound { expected: distinct(agents).len() as usize, received: distinct(authors).len() as usize }
    }
}

/// Events in order of their sequences.
pub open spec fn in_sequence(es: Seq<CommittedUtterance>) -> bool {
    forall|i: int, j: int| 0 <= i < j < es.len() ==> (#[trigger] es[i]).sequence.0 <= (#[trigger] es[j]).sequence.0
}

/// Whether an event carries sequence `k`.
pub open spec fn sequence_is(k: u64) -> spec_fn(CommittedUtterance) -> bool {
    |e: CommittedUtterance| e.sequence.0 == k
}

/// The events of `es` that carry sequence `k`, in the order they come in.
pub open spec fn at_sequence(es: Seq<CommittedUtterance>, k: u64) -> Seq<CommittedUtterance> {
    es.filter(sequence_is(k))
}

/// Events none of which carries sequence `k` hold none under it.
proof fn lemma_none_at_sequence(es: Seq<CommittedUtterance>, k: u64)
    requires
        forall|i: int| 0 <= i < es.len() ==> (#[trigger] es[i]).sequence.0 != k,
    ensures
        at_sequence(es, k) == Seq::<CommittedUtterance>::empty(),
    decreases es.len(),
{
    reveal(Seq::filter);
    if es.len() > 0 {
        lemma_none_at_sequence(es.drop_last(), k);
    }
}

/// A single event held under sequence `k`: itself, or nothing.
proof fn lemma_single_at_sequence(x: CommittedUtterance, k: u64)
    ensures
        at_sequence(seq![x], k) == (if x.sequence.0 == k { seq![x] } else { Seq::<CommittedUtterance>::empty() }),
{
    Seq::<CommittedUtterance>::empty().lemma_filter_push(x, sequence_is(k));
    assert(seq![x] =~= Seq::<CommittedUtterance>::empty().push(x));
    assert(Seq::<CommittedUtterance>::empty().filter(sequence_is(k)) == Seq::<CommittedUtterance>::empty()) by {
        reveal(Seq::filter);
    }
}

/// `events`, put in order of their sequences; events with the same sequence
/// keep the order they came in.
pub fn sort_by_sequence(events: Vec<CommittedUtterance>) -> (r: Vec<CommittedUtterance>)
    ensures
        in_sequence(r@),
        r@.to_multiset() == events@.to_multiset(),
        forall|k: u64| #[trigger] at_sequence(r@, k) == at_sequence(events@, k),
{
    broadcast use vstd::multiset::group_multiset_axioms, vstd::seq_lib::group_to_multiset_ensures;
    let ghost all = events@;
    let mut rest = events;
    let mut out: Vec<CommittedUtterance> = Vec::new();
    assert(out@.to_multiset().add(rest@.to_multiset()) =~= all.to_multiset()) by {
        assert(out@ =~= Seq::<CommittedUtterance>::empty());
        assert(out@.to_multiset().len() == 0);
    }
    assert(all.skip(all.len() as int) =~= out@);
    while rest.len() > 0
        invariant
            in_sequence(out@),
            out@.to_multiset().add(rest@.to_multiset()) =~= all.to_multiset(),
            rest@ == all.take(rest@.len() as int),
            rest@.len() <= all.len(),
            forall|k: u64| #[trigger] at_sequence(out@, k) == at_sequence(all.skip(rest@.len() as int), k),
        decreases rest@.len(),
    {
        let ghost before_rest = rest@;
        let ghost before_out = out@;
        let x = rest.pop().unwrap();
        proof {
            assert(before_rest =~= rest@.push(x));
            vstd::seq_lib::to_multiset_build(rest@, x);
            assert(rest@ =~= all.take(rest@.len() as int));
            assert(x == all[rest@.len() as int]);
        }
        let mut p: usize = 0;
        while p < out.len() && out[p].sequence.0 < x.sequence.0
            invariant
                p <= out@.len(),
                forall|j: int| 0 <= j < p ==> (#[trigger] out@[j]).sequence.0 < x.sequence.0,
            decreases out@.len() - p,
        {
            p = p + 1;
        }
        proof {
            if p < out@.len() {
                assert(out@[p as int].sequence.0 >= x.sequence.0);
            }
        }
        out.insert(p, x);
        proof {
            vstd::seq_lib::to_multiset_insert(before_out, p as int, x);
            assert forall|i: int, j: int| 0 <= i < j < out@.len() implies (#[trigger] out@[i]).sequence.0 <= (#[trigger] out@[j]).sequence.0 by {
                if j < p {
                    assert(before_out[i].sequence.0 <= before_out[j].sequence.0);
                } else if j == p {
                    assert(before_out[i].sequence.0 < x.sequence.0);
                } else if i < p {
                    assert(before_out[i].sequence.0 < x.sequence.0);
                    assert(before_out[p as int].sequence.0 >= x.sequence.0);
                    if j - 1 > p {
                        assert(before_out[p as int].sequence.0 <= before_out[j - 1].sequence.0);
                    }
                } else if i == p {
                    assert(before_out[p as int].sequence.0 >= x.sequence.0);
                    if j - 1 > p {
                        assert(before_out[p as int].sequence.0 <= before_out[j - 1].sequence.0);
                    }
                } else {
                    assert(before_out[i - 1].sequence.0 <= before_out[j - 1].sequence.0);
                }
            }
            assert(out@.to_multiset().add(rest@.to_multiset()) =~= before_out.to_multiset().add(before_rest.to_multiset()));
            let m = rest@.len() as int;
            let front = before_out.take(p as int);
            let back = before_out.skip(p as int);
            assert(before_out =~= front + back);
            assert(out@ =~= front + seq![x] + back);
            assert(all.skip(m) =~= seq![x] + all.skip(m + 1));
            assert forall|k: u64| #[trigger] at_sequence(out@, k) == at_sequence(all.skip(m), k) by {
                Seq::filter_distributes_over_add(front, back, sequence_is(k));
                Seq::filter_distributes_over_add(front + seq![x], back, sequence_is(k));
                Seq::filter_distributes_over_add(front, seq![x], sequence_is(k));
                Seq::filter_distributes_over_add(seq![x], all.skip(m + 1), sequence_is(k));
                lemma_single_at_sequence(x, k);
                assert(at_sequence(before_out, k) == at_sequence(all.skip(m + 1), k));
                assert(at_sequence(out@, k) == at_sequence(front, k) + at_sequence(seq![x], k) + at_sequence(back, k));
                assert(at_sequence(all.skip(m), k) == at_sequence(seq![x], k) + (at_sequence(front, k) + at_sequence(back, k)));
                if x.sequence.0 == k {
                    assert forall|i: int| 0 <= i < front.len() implies (#[trigger] front[i]).sequence.0 != k by {
                        assert(before_out[i].sequence.0 < x.sequence.0);
                    }
                    lemma_none_at_sequence(front, k);
                    assert(at_sequence(front, k) + seq![x] =~= seq![x]);
                } else {
                    assert(at_sequence(front, k) + Seq::<CommittedUtterance>::empty() =~= at_sequence(front, k));
                    assert(Seq::<CommittedUtterance>::empty() + at_sequence(all.skip(m + 1), k) =~= at_sequence(all.skip(m + 1), k));
                }
            }
        }
    }
    proof {
        assert(rest@ =~= Seq::<CommittedUtterance>::empty());
        assert(rest@.to_multiset().len() == 0);
        assert(out@.to_multiset() =~= all.to_multiset());
        assert(all.skip(0) =~= all);
    }
    out
}

/// How a round of committed events opens.
pub enum RoundStart {
    /// The events replay folded ones exactly: the state, unchanged.
    Replay(Transition),
    /// The events to fold, one by one, in order of their sequences (those
    /// with the same sequence in the order they came in).
    Fold(Vec<CommittedUtterance>),
}

impl CompletionDriver {
    /// Opens a round of committed events, one for each seat of `round`. An
    /// exact replay comes back unchanged, before the round's state, count or
    /// authors are checked; otherwise the round must have been proposed from
    /// `state` and the events' authors must be its seats, once each, and the
    /// events come back in order of their sequences, to be checked with
    /// [`CompletionDriver::preflight_event`] and folded with
    /// [`CompletionDriver::apply_committed`].
    ///
    /// # Errors
    ///
    /// Those of [`CompletionDriver::validate_round_state`];
    /// [`Error::PartialRound`] for a wrong count;
    /// [`Error::UnexpectedRoundAuthor`] for the first author outside the round.
    #[verifier::loop_isolation(false)]
    pub fn open_round(&self, state: &DriverState, round: &PendingRound, events: Vec<CommittedUtterance>) -> (r: Result<RoundStart, Error>)
        ensures
            exact_replay(state@, events@) ==> (r matches Ok(RoundStart::Replay(t)) && alike(t.state@, state@) && t.actions@.len() == 0),
            !exact_replay(state@, events@) ==> {
                let agents = round@.agents;
                let authors = authors_of(events@);
                if !(round@.state_revision == state@.revision && alike(round@.state, state@)) {
                    r matches Err(e) && (if round@.state_revision < state@.revision {
                        e == Error::StaleRound { round_revision: round@.state_revision, state_revision: state@.revision }
                    } else {
                        e == Error::MismatchedRound { round_revision: round@.state_revision, state_revision: state@.revision }
                    })
                } else if events@.len() != agents.len() || !authors_match(agents, authors) {
                    r matches Err(e) && round_error(agents, events@, e)
                } else {
                    r matches Ok(RoundStart::Fold(sorted)) && in_sequence(sorted@) && sorted@.to_multiset() == events@.to_multiset()
                        && (forall|k: u64| #[trigger] at_sequence(sorted@, k) == at_sequence(events@, k))
                }
            },
    {
        if is_exact_round_replay(state, &events) {
            return Ok(RoundStart::Replay(Transition { state: state.copy(), actions: Vec::new() }));
        }
        match CompletionDriver::validate_round_state(state, round) {
            Err(e) => return Err(e),
            Ok(()) => {},
        }
        let agents = &round.agents;
        let ghost ags = views(agents@);
        let ghost authors = authors_of(events@);
        if events.len() != agents.len() {
            return Err(Error::PartialRound { expected: agents.len(), received: events.len() });
        }
        let mut names: Vec<String> = Vec::new();
        let mut i: usize = 0;
        while i < events.len()
            invariant
                i <= events@.len(),
                names@.len() == i,
                forall|j: int| 0 <= j < i ==> (#[trigger] names@[j])@ == authors[j],
            decreases events@.len() - i,
        {
            names.push(events[i].author_id.clone());
            i = i + 1;
        }
        assert(views(names@) =~= authors);
        let ghost sc = stranger_check(authors, ags);
        let mut k: usize = 0;
        while k < names.len()
            invariant
                k <= names@.len(),
                forall|j: int| 0 <= j < k ==> !#[trigger] sc(j),
            decreases names@.len() - k,
        {
            proof {
                lemma_holds_views(agents@, names@[k as int]@);
            }
            if !contains(agents, names[k].as_str()) {
                proof {
                    lemma_first_where(sc, 0, k as int, authors.len() as int);
                    assert(authors[k as int] == names@[k as int]@);
                    assert(authors.to_set().contains(authors[k as int]));
                    assert(!ags.to_set().contains(authors[k as int]));
                }
                return Err(Error::UnexpectedRoundAuthor { agent_id: names[k].clone() });
            }
            k = k + 1;
        }
        proof {
            lemma_first_where(sc, 0, k as int, authors.len() as int);
        }
        let unique_authors = distinct_ids(&names);
        let unique_agents = distinct_ids(agents);
        let every_agent = all_listed(agents, &names);
        if unique_authors.len() != names.len() || !every_agent {
            proof {
                lemma_keep_first(authors, Set::full());
                if authors_match(ags, authors) {
                    lemma_distinct_whole(authors);
                    assert forall|j: int| 0 <= j < ags.len() implies authors.contains(#[trigger] ags[j]) by {
                        assert(ags.to_set().contains(ags[j]));
                    }
                }
            }
            return Err(Error::PartialRound { expected: unique_agents.len(), received: unique_authors.len() });
        }
        proof {
            lemma_keep_first(authors, Set::full());
            lemma_distinct_len(authors);
            assert(authors.to_set() =~= ags.to_set()) by {
                assert forall|x: Seq<char>| authors.to_set().contains(x) implies ags.to_set().contains(x) by {
                    let j = choose|j: int| 0 <= j < authors.len() && authors[j] == x;
                    assert(!sc(j));
                }
                assert forall|x: Seq<char>| ags.to_set().contains(x) implies authors.to_set().contains(x) by {
                    let j = choose|j: int| 0 <= j < ags.len() && ags[j] == x;
                }
            }
        }
        Ok(RoundStart::Fold(sort_by_sequence(events)))
    }
}

/// A sequence without duplicates is its own distinct ids.
proof fn lemma_distinct_whole(s: Seq<Seq<char>>)
    requires
        s.no_duplicates(),
    ensures
        distinct(s) == s,
    decreases s.len(),
{
    if s.len() > 0 {
        assert(s.drop_last().no_duplicates());
        lemma_distinct_whole(s.drop_last());
        if s.drop_last().contains(s.last()) {
            let k = choose|k: int| 0 <= k < s.drop_last().len() && s.drop_last()[k] == s.last();
            assert(s[k] == s[s.len() - 1]);
        }
        assert(s.drop_last().push(s.last()) =~= s);
    }
}

/// Distinct ids as long as the sequence means no duplicates.
proof fn lemma_distinct_len(s: Seq<Seq<char>>)
    requires
        distinct(s).len() == s.len(),
    ensures
        s.no_duplicates(),
    decreases s.len(),
{
    if s.len() > 0 {
        lemma_keep_first(s.drop_last(), Set::full());
        let prev = distinct(s.drop_last());
        assert(prev.len() <= s.drop_last().len()) by {
            lemma_keep_first_len(s.drop_last(), Set::full());
        }
        assert(prev.len() == s.drop_last().len());
        lemma_distinct_len(s.drop_last());
        assert(!prev.contains(s.last()));
        assert forall|i: int, j: int| 0 <= i < s.len() && 0 <= j < s.len() && i != j implies s[i] != s[j] by {
            if i < s.len() - 1 && j < s.len() - 1 {
                assert(s.drop_last()[i] != s.drop_last()[j]);
            } else if i == s.len() - 1 {
                assert(s.drop_last().contains(s[j]) ==> prev.contains(s[j]));
                assert(s.drop_last()[j] == s[j]);
            } else {
                assert(s.drop_last().contains(s[i]) ==> prev.contains(s[i]));
                assert(s.drop_last()[i] == s[i]);
            }
        }
    }
}

/// `keep_first` holds no more than it reads.
proof fn lemma_keep_first_len(s: Seq<Seq<char>>, keep: Set<Seq<char>>)
    ensures
        keep_first(s, keep).len() <= s.len(),
    decreases s.len(),
{
    if s.len() > 0 {
        lemma_keep_first_len(s.drop_last(), keep);
    }
}

/// The distinct ids of `items`, in first-seen order.
fn distinct_ids(items: &Vec<String>) -> (r: Vec<String>)
    ensures
        views(r@) == distinct(views(items@)),
{
    let ghost s = views(items@);
    let mut out: Vec<String> = Vec::new();
    assert(views(out@) =~= keep_first(s.take(0), Set::full()));
    let mut i: usize = 0;
    while i < items.len()
        invariant
            s == views(items@),
            i <= items@.len(),
            views(out@) == keep_first(s.take(i as int), Set::full()),
        decreases items@.len() - i,
    {
        assert(s.take(i + 1).drop_last() =~= s.take(i as int));
        assert(Set::<Seq<char>>::full().contains(items@[i as int]@));
        push_new(&mut out, &items[i], true);
        i = i + 1;
    }
    assert(s.take(i as int) =~= s);
    out
}

/// Whether each of `wanted` is among `items`.
fn all_listed(wanted: &Vec<String>, items: &Vec<String>) -> (r: bool)
    ensures
        r == (forall|j: int| 0 <= j < wanted@.len() ==> views(items@).contains(#[trigger] views(wanted@)[j])),
{
    let mut i: usize = 0;
    while i < wanted.len()
        invariant
            i <= wanted@.len(),
            forall|j: int| 0 <= j < i ==> views(items@).contains(#[trigger] views(wanted@)[j]),
        decreases wanted@.len() - i,
    {
        proof {
            lemma_holds_views(items@, wanted@[i as int]@);
        }
        if !contains(items, wanted[i].as_str()) {
            assert(!views(items@).contains(views(wanted@)[i as int]));
            return false;
        }
        i = i + 1;
    }
    true
}

/// What checking a round's events ahead of folding them has gathered.
pub struct PreflightView {
    /// The newest sequence checked so far, from the state's floor up.
    pub newest: Sequence,
    /// The new sequences checked so far.
    pub seen: Seq<Sequence>,
    /// The episode as the completions checked so far leave it.
    pub episode: EpisodeState,
    /// The fallback chosen for each broadcast checked so far.
    pub fallbacks: Seq<(Sequence, Seq<char>)>,
}

/// A round's events, checked ahead of folding them: stale and duplicate
/// sequences, completions the hive refuses, direct messages it cannot
/// route, broadcasts without routing inputs or a fallback. Each broadcast's
/// fallback is chosen here, from the episode as the round's earlier
/// completions leave it.
pub struct Preflight {
    newest: Sequence,
    seen: Vec<Sequence>,
    episode: EpisodeState,
    fallbacks: Vec<(Sequence, String)>,
}

impl View for Preflight {
    type V = PreflightView;

    closed spec fn view(&self) -> PreflightView {
        PreflightView {
            newest: self.newest,
            seen: self.seen@,
            episode: self.episode,
            fallbacks: self.fallbacks@.map_values(|f: (Sequence, String)| (f.0, f.1@)),
        }
    }
}

/// The check that a fallback is filed under `k`.
pub open spec fn key_check(fs: Seq<(Sequence, Seq<char>)>, k: Sequence) -> spec_fn(int) -> bool {
    |i: int| fs[i].0 == k
}

/// The first fallback filed under `k`, if any.
pub open spec fn fallback_at(fs: Seq<(Sequence, Seq<char>)>, k: Sequence) -> Option<Seq<char>> {
    let i = first_where(key_check(fs, k), 0, fs.len() as int);
    if i < fs.len() {
        Some(fs[i].1)
    } else {
        None
    }
}

/// Whether `reply` is of the kind checking utterance `u` ahead asks for.
pub open spec fn checks(u: Utterance, reply: HiveReply) -> bool {
    match u {
        Utterance::CompleteEpisode { .. } => reply is Completion,
        Utterance::Dm { .. } => reply is Direct,
        _ => reply is Nothing,
    }
}

/// What checking event `e` ahead leaves of `pre`: the checks so far with
/// `e`'s, or `None` where `e` is refused.
pub open spec fn preflight_step(v: DriverView, pre: PreflightView, e: CommittedUtterance, reply: HiveReply, routing: bool) -> Option<PreflightView> {
    match receipt_for(v.receipts, e.sequence) {
        Some(f) => if f == e@ { Some(pre) } else { None },
        None => if pre.seen.contains(e.sequence) || e.sequence.0 <= pre.newest.0 {
            None
        } else {
            let seen = pre.seen.push(e.sequence);
            match e.utterance {
                Utterance::CompleteEpisode { .. } => match reply {
                    HiveReply::Completion(Ok(ep)) => Some(PreflightView { newest: e.sequence, seen, episode: ep, fallbacks: pre.fallbacks }),
                    _ => None,
                },
                Utterance::Dm { .. } => match reply {
                    HiveReply::Direct(Ok(_)) => Some(PreflightView { newest: e.sequence, seen, episode: pre.episode, fallbacks: pre.fallbacks }),
                    _ => None,
                },
                Utterance::Broadcast { .. } => if !routing {
                    None
                } else {
                    match fallback_of(fallback_order(pre.episode, v.pending_order), e.author_id@) {
                        Some(f) => Some(PreflightView { newest: e.sequence, seen, episode: pre.episode, fallbacks: pre.fallbacks.push((e.sequence, f)) }),
                        None => None,
                    }
                },
                _ => Some(PreflightView { newest: e.sequence, seen, episode: pre.episode, fallbacks: pre.fallbacks }),
            }
        },
    }
}

/// Checking `events` ahead one after another from `pre`, each with the
/// hive's reply in `replies`: what the checks come to, or `None` once one
/// is refused.
pub open spec fn preflight_all(v: DriverView, pre: PreflightView, events: Seq<CommittedUtterance>, replies: Seq<HiveReply>, routing: bool) -> Option<PreflightView>
    decreases events.len(),
{
    if events.len() == 0 {
        Some(pre)
    } else {
        match preflight_all(v, pre, events.drop_last(), replies, routing) {
            Some(p) => preflight_step(v, p, events.last(), replies[events.len() - 1], routing),
            None => None,
        }
    }
}

impl Preflight {
    /// Nothing checked yet: the newest sequence is the state's floor.
    pub fn begin(state: &DriverState) -> (r: Preflight)
        ensures
            r@.newest == state@.freshness_floor,
            r@.seen.len() == 0,
            same_episode(r@.episode, state@.episode),
            r@.fallbacks.len() == 0,
    {
        let r = Preflight { newest: state.freshness_floor, seen: Vec::new(), episode: state.episode.clone(), fallbacks: Vec::new() };
        assert(r@.fallbacks =~= Seq::<(Sequence, Seq<char>)>::empty());
        r
    }

    /// The fallback chosen for the broadcast at `sequence`, if one was.
    pub fn fallback_for(&self, sequence: Sequence) -> (r: Option<&str>)
        ensures
            crate::text::str_opt(r) == fallback_at(self@.fallbacks, sequence),
    {
        let ghost fs = self@.fallbacks;
        let ghost kc = key_check(fs, sequence);
        let mut i: usize = 0;
        while i < self.fallbacks.len()
            invariant
                fs == self@.fallbacks,
                kc == key_check(fs, sequence),
                i <= self.fallbacks@.len(),
                forall|j: int| 0 <= j < i ==> !#[trigger] kc(j),
            decreases self.fallbacks@.len() - i,
        {
            assert(fs[i as int] == (self.fallbacks@[i as int].0, self.fallbacks@[i as int].1@));
            if self.fallbacks[i].0.0 == sequence.0 {
                proof {
                    lemma_first_where(kc, 0, i as int, fs.len() as int);
                }
                return Some(self.fallbacks[i].1.as_str());
            }
            i = i + 1;
        }
        proof {
            lemma_first_where(kc, 0, i as int, fs.len() as int);
        }
        None
    }
}

impl CompletionDriver {
    /// Checks the next of a round's events, in order of their sequences,
    /// ahead of folding any: an event filed exactly passes as it is; another
    /// event under a filed sequence, a repeated or stale sequence are
    /// refused; a completion takes the hive's `reply` for the episode so
    /// far; a direct message, the hive's route; a broadcast needs routing
    /// inputs and a fallback, which is kept.
    ///
    /// # Errors
    ///
    /// [`Error::DuplicateCommittedSequence`], [`Error::StaleCommittedEvent`],
    /// the hive's refusal, [`Error::MissingBroadcastRouting`],
    /// [`Error::NoBroadcastFallback`].
    #[verifier::loop_isolation(false)]
    pub fn preflight_event(&self, state: &DriverState, pre: Preflight, event: &CommittedUtterance, reply: HiveReply, routing: bool) -> (r: Result<Preflight, Error>)
        requires
            checks(event.utterance, reply),
        ensures
            match r {
                Ok(q) => preflight_step(state@, pre@, *event, reply, routing) == Some(q@),
                Err(_) => preflight_step(state@, pre@, *event, reply, routing) is None,
            },
            match receipt_for(state@.receipts, event.sequence) {
                Some(f) => if f == event@ {
                    r matches Ok(q) && q@ == pre@
                } else {
                    r matches Err(x) && x == Error::DuplicateCommittedSequence { sequence: event.sequence }
                },
                None => if pre@.seen.contains(event.sequence) {
                    r matches Err(x) && x == Error::DuplicateCommittedSequence { sequence: event.sequence }
                } else if event.sequence.0 <= pre@.newest.0 {
                    r matches Err(x) && x == Error::StaleCommittedEvent { sequence: event.sequence }
                } else {
                    let seen = pre@.seen.push(event.sequence);
                    match event.utterance {
                        Utterance::CompleteEpisode { .. } => match reply {
                            HiveReply::Completion(Ok(ep)) => r matches Ok(q) && q@ == (PreflightView { newest: event.sequence, seen, episode: ep, fallbacks: pre@.fallbacks }),
                            HiveReply::Completion(Err(x)) => r matches Err(y) && y == x,
                            _ => false,
                        },
                        Utterance::Dm { .. } => match reply {
                            HiveReply::Direct(Ok(_)) => r matches Ok(q) && q@ == (PreflightView { newest: event.sequence, seen, episode: pre@.episode, fallbacks: pre@.fallbacks }),
                            HiveReply::Direct(Err(x)) => r matches Err(y) && y == x,
                            _ => false,
                        },
                        Utterance::Broadcast { .. } => if !routing {
                            r matches Err(x) && x == Error::MissingBroadcastRouting
                        } else {
                            match fallback_of(fallback_order(pre@.episode, state@.pending_order), event.author_id@) {
                                Some(f) => r matches Ok(q) && q@ == (PreflightView {
                                    newest: event.sequence,
                                    seen,
                                    episode: pre@.episode,
                                    fallbacks: pre@.fallbacks.push((event.sequence, f)),
                                }),
                                None => r matches Err(x) && (x matches Error::NoBroadcastFallback { agent_id } && agent_id@ == event.author_id@),
                            }
                        },
                        _ => r matches Ok(q) && q@ == (PreflightView { newest: event.sequence, seen, episode: pre@.episode, fallbacks: pre@.fallbacks }),
                    }
                },
            },
    {
        proof {
            use_type_invariant(state);
        }
        match find_receipt(&state.receipts, event.sequence) {
            Some(i) => {
                if state.receipts[i].event.same_as(event) {
                    return Ok(pre);
                }
                return Err(Error::DuplicateCommittedSequence { sequence: event.sequence });
            },
            None => {},
        }
        let mut k: usize = 0;
        while k < pre.seen.len()
            invariant
                k <= pre.seen@.len(),
                forall|j: int| 0 <= j < k ==> (#[trigger] pre.seen@[j]) != event.sequence,
            decreases pre.seen@.len() - k,
        {
            if pre.seen[k].0 == event.sequence.0 {
                assert(pre@.seen[k as int] == event.sequence);
                return Err(Error::DuplicateCommittedSequence { sequence: event.sequence });
            }
            k = k + 1;
        }
        if event.sequence.0 <= pre.newest.0 {
            return Err(Error::StaleCommittedEvent { sequence: event.sequence });
        }
        let Preflight { newest: _, seen, episode, fallbacks } = pre;
        let mut seen = seen;
        seen.push(event.sequence);
        match &event.utterance {
            Utterance::CompleteEpisode { .. } => match reply {
                HiveReply::Completion(Ok(ep)) => Ok(Preflight { newest: event.sequence, seen, episode: ep, fallbacks }),
                HiveReply::Completion(Err(x)) => Err(x),
                _ => Err(Error::MissingBroadcastRouting),
            },
            Utterance::Dm { .. } => match reply {
                HiveReply::Direct(Ok(_)) => Ok(Preflight { newest: event.sequence, seen, episode, fallbacks }),
                HiveReply::Direct(Err(x)) => Err(x),
                _ => Err(Error::MissingBroadcastRouting),
            },
            Utterance::Broadcast { .. } => {
                if !routing {
                    return Err(Error::MissingBroadcastRouting);
                }
                match broadcast_fallback(&episode, &state.pending_order, event.author_id.as_str()) {
                    Some(f) => {
                        let mut fallbacks = fallbacks;
                        let ghost before = fallbacks@;
                        fallbacks.push((event.sequence, f));
                        let q = Preflight { newest: event.sequence, seen, episode, fallbacks };
                        proof {
                            assert(q@.fallbacks =~= before.map_values(|g: (Sequence, String)| (g.0, g.1@)).push((event.sequence, f@)));
                        }
                        Ok(q)
                    },
                    None => Err(Error::NoBroadcastFallback { agent_id: event.author_id.clone() }),
                }
            },
            _ => Ok(Preflight { newest: event.sequence, seen, episode, fallbacks }),
        }
    }
}

/// The routing inputs a host supplies when a broadcast is folded, beside
/// the routers themselves.
pub struct BroadcastRouting {
    /// The frozen acceptance policy.
    pub policy: RoutingPolicy,
    /// The candidate snapshot's version.
    pub roster_version: u64,
    /// The thread context the host selected, attributed.
    pub thread_context: Vec<String>,
}

/// The candidates of `cs` that are participants `ids` and not `author`, in
/// order, as plain values.
pub open spec fn sift(cs: Seq<RouteCandidate>, author: Seq<char>, ids: Seq<Seq<char>>) -> Seq<(Seq<char>, Seq<char>, Option<Seq<char>>, Option<Seq<char>>, Seq<Seq<char>>, Seq<Seq<char>>, bool)>
    decreases cs.len(),
{
    if cs.len() == 0 {
        Seq::empty()
    } else {
        let prev = sift(cs.drop_last(), author, ids);
        if cs.last().id@ != author && ids.contains(cs.last().id@) {
            prev.push(candidate_view(cs.last()))
        } else {
            prev
        }
    }
}

/// A broadcast's candidates are the hive's candidates that are participants
/// and not the author, each of them, in the hive's order.
pub proof fn law_broadcast_candidates(cs: Seq<RouteCandidate>, author: Seq<char>, ids: Seq<Seq<char>>)
    ensures
        forall|i: int| 0 <= i < sift(cs, author, ids).len() ==> (#[trigger] sift(cs, author, ids)[i]).0 != author
            && ids.contains(sift(cs, author, ids)[i].0),
        forall|k: int| 0 <= k < cs.len() && (#[trigger] cs[k]).id@ != author && ids.contains(cs[k].id@)
            ==> sift(cs, author, ids).contains(candidate_view(cs[k])),
        sift(cs, author, ids).len() <= cs.len(),
    decreases cs.len(),
{
    if cs.len() > 0 {
        let init = cs.drop_last();
        law_broadcast_candidates(init, author, ids);
        let prev = sift(init, author, ids);
        let r = sift(cs, author, ids);
        assert forall|i: int| 0 <= i < r.len() implies (#[trigger] r[i]).0 != author && ids.contains(r[i].0) by {
            if i < prev.len() {
                assert(r[i] == prev[i]);
            }
        }
        assert forall|k: int| 0 <= k < cs.len() && (#[trigger] cs[k]).id@ != author && ids.contains(cs[k].id@)
            implies r.contains(candidate_view(cs[k])) by {
            if k < cs.len() - 1 {
                assert(init[k] == cs[k]);
                let j = choose|j: int| 0 <= j < prev.len() && prev[j] == candidate_view(init[k]);
                assert(r[j] == prev[j]);
            } else {
                assert(r[r.len() - 1] == candidate_view(cs[k]));
            }
        }
    }
}

impl CompletionDriver {
    /// What the router is asked for a broadcast of `message` by `author_id`
    /// in `episode`: a broadcast by the author, on this desk in the
    /// episode's thread, with the desk's purpose, the host's thread context
    /// and roster version, the hive's candidates that are participants other
    /// than the author, and the policy with the smaller of its own and this
    /// driver's round width.
    pub fn broadcast_request(&self, episode: &EpisodeState, author_id: &str, message: &str, routing: &BroadcastRouting) -> (r: RoutingRequest)
        ensures
            r.message@ == message@,
            r.source matches RoutingSource::AgentBroadcast { author_id: a } && a@ == author_id@,
            r.conversation.id@ == self@.desk_id,
            r.conversation.kind == ConversationKind::Desk,
            r.conversation.thread_root == episode.thread_root,
            crate::text::text_opt(r.desk_purpose) == self@.desk_purpose,
            views(r.thread_context@) == views(routing.thread_context@),
            r.candidates@.map_values(|c: RouteCandidate| candidate_view(c)) == sift(self@.candidates, author_id@, agent_ids(episode.participants@)),
            forall|i: int| 0 <= i < r.candidates@.len() ==> (#[trigger] r.candidates@[i]).id@ != author_id@
                && agent_ids(episode.participants@).contains(r.candidates@[i].id@),
            r.roster_version == routing.roster_version,
            r.policy == (RoutingPolicy {
                round_width: if routing.policy.round_width < self@.round_width { routing.policy.round_width } else { self@.round_width },
                ..routing.policy
            }),
    {
        let cs = &self.hive.candidates;
        let ghost ids = agent_ids(episode.participants@);
        let ghost f = |c: RouteCandidate| candidate_view(c);
        let mut candidates: Vec<RouteCandidate> = Vec::new();
        let mut i: usize = 0;
        while i < cs.len()
            invariant
                ids == agent_ids(episode.participants@),
                f == |c: RouteCandidate| candidate_view(c),
                i <= cs@.len(),
                candidates@.map_values(f) == sift(cs@.take(i as int), author_id@, ids),
            decreases cs@.len() - i,
        {
            assert(cs@.take(i + 1).drop_last() =~= cs@.take(i as int));
            assert(cs@.take(i + 1).last() == cs@[i as int]);
            if !crate::text::same(cs[i].id.as_str(), author_id) && is_participant(&episode.participants, &cs[i].id) {
                let ghost before = candidates@;
                let c = cs[i].copy();
                candidates.push(c);
                assert(candidates@.map_values(f) =~= before.map_values(f).push(candidate_view(cs@[i as int])));
            }
            i = i + 1;
        }
        assert(cs@.take(i as int) =~= cs@);
        let mut policy = routing.policy;
        if self.round_width < policy.round_width {
            policy.round_width = self.round_width;
        }
        proof {
            law_broadcast_candidates(self@.candidates, author_id@, agent_ids(episode.participants@));
            let sv = sift(self@.candidates, author_id@, agent_ids(episode.participants@));
            assert forall|i: int| 0 <= i < candidates@.len() implies (#[trigger] candidates@[i]).id@ != author_id@
                && agent_ids(episode.participants@).contains(candidates@[i].id@) by {
                assert(candidates@.map_values(|c: RouteCandidate| candidate_view(c))[i] == candidate_view(candidates@[i]));
                assert(sv[i].0 == candidates@[i].id@);
            }
        }
        RoutingRequest {
            message: message.to_owned(),
            source: RoutingSource::AgentBroadcast { author_id: author_id.to_owned() },
            conversation: ConversationRef { id: self.hive.desk_id.clone(), kind: ConversationKind::Desk, thread_root: episode.thread_root },
            desk_purpose: crate::routing::copy_opt(&self.hive.desk_purpose),
            thread_context: crate::speech::copy_all(&routing.thread_context),
            candidates,
            roster_version: routing.roster_version,
            policy,
        }
    }
}

/// Appends to `order` each of `recipients` it does not hold yet, in the
/// order they come, once each.
pub fn extend_pending_order(order: &mut Vec<String>, recipients: &Vec<String>)
    ensures
        views(final(order)@) == appended(views(old(order)@), views(recipients@)),
{
    let mut i: usize = 0;
    while i < recipients.len()
        invariant
            i <= recipients@.len(),
            views(order@) == appended(views(old(order)@), views(recipients@).take(i as int)),
        decreases recipients@.len() - i,
    {
        assert(views(recipients@).take(i + 1).drop_last() =~= views(recipients@).take(i as int));
        push_new(order, &recipients[i], true);
        i = i + 1;
    }
    assert(views(recipients@).take(recipients@.len() as int) =~= views(recipients@));
}

} // verus!

verus! {

/// The pending order a state is pruned to holds each seat at most once, and
/// exactly the seats of the old order that still owe a turn.
pub proof fn law_pruned_order(order: Seq<Seq<char>>, ps: Seq<Participant>)
    ensures
        keep_first(order, pending_set(ps)).no_duplicates(),
        forall|id: Seq<char>| #[trigger] keep_first(order, pending_set(ps)).contains(id) <==> (order.contains(id) && pending_set(ps).contains(id)),
{
    lemma_keep_first(order, pending_set(ps));
}

/// Extending a pending order keeps it as it was and adds each recipient it
/// lacked, once: nothing is held twice that was not held twice before.
pub proof fn law_extended_order(base: Seq<Seq<char>>, rs: Seq<Seq<char>>)
    ensures
        appended(base, rs).len() >= base.len(),
        appended(base, rs).take(base.len() as int) == base,
        forall|id: Seq<char>| #[trigger] appended(base, rs).contains(id) <==> (base.contains(id) || rs.contains(id)),
        base.no_duplicates() ==> appended(base, rs).no_duplicates(),
    decreases rs.len(),
{
    if rs.len() == 0 {
        assert(base.take(base.len() as int) =~= base);
    } else {
        law_extended_order(base, rs.drop_last());
        let prev = appended(base, rs.drop_last());
        if !prev.contains(rs.last()) {
            assert(prev.push(rs.last()).take(base.len() as int) =~= prev.take(base.len() as int));
        }
        assert forall|id: Seq<char>| #[trigger] appended(base, rs).contains(id) <==> (base.contains(id) || rs.contains(id)) by {
            if rs.contains(id) {
                let k = choose|k: int| 0 <= k < rs.len() && rs[k] == id;
                if k < rs.len() - 1 {
                    assert(rs.drop_last()[k] == id);
                }
            }
            if rs.drop_last().contains(id) {
                let k = choose|k: int| 0 <= k < rs.drop_last().len() && rs.drop_last()[k] == id;
                assert(rs[k] == id);
            }
            if !prev.contains(rs.last()) {
                if prev.push(rs.last()).contains(id) {
                    let k = choose|k: int| 0 <= k < prev.push(rs.last()).len() && prev.push(rs.last())[k] == id;
                    if k < prev.len() {
                        assert(prev[k] == id);
                    } else {
                        assert(rs[rs.len() - 1] == id);
                    }
                }
                if prev.contains(id) {
                    let k = choose|k: int| 0 <= k < prev.len() && prev[k] == id;
                    assert(prev.push(rs.last())[k] == id);
                }
                if id == rs.last() {
                    assert(prev.push(rs.last())[prev.len() as int] == id);
                }
            } else if id == rs.last() {
                assert(rs[rs.len() - 1] == id);
            }
        }
    }
}

/// A broadcast never falls back to its own author, and falls back only to a
/// participant of the episode.
pub proof fn law_fallback_is_another_participant(e: EpisodeState, order: Seq<String>, author: Seq<char>)
    ensures
        fallback_of(fallback_order(e, order), author) matches Some(f) ==> f != author && agent_ids(e.participants@).contains(f),
{
    let o = fallback_order(e, order);
    lemma_keep_first(views(order) + agent_ids(e.participants@), agent_ids(e.participants@).to_set());
    if o.contains(author) && o.len() > 1 {
        let i = o.index_of(author);
        let j = (i + 1) % (o.len() as int);
        assert(0 <= j < o.len());
        assert(o[i] == author);
        assert(o.contains(o[j]));
        assert(agent_ids(e.participants@).to_set().contains(o[j]));
        assert(i != j) by {
            if i + 1 < o.len() {
                vstd::arithmetic::div_mod::lemma_small_mod((i + 1) as nat, o.len());
            } else {
                vstd::arithmetic::div_mod::lemma_mod_self_0(o.len() as int);
            }
        }
        assert(o[j] != o[i]);
    }
}

/// A round runs no more seats than a round holds, each once, each of them
/// one that still owes a turn.
pub proof fn law_round_is_pending(h: HiveView, v: DriverView)
    ensures
        round_ids(h, v).len() <= h.round_width,
        round_ids(h, v).no_duplicates(),
        forall|i: int| 0 <= i < round_ids(h, v).len() ==> pending_set(v.episode.participants@).contains(#[trigger] round_ids(h, v)[i]),
        v.episode.complete ==> round_ids(h, v).len() == 0,
{
    let s = views(v.pending_order) + agent_ids(v.episode.participants@);
    lemma_keep_first(s, pending_set(v.episode.participants@));
    let ids = pending_in_order(v);
    assert forall|i: int| 0 <= i < round_ids(h, v).len() implies pending_set(v.episode.participants@).contains(#[trigger] round_ids(h, v)[i]) by {
        assert(round_ids(h, v)[i] == ids[i]);
        assert(ids.contains(ids[i]));
    }
}

/// An event folded into a state is, from then on, an exact replay there.
pub proof fn law_folded_event_replays(v: DriverView, e: CommittedUtterance, episode: EpisodeState, order: Seq<Seq<char>>, n: DriverView)
    requires
        ascending(v.receipts),
        ascending(n.receipts),
        receipt_for(v.receipts, e.sequence) is None,
        folded(v, e, episode, order, n),
    ensures
        replayed(n, e),
{
    let p = slot(receipt_keys(v.receipts), e.sequence.0);
    lemma_first_where_bound(above(receipt_keys(v.receipts), e.sequence.0), 0, v.receipts.len() as int);
    lemma_first_where_floor(above(receipt_keys(v.receipts), e.sequence.0), 0, v.receipts.len() as int);
    let target = v.receipts.insert(p, Receipt { sequence: e.sequence, event: e });
    assert(receipt_views(target).len() == target.len());
    assert(receipt_views(n.receipts).len() == n.receipts.len());
    assert(n.receipts.len() == v.receipts.len() + 1);
    assert(receipt_views(n.receipts)[p] == receipt_views(target)[p]);
    assert(n.receipts[p].sequence == e.sequence);
    let c = choose|c: int| 0 <= c < n.receipts.len() && (#[trigger] n.receipts[c]).sequence == e.sequence;
    if c < p {
        assert(n.receipts[c].sequence.0 < n.receipts[p].sequence.0);
    } else if c > p {
        assert(n.receipts[p].sequence.0 < n.receipts[c].sequence.0);
    }
}

} // verus!

verus! {

/// A sequence of distinct ids, all kept, is its own `keep_first`.
proof fn lemma_keep_first_whole(s: Seq<Seq<char>>, keep: Set<Seq<char>>)
    requires
        s.no_duplicates(),
        forall|i: int| 0 <= i < s.len() ==> keep.contains(#[trigger] s[i]),
    ensures
        keep_first(s, keep) == s,
    decreases s.len(),
{
    if s.len() > 0 {
        let prev = s.drop_last();
        assert(prev.no_duplicates());
        assert forall|i: int| 0 <= i < prev.len() implies keep.contains(#[trigger] prev[i]) by {
            assert(prev[i] == s[i]);
        }
        lemma_keep_first_whole(prev, keep);
        if prev.contains(s.last()) {
            let k = choose|k: int| 0 <= k < prev.len() && prev[k] == s.last();
            assert(s[k] == s[s.len() - 1]);
        }
        assert(keep.contains(s[s.len() - 1]));
        assert(prev.push(s.last()) =~= s);
    }
}

/// Resuming is idempotent: a state that resumed resumes again, unchanged.
pub proof fn law_resume_is_idempotent(h: HiveView, v: DriverView, n: DriverView)
    requires
        resumable(h, v),
        n.episode == v.episode,
        n.receipts == v.receipts,
        n.freshness_floor == v.freshness_floor,
        n.revision == v.revision,
        views(n.pending_order) == keep_first(views(v.pending_order), pending_set(v.episode.participants@)),
    ensures
        resumable(h, n),
        keep_first(views(n.pending_order), pending_set(n.episode.participants@)) == views(n.pending_order),
{
    let order = views(v.pending_order);
    let kept = views(n.pending_order);
    let keep = pending_set(v.episode.participants@);
    lemma_keep_first(order, keep);
    let oc = order_check(order, h.bound);
    let nc = order_check(kept, h.bound);
    crate::search::lemma_first_where_none(oc, 0, order.len() as int);
    assert forall|k: int| 0 <= k < kept.len() implies !#[trigger] nc(k) by {
        assert(kept.contains(kept[k]));
        assert(order.contains(kept[k]));
        let j = choose|j: int| 0 <= j < order.len() && order[j] == kept[k];
        assert(!oc(j));
    }
    crate::search::lemma_first_where(nc, 0, kept.len() as int, kept.len() as int);
    assert forall|i: int| 0 <= i < kept.len() implies keep.contains(#[trigger] kept[i]) by {
        assert(kept.contains(kept[i]));
    }
    lemma_keep_first_whole(kept, keep);
}

} // verus!

verus! {

/// Episodes that hold the same values owe the same turns.
proof fn lemma_alike_pending(a: EpisodeState, b: EpisodeState)
    requires
        alike_episode(a, b),
    ensures
        pending_set(a.participants@) == pending_set(b.participants@),
{
    let pa = a.participants@;
    let pb = b.participants@;
    assert(pa.len() == pa.map_values(|p: Participant| part_view(p)).len());
    assert(pb.len() == pb.map_values(|p: Participant| part_view(p)).len());
    assert forall|id: Seq<char>| pending_set(pa).contains(id) <==> pending_set(pb).contains(id) by {
        if pending_set(pa).contains(id) {
            let i = choose|i: int| 0 <= i < pa.len() && (#[trigger] pa[i]).pending && pa[i].agent_id@ == id;
            assert(pa.map_values(|p: Participant| part_view(p))[i] == pb.map_values(|p: Participant| part_view(p))[i]);
            assert(pb[i].pending && pb[i].agent_id@ == id);
        }
        if pending_set(pb).contains(id) {
            let i = choose|i: int| 0 <= i < pb.len() && (#[trigger] pb[i]).pending && pb[i].agent_id@ == id;
            assert(pa.map_values(|p: Participant| part_view(p))[i] == pb.map_values(|p: Participant| part_view(p))[i]);
            assert(pa[i].pending && pa[i].agent_id@ == id);
        }
    }
    assert(pending_set(pa) =~= pending_set(pb));
}

/// A fold that succeeded settled the event: the hive's episode, and the
/// pending order it leaves.
proof fn lemma_fold_ok(h: HiveView, v: DriverView, e: CommittedUtterance, reply: HiveReply, fallback: Option<Seq<char>>, t: Transition) -> (w: (EpisodeState, Seq<Seq<char>>))
    requires
        fold_outcome(h, v, e, reply, fallback, Ok(t)),
    ensures
        folded(v, e, w.0, w.1, t.state@),
{
    let order = views(v.pending_order);
    match e.utterance {
        Utterance::Dm { .. } => (v.episode, order),
        Utterance::CompleteEpisode { .. } => match reply {
            HiveReply::Completion(Ok(ep)) => (ep, order),
            _ => (v.episode, order),
        },
        Utterance::Broadcast { .. } => match reply {
            HiveReply::Routed { plan: Some(p), assigned } => {
                let ids = plan_ids(p);
                if ids.len() == 0 {
                    (v.episode, order)
                } else {
                    match assigned {
                        Ok(ep) => (ep, appended(order, ids)),
                        Err(_) => (v.episode, order),
                    }
                }
            },
            _ => (v.episode, order),
        },
        _ => (v.episode, order),
    }
}

/// What every successful fold of a fresh event does to the state: the event
/// was above the freshness floor; the revision advances by one; the receipts
/// gain exactly the event, filed in order under its sequence, so it replays
/// from then on; the freshness floor becomes its sequence; and the pending
/// order holds each seat at most once, each one that still owes a turn.
pub proof fn law_applied_transition(h: HiveView, v: DriverView, e: CommittedUtterance, reply: HiveReply, fallback: Option<Seq<char>>, t: Transition)
    requires
        ascending(v.receipts),
        ascending(t.state@.receipts),
        fresh(h, v, e),
        fold_outcome(h, v, e, reply, fallback, Ok(t)),
    ensures
        e.sequence.0 > v.freshness_floor.0,
        t.state@.revision == v.revision + 1,
        receipt_views(t.state@.receipts) == receipt_views(v.receipts.insert(slot(receipt_keys(v.receipts), e.sequence.0), Receipt { sequence: e.sequence, event: e })),
        replayed(t.state@, e),
        t.state@.freshness_floor == e.sequence,
        views(t.state@.pending_order).no_duplicates(),
        forall|i: int| 0 <= i < views(t.state@.pending_order).len() ==> pending_set(t.state@.episode.participants@).contains(#[trigger] views(t.state@.pending_order)[i]),
{
    let (ep, order) = lemma_fold_ok(h, v, e, reply, fallback, t);
    let n = t.state@;
    law_pruned_order(order, ep.participants@);
    lemma_alike_pending(n.episode, ep);
    law_folded_event_replays(v, e, ep, order, n);
    assert forall|i: int| 0 <= i < views(n.pending_order).len() implies pending_set(n.episode.participants@).contains(#[trigger] views(n.pending_order)[i]) by {
        assert(views(n.pending_order).contains(views(n.pending_order)[i]));
    }
}

} // verus!

verus! {

/// Whether `fs` files a fallback under sequence `k`.
pub open spec fn files_fallback(fs: Seq<(Sequence, Seq<char>)>, k: Sequence) -> bool {
    exists|j: int| 0 <= j < fs.len() && (#[trigger] fs[j]).0 == k
}

proof fn lemma_preflight_prefixes(v: DriverView, pre: PreflightView, events: Seq<CommittedUtterance>, replies: Seq<HiveReply>, routing: bool)
    requires
        preflight_all(v, pre, events, replies, routing) is Some,
    ensures
        forall|k: int| 0 <= k <= events.len() ==> (#[trigger] preflight_all(v, pre, events.take(k), replies, routing)) is Some,
    decreases events.len(),
{
    if events.len() > 0 {
        lemma_preflight_prefixes(v, pre, events.drop_last(), replies, routing);
        assert forall|k: int| 0 <= k <= events.len() implies (#[trigger] preflight_all(v, pre, events.take(k), replies, routing)) is Some by {
            if k < events.len() {
                assert(events.take(k) =~= events.drop_last().take(k));
            } else {
                assert(events.take(k) =~= events);
            }
        }
    } else {
        assert(events.take(0) =~= events);
    }
}

proof fn lemma_preflight_first_refusal(v: DriverView, pre: PreflightView, events: Seq<CommittedUtterance>, replies: Seq<HiveReply>, routing: bool) -> (k: int)
    requires
        preflight_all(v, pre, events, replies, routing) is None,
    ensures
        0 <= k < events.len(),
        preflight_all(v, pre, events.take(k), replies, routing) matches Some(p)
            && preflight_step(v, p, events[k], replies[k], routing) is None,
    decreases events.len(),
{
    let init = events.drop_last();
    if preflight_all(v, pre, init, replies, routing) is None {
        let k = lemma_preflight_first_refusal(v, pre, init, replies, routing);
        assert(events.take(k) =~= init.take(k));
        k
    } else {
        assert(events.take(events.len() - 1) =~= init);
        events.len() - 1
    }
}

proof fn lemma_preflight_fallbacks(v: DriverView, pre: PreflightView, events: Seq<CommittedUtterance>, replies: Seq<HiveReply>, routing: bool)
    requires
        preflight_all(v, pre, events, replies, routing) is Some,
    ensures
        ({
            let p = preflight_all(v, pre, events, replies, routing)->0;
            &&& p.fallbacks.len() >= pre.fallbacks.len()
            &&& p.fallbacks.take(pre.fallbacks.len() as int) == pre.fallbacks
            &&& forall|i: int| 0 <= i < events.len() && (#[trigger] events[i]).utterance is Broadcast
                && receipt_for(v.receipts, events[i].sequence) is None ==> files_fallback(p.fallbacks, events[i].sequence)
        }),
    decreases events.len(),
{
    if events.len() == 0 {
        assert(pre.fallbacks.take(pre.fallbacks.len() as int) =~= pre.fallbacks);
    } else {
        let init = events.drop_last();
        lemma_preflight_fallbacks(v, pre, init, replies, routing);
        let q = preflight_all(v, pre, init, replies, routing)->0;
        let p = preflight_all(v, pre, events, replies, routing)->0;
        let e = events.last();
        if p.fallbacks != q.fallbacks {
            assert(p.fallbacks == q.fallbacks.push(p.fallbacks.last()));
            assert(p.fallbacks.take(pre.fallbacks.len() as int) =~= q.fallbacks.take(pre.fallbacks.len() as int));
        }
        assert forall|i: int| 0 <= i < events.len() && (#[trigger] events[i]).utterance is Broadcast
            && receipt_for(v.receipts, events[i].sequence) is None implies files_fallback(p.fallbacks, events[i].sequence) by {
            if i < events.len() - 1 {
                assert(init[i] == events[i]);
                let j = choose|j: int| 0 <= j < q.fallbacks.len() && (#[trigger] q.fallbacks[j]).0 == events[i].sequence;
                if p.fallbacks != q.fallbacks {
                    assert(p.fallbacks[j] == q.fallbacks[j]);
                }
            } else {
                assert(p.fallbacks.last().0 == e.sequence);
                assert(p.fallbacks[p.fallbacks.len() - 1].0 == e.sequence);
            }
        }
    }
}

/// A round is checked whole before anything of it is folded or routed:
/// checking leaves the state as it was (it reads it and returns only the
/// checks); the round passes only if every event passes in turn; a refused
/// event is the first one refused, after every event before it passed; and
/// a round that passes has a fallback filed for every new broadcast in it,
/// the fallback its routing is then given, while the fallbacks checked
/// before the round are kept as they were.
pub proof fn law_round_checked_before_routing(v: DriverView, pre: PreflightView, events: Seq<CommittedUtterance>, replies: Seq<HiveReply>, routing: bool)
    ensures
        preflight_all(v, pre, events, replies, routing) is Some ==>
            forall|k: int| 0 <= k <= events.len() ==> (#[trigger] preflight_all(v, pre, events.take(k), replies, routing)) is Some,
        preflight_all(v, pre, events, replies, routing) is None ==>
            exists|k: int| 0 <= k < events.len() && ((#[trigger] preflight_all(v, pre, events.take(k), replies, routing)) matches Some(p)
                && preflight_step(v, p, events[k], replies[k], routing) is None),
        preflight_all(v, pre, events, replies, routing) matches Some(p) ==> {
            &&& p.fallbacks.take(pre.fallbacks.len() as int) == pre.fallbacks
            &&& forall|i: int| 0 <= i < events.len() && (#[trigger] events[i]).utterance is Broadcast
                && receipt_for(v.receipts, events[i].sequence) is None ==> files_fallback(p.fallbacks, events[i].sequence)
        },
{
    if preflight_all(v, pre, events, replies, routing) is Some {
        lemma_preflight_prefixes(v, pre, events, replies, routing);
        lemma_preflight_fallbacks(v, pre, events, replies, routing);
    } else {
        let k = lemma_preflight_first_refusal(v, pre, events, replies, routing);
        assert(preflight_all(v, pre, events.take(k), replies, routing) is Some);
    }
}

} // verus!

verus! {

/// Keeping the first of each kept member of `a + b` keeps those of `a`
/// first, as `a` alone gives them, and then only members `a` lacks.
proof fn lemma_keep_first_concat(a: Seq<Seq<char>>, b: Seq<Seq<char>>, keep: Set<Seq<char>>)
    ensures
        keep_first(a + b, keep).len() >= keep_first(a, keep).len(),
        keep_first(a + b, keep).take(keep_first(a, keep).len() as int) == keep_first(a, keep),
        forall|k: int| keep_first(a, keep).len() <= k < keep_first(a + b, keep).len() ==> !a.contains(#[trigger] keep_first(a + b, keep)[k]),
    decreases b.len(),
{
    let m = keep_first(a, keep).len() as int;
    if b.len() == 0 {
        assert(a + b =~= a);
        assert(keep_first(a, keep).take(m) =~= keep_first(a, keep));
    } else {
        lemma_keep_first_concat(a, b.drop_last(), keep);
        assert((a + b).drop_last() =~= a + b.drop_last());
        assert((a + b).last() == b.last());
        let prev = keep_first(a + b.drop_last(), keep);
        let x = b.last();
        let r = keep_first(a + b, keep);
        if keep.contains(x) && !prev.contains(x) {
            assert(r == prev.push(x));
            assert(r.take(m) =~= prev.take(m));
            lemma_keep_first(a, keep);
            if a.contains(x) {
                assert(keep_first(a, keep).contains(x));
                let k = choose|k: int| 0 <= k < keep_first(a, keep).len() && keep_first(a, keep)[k] == x;
                assert(prev.take(m)[k] == x);
                assert(prev[k] == x);
            }
            assert forall|k: int| m <= k < r.len() implies !a.contains(#[trigger] r[k]) by {
                if k < prev.len() {
                    assert(r[k] == prev[k]);
                }
            }
        }
    }
}

/// Keeping the first of each kept member of `s` keeps them in the order
/// they first come in `s`: of two kept, the earlier occurs in `s` before
/// every occurrence of the later.
proof fn lemma_keep_first_order(s: Seq<Seq<char>>, keep: Set<Seq<char>>)
    ensures
        forall|i: int, j: int, q: int|
            #![trigger keep_first(s, keep)[i], keep_first(s, keep)[j], s[q]]
            0 <= i < j < keep_first(s, keep).len() && 0 <= q < s.len() && s[q] == keep_first(s, keep)[j]
            ==> s.take(q).contains(keep_first(s, keep)[i]),
    decreases s.len(),
{
    if s.len() > 0 {
        let init = s.drop_last();
        lemma_keep_first_order(init, keep);
        lemma_keep_first(init, keep);
        let prev = keep_first(init, keep);
        let r = keep_first(s, keep);
        let last = s.len() - 1;
        assert forall|i: int, j: int, q: int|
            #![trigger keep_first(s, keep)[i], keep_first(s, keep)[j], s[q]]
            0 <= i < j < keep_first(s, keep).len() && 0 <= q < s.len() && s[q] == keep_first(s, keep)[j]
            implies s.take(q).contains(keep_first(s, keep)[i]) by {
            assert(r[i] == prev[i]);
            assert(prev.contains(prev[i]));
            assert(init.contains(prev[i]));
            let p0 = choose|p: int| 0 <= p < init.len() && init[p] == prev[i];
            assert(init[p0] == prev[i]);
            assert(s[p0] == init[p0]);
            assert(s[p0] == r[i]);
            if q < last {
                assert(init[q] == s[q]);
                if j < prev.len() {
                    assert(r[j] == prev[j]);
                    assert(prev[i] == prev[i] && prev[j] == prev[j] && init[q] == init[q]);
                    assert(init.take(q).contains(prev[i]));
                    let p = choose|p: int| 0 <= p < q && init.take(q)[p] == prev[i];
                    assert(init.take(q)[p] == init[p]);
                    assert(s.take(q)[p] == s[p]);
                    assert(s[p] == r[i]);
                } else {
                    assert(r[j] == s.last());
                    assert(init.contains(s.last()));
                    assert(prev.contains(s.last()));
                }
            } else {
                assert(p0 < q);
                assert(s.take(q)[p0] == s[p0]);
            }
        }
    } else {
        assert(keep_first(s, keep) =~= Seq::<Seq<char>>::empty());
    }
}

/// The seats a state proposes to run, in order: every seat that still owes
/// a turn (none once the episode is complete), each once; the seats its
/// pending order lists come first, in the order it lists them, before every
/// pending participant it does not list.
pub proof fn law_pending_order_runs_first(v: DriverView)
    ensures
        pending_in_order(v).no_duplicates(),
        forall|x: Seq<char>| #[trigger] pending_in_order(v).contains(x)
            <==> (!v.episode.complete && pending_set(v.episode.participants@).contains(x)),
        forall|i: int, j: int| 0 <= i < pending_in_order(v).len() && 0 <= j < pending_in_order(v).len()
            && views(v.pending_order).contains(#[trigger] pending_in_order(v)[i])
            && !views(v.pending_order).contains(#[trigger] pending_in_order(v)[j]) ==> i < j,
        forall|i: int, j: int, q: int|
            #![trigger pending_in_order(v)[i], pending_in_order(v)[j], views(v.pending_order)[q]]
            0 <= i < j < pending_in_order(v).len() && 0 <= q < views(v.pending_order).len()
            && views(v.pending_order)[q] == pending_in_order(v)[j]
            ==> views(v.pending_order).take(q).contains(pending_in_order(v)[i]),
{
    if !v.episode.complete {
        law_pending_order_runs_first_open(v);
    }
}

proof fn law_pending_order_runs_first_open(v: DriverView)
    requires
        !v.episode.complete,
    ensures
        pending_in_order(v).no_duplicates(),
        forall|x: Seq<char>| #[trigger] pending_in_order(v).contains(x)
            <==> (!v.episode.complete && pending_set(v.episode.participants@).contains(x)),
        forall|i: int, j: int| 0 <= i < pending_in_order(v).len() && 0 <= j < pending_in_order(v).len()
            && views(v.pending_order).contains(#[trigger] pending_in_order(v)[i])
            && !views(v.pending_order).contains(#[trigger] pending_in_order(v)[j]) ==> i < j,
        forall|i: int, j: int, q: int|
            #![trigger pending_in_order(v)[i], pending_in_order(v)[j], views(v.pending_order)[q]]
            0 <= i < j < pending_in_order(v).len() && 0 <= q < views(v.pending_order).len()
            && views(v.pending_order)[q] == pending_in_order(v)[j]
            ==> views(v.pending_order).take(q).contains(pending_in_order(v)[i]),
{
    let order = views(v.pending_order);
    let ids = agent_ids(v.episode.participants@);
    let keep = pending_set(v.episode.participants@);
    let r = pending_in_order(v);
    let s = order + ids;
    lemma_keep_first(s, keep);
    lemma_keep_first(order, keep);
    lemma_keep_first_concat(order, ids, keep);
    lemma_keep_first_order(s, keep);
    let m = keep_first(order, keep).len() as int;
    assert forall|x: Seq<char>| #[trigger] r.contains(x) <==> keep.contains(x) by {
        if keep.contains(x) {
            let i = choose|i: int| 0 <= i < v.episode.participants@.len() && (#[trigger] v.episode.participants@[i]).pending
                && v.episode.participants@[i].agent_id@ == x;
            assert(s[order.len() + i] == x);
        }
    }
    assert forall|i: int, j: int| 0 <= i < r.len() && 0 <= j < r.len()
        && order.contains(#[trigger] r[i]) && !order.contains(#[trigger] r[j]) implies i < j by {
        if j < m {
            assert(r[j] == r.take(m)[j]);
            assert(keep_first(order, keep).contains(r[j]));
        }
    }
    assert forall|i: int, j: int, q: int|
        #![trigger pending_in_order(v)[i], pending_in_order(v)[j], views(v.pending_order)[q]]
        0 <= i < j < pending_in_order(v).len() && 0 <= q < views(v.pending_order).len()
        && views(v.pending_order)[q] == pending_in_order(v)[j]
        implies views(v.pending_order).take(q).contains(pending_in_order(v)[i]) by {
        assert(r[i] == keep_first(s, keep)[i] && r[j] == keep_first(s, keep)[j]);
        assert(s[q] == order[q]);
        assert(s.take(q).contains(r[i]));
        let p = choose|p: int| 0 <= p < q && s.take(q)[p] == r[i];
        assert(s.take(q)[p] == s[p]);
        assert(order[p] == s[p]);
        assert(order.take(q)[p] == order[p]);
    }
}

} // verus!

verus! {

/// The freshness floor a resumed state must carry bounds the episode's
/// watermark, every assignment and completion, and every receipt filed in
/// ascending order; and it is one of them.
pub proof fn law_derived_floor_bounds(v: DriverView)
    requires
        ascending(v.receipts),
    ensures
        derived_floor(v) >= v.episode.watermark.0,
        forall|i: int| 0 <= i < v.episode.participants@.len() ==> derived_floor(v) >= (#[trigger] v.episode.participants@[i]).assigned_at.0,
        forall|i: int| 0 <= i < v.episode.participants@.len() ==> ((#[trigger] v.episode.participants@[i]).completed_at matches Some(c) ==> derived_floor(v) >= c.0),
        forall|i: int| 0 <= i < v.receipts.len() ==> derived_floor(v) >= (#[trigger] v.receipts[i]).sequence.0,
        derived_floor(v) == floor_over(v.episode.participants@, v.episode.watermark)
            || exists|i: int| 0 <= i < v.receipts.len() && derived_floor(v) == (#[trigger] v.receipts[i]).sequence.0,
{
    law_floor_is_greatest(v.episode.participants@, v.episode.watermark);
    if v.receipts.len() > 0 {
        let n = v.receipts.len() - 1;
        assert forall|i: int| 0 <= i < v.receipts.len() implies derived_floor(v) >= (#[trigger] v.receipts[i]).sequence.0 by {
            if i < n {
                assert(receipt_keys(v.receipts)[i] == v.receipts[i].sequence);
                assert(v.receipts[i].sequence.0 < v.receipts[n].sequence.0);
            }
        }
        assert(v.receipts[n] == v.receipts.last());
    }
}

/// A round is the first seats of the state's order of pending seats, as
/// many as a round holds or all of them when fewer.
pub proof fn law_round_is_the_front(h: HiveView, v: DriverView)
    ensures
        round_ids(h, v).len() == if pending_in_order(v).len() <= h.round_width { pending_in_order(v).len() as int } else { h.round_width as int },
        forall|i: int| 0 <= i < round_ids(h, v).len() ==> #[trigger] round_ids(h, v)[i] == pending_in_order(v)[i],
{
}

} // verus!
