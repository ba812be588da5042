//! What the tool server remembers between calls, and hands the host.
//!
//! Four things, all per seat: the turn the host has registered (which chat
//! and thread it is in), the calls the seat has made during it, the refusals
//! it was given, and the window of recent rows the host last refreshed for
//! `read`. The host writes the first and last and drains the middle two; the
//! server writes the middle two and reads the others. [`EpisodeTools::call`]
//! decides each call: check the caller, check the turn, read the call, record
//! it.
use vstd::prelude::*;

use crate::keyed::{lemma_map_values_insert, lemma_map_values_remove, Keyed};
use crate::speech::{
    clamped_limit, interpret, rejection_text, CallArguments, ToolCall, ToolSpec, Utterance,
    UtteranceRejection, ASK, ASK_TEAMMATES, BROADCAST, COMPLETE_EPISODE, DM, MESSAGE, POST,
    READ, TO,
};
use crate::text::{before, blank, holds, joined, views};

verus! {

/// The thread a registered turn is in, as the host told the seat.
#[derive(Debug, Eq, PartialEq)]
pub struct Dispatch {
    /// The chat -- desk or channel -- the turn is in.
    pub chat: String,
    /// The thread root, or `None` for the chat's own thread.
    pub parent: Option<String>,
}

impl Clone for Dispatch {
    fn clone(&self) -> (r: Self)
        ensures
            r == *self,
    {
        Dispatch {
            chat: self.chat.clone(),
            parent: match &self.parent {
                Some(p) => Some(p.clone()),
                None => None,
            },
        }
    }
}

/// One accepted call, as the host drains it.
#[derive(Clone, Debug, Eq, PartialEq)]
pub struct SeatEvent {
    /// The seat that called.
    pub seat: String,
    /// What it asked the room for, already read.
    pub call: ToolCall,
    /// The thread it named, checked against the registered turn.
    pub dispatch: Dispatch,
}

/// One refused call, as the host drains it.
#[derive(Clone, Debug, Eq, PartialEq)]
pub struct Refusal {
    /// The seat that called.
    pub seat: String,
    /// The tool it named.
    pub tool: String,
    /// The sentence it was given.
    pub reason: String,
}

/// The arguments of one call: the thread it names, beside what its tool
/// takes.
#[derive(Clone, Debug, Eq, PartialEq)]
pub struct Arguments {
    /// `chat`, as the call carried it.
    pub chat: Option<String>,
    /// `parent`, as the call carried it; `None` for null or absent.
    pub parent: Option<String>,
    /// The tool's own arguments.
    pub call: CallArguments,
}

/// How a call carried `to`.
pub enum ToValue {
    /// Not a text and not a list: no recipient.
    Absent,
    /// One id, as a text: a list of one.
    One(String),
    /// A list: its texts are the ids, anything else in it is passed over.
    Many(Vec<Option<String>>),
}

/// How a call carried `parent`.
pub enum ParentValue {
    /// `null`, absent, or neither text nor number: the chat's own thread.
    Absent,
    /// The root's sequence as text.
    Text(String),
    /// The root's sequence as a number, written out in decimal.
    Number(String),
}

/// The texts of `items`, in order, the rest passed over.
pub open spec fn texts_of(items: Seq<Option<String>>) -> Seq<Seq<char>>
    decreases items.len(),
{
    if items.len() == 0 {
        Seq::empty()
    } else {
        let earlier = texts_of(items.drop_last());
        match items.last() {
            Some(t) => earlier.push(t@),
            None => earlier,
        }
    }
}

/// The recipients `to` names.
pub open spec fn recipients_of(to: ToValue) -> Seq<Seq<char>> {
    match to {
        ToValue::Absent => Seq::empty(),
        ToValue::One(id) => seq![id@],
        ToValue::Many(items) => texts_of(items@),
    }
}

/// The thread root `parent` names, as text.
pub open spec fn parent_of(parent: ParentValue) -> Option<Seq<char>> {
    match parent {
        ParentValue::Absent => None,
        ParentValue::Text(t) => Some(t@),
        ParentValue::Number(n) => Some(n@),
    }
}

/// A call's arguments from what it carried: `chat` and `message` as given,
/// `to` as one id or a list of them, `parent` as text or a number written
/// out, and `limit`.
pub fn read_arguments(chat: Option<String>, parent: ParentValue, message: Option<String>, to: ToValue, limit: Option<u64>) -> (r: Arguments)
    ensures
        r.chat == chat,
        opt_view(r.parent) == parent_of(parent),
        r.call.message == message,
        views(r.call.to@) == recipients_of(to),
        r.call.limit == limit,
{
    let ghost to_view = recipients_of(to);
    let to = match to {
        ToValue::Absent => Vec::new(),
        ToValue::One(id) => {
            let mut v: Vec<String> = Vec::new();
            v.push(id);
            assert(views(v@) =~= to_view);
            v
        },
        ToValue::Many(items) => {
            let mut v: Vec<String> = Vec::new();
            let mut i: usize = 0;
            while i < items.len()
                invariant
                    i <= items@.len(),
                    views(v@) == texts_of(items@.take(i as int)),
                decreases items@.len() - i,
            {
                assert(items@.take(i + 1).drop_last() =~= items@.take(i as int));
                match &items[i] {
                    Some(t) => {
                        let ghost before = v@;
                        v.push(t.clone());
                        assert(views(v@) =~= views(before).push(t@));
                    },
                    None => {},
                }
                i = i + 1;
            }
            assert(items@.take(items@.len() as int) =~= items@);
            v
        },
    };
    let parent = match parent {
        ParentValue::Absent => None,
        ParentValue::Text(t) => Some(t),
        ParentValue::Number(n) => Some(n),
    };
    Arguments { chat, parent, call: CallArguments { message, to, limit } }
}

/// The server's memory, as its contracts speak of it.
pub struct ToolsState {
    /// The seats served, in id order.
    pub seats: Seq<Seq<char>>,
    /// The tools this host does not serve.
    pub withheld: Set<Seq<char>>,
    /// The open turn of each seat.
    pub turns: Map<Seq<char>, Dispatch>,
    /// The calls each seat made that were recorded, oldest first.
    pub inbox: Map<Seq<char>, Seq<SeatEvent>>,
    /// The refusals each seat was given, oldest first.
    pub refused: Map<Seq<char>, Seq<Refusal>>,
    /// The rows `read` may return to each seat, newest last.
    pub windows: Map<Seq<char>, Seq<String>>,
    /// The seats each seat is waiting on an answer from.
    pub awaiting: Map<Seq<char>, Seq<String>>,
    /// The names a person calls the seats by.
    pub names: Map<Seq<char>, Seq<char>>,
}

/// The list a map holds for `k`, or nothing.
pub open spec fn listed<T>(m: Map<Seq<char>, Seq<T>>, k: Seq<char>) -> Seq<T> {
    if m.contains_key(k) {
        m[k]
    } else {
        Seq::empty()
    }
}

/// The newest `limit` of `rows`, oldest first: all of them when there are
/// no more than that.
pub open spec fn newest<T>(rows: Seq<T>, limit: int) -> Seq<T> {
    if limit < rows.len() {
        rows.subrange(rows.len() - limit, rows.len() as int)
    } else {
        rows
    }
}

/// Strictly ascending in id order.
pub open spec fn ascending(s: Seq<Seq<char>>) -> bool {
    forall|i: int, j: int| 0 <= i < j < s.len() ==> before(s[i], s[j])
}

/// Whether `seat` is served.
pub open spec fn serves_seat(v: ToolsState, seat: Seq<char>) -> bool {
    v.seats.contains(seat)
}

/// What a person calls `seat`: its name, or its id when it has none.
pub open spec fn display(v: ToolsState, seat: Seq<char>) -> Seq<char> {
    if v.names.contains_key(seat) {
        v.names[seat]
    } else {
        seat
    }
}

/// `Name (id)` for a named seat, the bare id otherwise.
pub open spec fn with_id(v: ToolsState, seat: Seq<char>) -> Seq<char> {
    if display(v, seat) == seat {
        seat
    } else {
        display(v, seat) + " (id `"@ + seat + "`)"@
    }
}

/// `a`, `a and b`, `a, b and c`.
pub open spec fn roll(names: Seq<Seq<char>>) -> Seq<char> {
    if names.len() == 0 {
        Seq::empty()
    } else if names.len() == 1 {
        names[0]
    } else {
        joined(names.drop_last(), ", "@) + " and "@ + names.last()
    }
}

/// The names applied by `name_seats`, in order: a seat not served, or a
/// blank name, is passed over.
pub open spec fn apply_names(v: ToolsState, m: Map<Seq<char>, Seq<char>>, pairs: Seq<(&str, &str)>) -> Map<Seq<char>, Seq<char>>
    decreases pairs.len(),
{
    if pairs.len() == 0 {
        m
    } else {
        let earlier = apply_names(v, m, pairs.drop_last());
        let (seat, name) = pairs.last();
        if serves_seat(v, seat@) && !blank(name@) {
            earlier.insert(seat@, name@)
        } else {
            earlier
        }
    }
}

/// The tools served, whichever host serves them: the vocabulary but `post`
/// and `dm`.
pub open spec fn served(name: Seq<char>) -> bool {
    name == BROADCAST@ || name == ASK@ || name == ASK_TEAMMATES@ || name == COMPLETE_EPISODE@
        || name == READ@
}

/// The names among the first `n` of `tools`.
pub open spec fn named_in(tools: Seq<&str>, n: int) -> Set<Seq<char>> {
    Set::new(|t: Seq<char>| exists|k: int| 0 <= k < n && (#[trigger] tools[k])@ == t)
}

proof fn lemma_named_in_step(tools: Seq<&str>, n: int)
    requires
        0 <= n < tools.len(),
    ensures
        named_in(tools, n + 1) == named_in(tools, n).insert(tools[n]@),
{
    assert forall|t: Seq<char>| named_in(tools, n + 1).contains(t) == named_in(tools, n).insert(tools[n]@).contains(t) by {
        if named_in(tools, n + 1).contains(t) {
            let k = choose|k: int| 0 <= k < n + 1 && (#[trigger] tools[k])@ == t;
            if k < n {
                assert(named_in(tools, n).contains(t));
            }
        }
        if named_in(tools, n).contains(t) {
            let k = choose|k: int| 0 <= k < n && (#[trigger] tools[k])@ == t;
            assert(0 <= k < n + 1 && tools[k]@ == t);
        }
        if t == tools[n]@ {
            assert(0 <= n < n + 1 && tools[n]@ == t);
        }
    }
    assert(named_in(tools, n + 1) =~= named_in(tools, n).insert(tools[n]@));
}

/// The served tools, in the vocabulary's order.
pub open spec fn served_names() -> Seq<&'static str> {
    seq![BROADCAST, ASK, ASK_TEAMMATES, COMPLETE_EPISODE, READ]
}


/// The refusal of a call from a seat with no open turn.
pub const NO_TURN: &'static str = "no turn is open for you, so nothing you call now can be recorded";

/// The refusal of an ask from inside a conversation.
pub const IN_CONVERSATION: &'static str = "inside a conversation you answer the seat that asked you: call `complete_episode`, and its message is your answer. If you need another seat first, say so in that answer, and the seat that asked you will ask them.";

/// What follows the names of the seats a group ask reached.
pub const GROUP_SENT: &'static str = " is sent: they are in one conversation together and can read each other's answers. It reaches you on a later turn, once every one of them has answered; you cannot finish until it does, so end your turn when you have asked everything.";

/// What follows the name of the one seat an ask reached.
pub const ONE_SENT: &'static str = " is sent. Their answer reaches you on a later turn; you cannot finish until it does, so end your turn when you have asked everything.";

/// What follows the name of a seat asked again while its answer is owed.
pub const STILL_WAITING: &'static str = " and are still waiting: their answer reaches you on a later turn, and asking again opens a second conversation with them rather than hurrying the first. Ask whoever else you need without them, or end your turn.";

/// The acknowledgement of a broadcast.
pub const ROUTED: &'static str = "recorded: routing will place that with a seat";

/// The acknowledgement of a completion.
pub const COMPLETED: &'static str = "recorded: your assignment is complete";

/// The acknowledgement of a post.
pub const POSTED: &'static str = "posted to the desk";

/// An optional text, by its characters.
pub open spec fn opt_view(o: Option<String>) -> Option<Seq<char>> {
    match o {
        Some(s) => Some(s@),
        None => None,
    }
}

/// How a refusal writes a thread root: quoted, or `null`.
pub open spec fn parent_text(p: Option<String>) -> Seq<char> {
    match p {
        None => "null"@,
        Some(p) => "\""@ + p@ + "\""@,
    }
}

/// The refusal of a call that names another chat or thread than its turn.
pub open spec fn wrong_thread(d: Dispatch) -> Seq<char> {
    "every call in this turn carries \"chat\": \""@ + d.chat@ + "\" and \"parent\": "@
        + parent_text(d.parent) + ", exactly as your brief gave them"@
}

/// Whether a call names exactly the chat and thread of the turn.
pub open spec fn names_thread(args: Arguments, d: Dispatch) -> bool {
    &&& args.chat matches Some(c) && c@ == d.chat@
    &&& opt_view(args.parent) == opt_view(d.parent)
}

/// The first of `items` that `p` holds of, if any.
pub open spec fn first_of(items: Seq<String>, p: spec_fn(Seq<char>) -> bool) -> Option<String>
    decreases items.len(),
{
    if items.len() == 0 {
        None
    } else if p(items[0]@) {
        Some(items[0])
    } else {
        first_of(items.drop_first(), p)
    }
}

proof fn lemma_first_of_step(items: Seq<String>, p: spec_fn(Seq<char>) -> bool, i: int)
    requires
        0 <= i < items.len(),
    ensures
        first_of(items.skip(i), p) == (if p(items[i]@) {
            Some(items[i])
        } else {
            first_of(items.skip(i + 1), p)
        }),
{
    assert(items.skip(i)[0] == items[i]);
    assert(items.skip(i).drop_first() =~= items.skip(i + 1));
}

/// The seats a refusal offers: every served seat, with its id beside its
/// name.
pub open spec fn askable(v: ToolsState) -> Seq<char> {
    joined(v.seats.map_values(|s: Seq<char>| with_id(v, s)), ", "@)
}

/// What an ask of `to` from `seat` is answered.
pub open spec fn ask_answer(v: ToolsState, seat: Seq<char>, to: Seq<String>) -> Result<Seq<char>, Seq<char>> {
    if holds(to, seat) {
        Err(crate::speech::SELF_RECIPIENT@)
    } else {
        match first_of(to, |id: Seq<char>| !serves_seat(v, id)) {
            Some(stranger) => Err(
                rejection_text(UtteranceRejection::UnknownRecipient { id: stranger }) + ". You can ask: "@
                    + askable(v),
            ),
            None => match first_of(to, |id: Seq<char>| holds(listed(v.awaiting, seat), id)) {
                Some(held) => Err("you already asked "@ + display(v, held@) + STILL_WAITING@),
                None => Ok(
                    "your question to "@ + roll(views(to).map_values(|id: Seq<char>| display(v, id))) + if to.len()
                        > 1 {
                        GROUP_SENT@
                    } else {
                        ONE_SENT@
                    },
                ),
            },
        }
    }
}

/// What a call from `seat` to `name` with `args` is answered: the text the
/// seat reads back, or the refusal it reads.
///
/// In order: the caller must be served and have a turn open; the call must
/// name that turn's chat and thread; the tool must be served and not
/// withheld; inside a conversation a seat may not ask; the call must read
/// as its tool; an ask may not name its asker, a seat not served, or a seat
/// already waited on.
pub open spec fn answer(v: ToolsState, seat: Seq<char>, name: Seq<char>, args: Arguments) -> Result<Seq<char>, Seq<char>> {
    if !serves_seat(v, seat) {
        Err("no seat named `"@ + seat + "` is served here"@)
    } else if !v.turns.contains_key(seat) {
        Err(NO_TURN@)
    } else if !names_thread(args, v.turns[seat]) {
        Err(wrong_thread(v.turns[seat]))
    } else if !served(name) || v.withheld.contains(name) {
        Err("unknown tool "@ + name)
    } else if v.turns[seat].parent is Some && (name == ASK@ || name == ASK_TEAMMATES@) {
        Err(IN_CONVERSATION@)
    } else {
        match crate::speech::refusal_of(name, args.call) {
            Some(text) => Err(text),
            None => if name == READ@ {
                Ok(joined(views(newest(listed(v.windows, seat), clamped_limit(args.call.limit))), "\n"@))
            } else if name == ASK@ || name == ASK_TEAMMATES@ {
                ask_answer(v, seat, args.call.to@)
            } else if name == BROADCAST@ {
                Ok(ROUTED@)
            } else {
                Ok(COMPLETED@)
            },
        }
    }
}

/// Whether `event` is the record of an accepted call from `seat` to `name`
/// with `args`, in the turn `v` holds open for it.
pub open spec fn records(v: ToolsState, seat: Seq<char>, name: Seq<char>, args: Arguments, event: SeatEvent) -> bool {
    &&& event.seat@ == seat
    &&& event.dispatch == v.turns[seat]
    &&& crate::speech::interprets(name, args.call, Ok(event.call))
}

/// A result's texts, by their characters.
pub open spec fn text_result(r: Result<String, String>) -> Result<Seq<char>, Seq<char>> {
    match r {
        Ok(t) => Ok(t@),
        Err(t) => Err(t@),
    }
}

/// The server's memory. Shared with the host, which opens and closes turns
/// and drains what each seat called.
#[derive(Debug)]
pub struct EpisodeTools {
    seats: Vec<String>,
    withheld: Vec<String>,
    open: Keyed<Dispatch>,
    inbox: Keyed<Vec<SeatEvent>>,
    refused: Keyed<Vec<Refusal>>,
    windows: Keyed<Vec<String>>,
    awaiting: Keyed<Vec<String>>,
    names: Keyed<String>,
}

impl View for EpisodeTools {
    type V = ToolsState;

    closed spec fn view(&self) -> ToolsState {
        ToolsState {
            seats: views(self.seats@),
            withheld: views(self.withheld@).to_set(),
            turns: self.open.map(),
            inbox: self.inbox.map().map_values(|l: Vec<SeatEvent>| l@),
            refused: self.refused.map().map_values(|l: Vec<Refusal>| l@),
            windows: self.windows.map().map_values(|l: Vec<String>| l@),
            awaiting: self.awaiting.map().map_values(|l: Vec<String>| l@),
            names: self.names.map().map_values(|n: String| n@),
        }
    }
}

/// Put `seat` into the ascending list `seats`, once.
fn insert_seat(seats: &mut Vec<String>, seat: &str)
    requires
        ascending(views(old(seats)@)),
    ensures
        ascending(views(final(seats)@)),
        views(final(seats)@).to_set() == views(old(seats)@).to_set().insert(seat@),
{
    let ghost start = views(seats@);
    let mut p: usize = 0;
    while p < seats.len() && crate::text::precedes(seats[p].as_str(), seat)
        invariant
            p <= seats@.len(),
            views(seats@) == start,
            forall|i: int| 0 <= i < p ==> before(start[i], seat@),
        decreases seats@.len() - p,
    {
        p = p + 1;
    }
    if p < seats.len() && crate::text::same(seats[p].as_str(), seat) {
        assert(start.to_set().insert(seat@) =~= start.to_set()) by {
            assert(start[p as int] == seat@);
        }
        return;
    }
    seats.insert(p, seat.to_owned());
    let ghost after = views(seats@);
    assert(after =~= start.insert(p as int, seat@));
    proof {
        if p < start.len() {
            crate::text::lemma_before_total(start[p as int], seat@);
            assert(before(seat@, start[p as int]));
        }
        assert forall|i: int, j: int| 0 <= i < j < after.len() implies before(after[i], after[j]) by {
            if j < p {
            } else if i < p && j == p {
            } else if i < p && j > p {
                assert(before(start[i], seat@));
                crate::text::lemma_before_transitive(start[i], seat@, start[p as int]);
                if j - 1 > p {
                    crate::text::lemma_before_transitive(start[i], start[p as int], start[j - 1]);
                }
            } else if i == p {
                if j - 1 > p {
                    crate::text::lemma_before_transitive(seat@, start[p as int], start[j - 1]);
                }
            } else {
            }
        }
        assert(after.to_set() =~= start.to_set().insert(seat@)) by {
            assert forall|x: Seq<char>| after.to_set().contains(x) == start.to_set().insert(seat@).contains(x) by {
                if after.contains(x) {
                    let k = choose|k: int| 0 <= k < after.len() && after[k] == x;
                    if k < p {
                        assert(start[k] == x);
                    } else if k > p {
                        assert(start[k - 1] == x);
                    }
                }
                if start.contains(x) {
                    let k = choose|k: int| 0 <= k < start.len() && start[k] == x;
                    if k < p {
                        assert(after[k] == x);
                    } else {
                        assert(after[k + 1] == x);
                    }
                }
                if x == seat@ {
                    assert(after[p as int] == x);
                }
            }
        }
    }
}

impl EpisodeTools {
    /// Every part of the memory is well kept: each map holds a key once, and
    /// the seats are in id order.
    pub closed spec fn wf(&self) -> bool {
        &&& ascending(views(self.seats@))
        &&& self.open.wf()
        &&& self.inbox.wf()
        &&& self.refused.wf()
        &&& self.windows.wf()
        &&& self.awaiting.wf()
        &&& self.names.wf()
    }

    /// The seats this server serves.
    ///
    /// Only a listed seat can call, and `ask` may name only a listed seat.
    pub fn new(seats: &[&str]) -> (r: Self)
        ensures
            r.wf(),
            ascending(r@.seats),
            forall|x: Seq<char>| r@.seats.contains(x) <==> exists|i: int| 0 <= i < seats@.len() && (#[trigger] seats@[i])@ == x,
            r@.withheld == Set::<Seq<char>>::empty(),
            r@.turns == Map::<Seq<char>, Dispatch>::empty(),
            r@.inbox == Map::<Seq<char>, Seq<SeatEvent>>::empty(),
            r@.refused == Map::<Seq<char>, Seq<Refusal>>::empty(),
            r@.windows == Map::<Seq<char>, Seq<String>>::empty(),
            r@.awaiting == Map::<Seq<char>, Seq<String>>::empty(),
            r@.names == Map::<Seq<char>, Seq<char>>::empty(),
    {
        let mut list: Vec<String> = Vec::new();
        let mut i: usize = 0;
        assert(views(list@).to_set() =~= Set::<Seq<char>>::empty());
        while i < seats.len()
            invariant
                i <= seats@.len(),
                ascending(views(list@)),
                forall|x: Seq<char>| views(list@).to_set().contains(x) <==> exists|k: int| 0 <= k < i && (#[trigger] seats@[k])@ == x,
            decreases seats@.len() - i,
        {
            insert_seat(&mut list, seats[i]);
            proof {
                assert forall|x: Seq<char>| views(list@).to_set().contains(x) <==> exists|k: int| 0 <= k < i + 1 && (#[trigger] seats@[k])@ == x by {
                    if x == seats@[i as int]@ {
                    } else if views(list@).to_set().contains(x) {
                        let k = choose|k: int| 0 <= k < i && (#[trigger] seats@[k])@ == x;
                    } else {
                        if exists|k: int| 0 <= k < i + 1 && (#[trigger] seats@[k])@ == x {
                            let k = choose|k: int| 0 <= k < i + 1 && (#[trigger] seats@[k])@ == x;
                            assert(k < i);
                        }
                    }
                }
            }
            i = i + 1;
        }
        let r = EpisodeTools {
            seats: list,
            withheld: Vec::new(),
            open: Keyed::new(),
            inbox: Keyed::new(),
            refused: Keyed::new(),
            windows: Keyed::new(),
            awaiting: Keyed::new(),
            names: Keyed::new(),
        };
        proof {
            assert(r@.withheld =~= Set::<Seq<char>>::empty());
            assert(r@.inbox =~= Map::<Seq<char>, Seq<SeatEvent>>::empty());
            assert(r@.refused =~= Map::<Seq<char>, Seq<Refusal>>::empty());
            assert(r@.windows =~= Map::<Seq<char>, Seq<String>>::empty());
            assert(r@.awaiting =~= Map::<Seq<char>, Seq<String>>::empty());
            assert(r@.names =~= Map::<Seq<char>, Seq<char>>::empty());
            assert forall|x: Seq<char>| r@.seats.contains(x) <==> exists|k: int| 0 <= k < seats@.len() && (#[trigger] seats@[k])@ == x by {
                assert(r@.seats.to_set().contains(x) == r@.seats.contains(x));
            }
        }
        r
    }


    /// Give the served seats the names a person calls them by. A seat this
    /// server does not serve is ignored, a blank name is none, and a seat
    /// left unnamed keeps its id.
    pub fn name_seats(&mut self, pairs: &[(&str, &str)])
        requires
            old(self).wf(),
        ensures
            final(self).wf(),
            final(self)@ == (ToolsState { names: apply_names(old(self)@, old(self)@.names, pairs@), ..old(self)@ }),
    {
        let ghost start = self@;
        let mut i: usize = 0;
        while i < pairs.len()
            invariant
                i <= pairs@.len(),
                self.wf(),
                self@ == (ToolsState { names: apply_names(start, start.names, pairs@.take(i as int)), ..start }),
            decreases pairs@.len() - i,
        {
            let (seat, name) = pairs[i];
            assert(pairs@.take(i + 1).drop_last() =~= pairs@.take(i as int));
            assert(pairs@.take(i + 1).last() == pairs@[i as int]);
            if self.knows(seat) && !crate::text::is_blank(name) {
                let ghost before = self.names.map();
                let owned = name.to_owned();
                proof {
                    lemma_map_values_insert(before, seat@, owned, |n: String| n@);
                }
                self.names.insert(seat, owned);
                assert(self@.names =~= apply_names(start, start.names, pairs@.take(i + 1)));
            }
            i = i + 1;
        }
        assert(pairs@.take(pairs@.len() as int) =~= pairs@);
    }

    /// What a person calls `seat`: its name, or its id when it has none.
    pub fn display_name(&self, seat: &str) -> (r: String)
        requires
            self.wf(),
        ensures
            r@ == display(self@, seat@),
    {
        match self.names.get(seat) {
            Some(name) => name.clone(),
            None => seat.to_owned(),
        }
    }

    /// Do not serve these tools, by name. A withheld tool is not offered by
    /// [`specs`](Self::specs), and is refused as an unknown tool if called.
    pub fn withhold(self, tools: &[&str]) -> (r: Self)
        requires
            self.wf(),
        ensures
            r.wf(),
            r@ == (ToolsState { withheld: self@.withheld.union(named_in(tools@, tools@.len() as int)), ..self@ }),
    {
        let mut this = self;
        let mut i: usize = 0;
        let ghost start = this@;
        assert(start.withheld.union(named_in(tools@, 0)) =~= start.withheld);
        while i < tools.len()
            invariant
                i <= tools@.len(),
                this.wf(),
                this@ == (ToolsState { withheld: start.withheld.union(named_in(tools@, i as int)), ..start }),
            decreases tools@.len() - i,
        {
            let ghost before = this.withheld@;
            this.withheld.push(tools[i].to_owned());
            proof {
                assert(views(this.withheld@) =~= views(before).push(tools@[i as int]@));
                crate::text::lemma_push_to_set(views(before), tools@[i as int]@);
                lemma_named_in_step(tools@, i as int);
                assert(this@.withheld =~= start.withheld.union(named_in(tools@, i + 1)));
            }
            i = i + 1;
        }
        this
    }

    /// Whether `tool` is withheld here.
    fn is_withheld(&self, tool: &str) -> (r: bool)
        ensures
            r == self@.withheld.contains(tool@),
    {
        let r = crate::text::contains(&self.withheld, tool);
        proof {
            if r {
                let i = choose|i: int| 0 <= i < self.withheld@.len() && (#[trigger] self.withheld@[i])@ == tool@;
                assert(views(self.withheld@)[i] == tool@);
            }
            if self@.withheld.contains(tool@) {
                let i = choose|i: int| 0 <= i < views(self.withheld@).len() && views(self.withheld@)[i] == tool@;
                assert(self.withheld@[i]@ == tool@);
            }
        }
        r
    }

    /// The specs this host serves, in the vocabulary's order: the served
    /// tools minus what it withheld, each as the vocabulary describes it. A
    /// host renders its seats' standing contract from these.
    pub fn specs(&self) -> (r: Vec<ToolSpec>)
        ensures
            crate::speech::names_of(r@) == served_names().filter(|n: &'static str| !self@.withheld.contains(n@)),
            forall|i: int| 0 <= i < r@.len() ==> crate::speech::describes(#[trigger] r@[i]),
    {
        let all = crate::speech::tool_specs();
        let ghost keep = |n: &'static str| !self@.withheld.contains(n@);
        let mut r: Vec<ToolSpec> = Vec::new();
        let mut i: usize = 0;
        let picks: [usize; 5] = [1, 3, 4, 5, 6];
        assert(crate::speech::names_of(all@).len() == all@.len());
        assert(all@.len() == 7);
        assert(all@[1].name == crate::speech::names_of(all@)[1]);
        assert(all@[3].name == crate::speech::names_of(all@)[3]);
        assert(all@[4].name == crate::speech::names_of(all@)[4]);
        assert(all@[5].name == crate::speech::names_of(all@)[5]);
        assert(all@[6].name == crate::speech::names_of(all@)[6]);
        assert(crate::speech::names_of(all@)[1] == BROADCAST);
        assert(crate::speech::names_of(all@)[3] == ASK);
        assert(crate::speech::names_of(all@)[4] == ASK_TEAMMATES);
        assert(crate::speech::names_of(all@)[5] == COMPLETE_EPISODE);
        assert(crate::speech::names_of(all@)[6] == READ);
        while i < 5
            invariant
                i <= 5,
                crate::speech::is_vocabulary(all@),
                all@.len() == 7,
                keep == (|n: &'static str| !self@.withheld.contains(n@)),
                picks@ == seq![1usize, 3usize, 4usize, 5usize, 6usize],
                forall|k: int| 0 <= k < 5 ==> all@[picks@[k] as int].name == #[trigger] served_names()[k],
                crate::speech::names_of(r@) == served_names().take(i as int).filter(keep),
                forall|k: int| 0 <= k < r@.len() ==> crate::speech::describes(#[trigger] r@[k]),
            decreases 5 - i,
        {
            assert(picks@[i as int] < 7);
            let spec = all[picks[i]].clone();
            assert(served_names().take(i + 1).drop_last() =~= served_names().take(i as int));
            assert(crate::speech::describes(all@[picks@[i as int] as int]));
            let ghost before = r@;
            proof {
                reveal_with_fuel(Seq::<&'static str>::filter, 1);
                assert(served_names().take(i + 1).last() == served_names()[i as int]);
                assert(spec.name == served_names()[i as int]);
                let x = served_names()[i as int];
                assert(served_names().take(i + 1).filter(keep) == (if keep(x) {
                    served_names().take(i as int).filter(keep).push(x)
                } else {
                    served_names().take(i as int).filter(keep)
                }));
            }
            if !self.is_withheld(spec.name) {
                r.push(spec);
                assert(crate::speech::names_of(r@) =~= crate::speech::names_of(before).push(served_names()[i as int]));
            } else {
                assert(!keep(served_names()[i as int]));
            }
            assert(crate::speech::names_of(r@) == served_names().take(i + 1).filter(keep));
            i = i + 1;
        }
        assert(served_names().take(5) =~= served_names());
        r
    }

    /// Record that the host is about to run `seat` for a turn in `dispatch`.
    ///
    /// Until [`clear`](Self::clear), calls from that seat must name this chat
    /// and thread, and calls from a seat with no registered turn are refused.
    pub fn register(&mut self, seat: &str, dispatch: Dispatch)
        requires
            old(self).wf(),
        ensures
            final(self).wf(),
            final(self)@ == (ToolsState { turns: old(self)@.turns.insert(seat@, dispatch), ..old(self)@ }),
    {
        self.open.insert(seat, dispatch);
    }

    /// Record that `seat`'s turn has ended.
    pub fn clear(&mut self, seat: &str)
        requires
            old(self).wf(),
        ensures
            final(self).wf(),
            final(self)@ == (ToolsState { turns: old(self)@.turns.remove(seat@), ..old(self)@ }),
    {
        let _ = self.open.remove(seat);
    }

    /// The turn registered for `seat`, if one is open.
    pub fn open_turn(&self, seat: &str) -> (r: Option<Dispatch>)
        requires
            self.wf(),
        ensures
            r == (if self@.turns.contains_key(seat@) { Some(self@.turns[seat@]) } else { None::<Dispatch> }),
    {
        match self.open.get(seat) {
            Some(dispatch) => Some(dispatch.clone()),
            None => None,
        }
    }

    /// Replace the rows `read` may return to `seat`, newest last: a snapshot
    /// the host refreshes before a turn.
    pub fn window(&mut self, seat: &str, rows: Vec<String>)
        requires
            old(self).wf(),
        ensures
            final(self).wf(),
            final(self)@ == (ToolsState { windows: old(self)@.windows.insert(seat@, rows@), ..old(self)@ }),
    {
        let ghost before = self.windows.map();
        proof {
            lemma_map_values_insert(before, seat@, rows, |l: Vec<String>| l@);
        }
        self.windows.insert(seat, rows);
    }

    /// Replace the seats `seat` is waiting on an answer from: a snapshot the
    /// host refreshes before a turn, since the ledger that knows this lives
    /// in the driver. What it buys is a refusal rather than a duplicate
    /// conversation.
    pub fn awaiting(&mut self, seat: &str, seats: Vec<String>)
        requires
            old(self).wf(),
        ensures
            final(self).wf(),
            final(self)@ == (ToolsState { awaiting: old(self)@.awaiting.insert(seat@, seats@), ..old(self)@ }),
    {
        let ghost before = self.awaiting.map();
        proof {
            lemma_map_values_insert(before, seat@, seats, |l: Vec<String>| l@);
        }
        self.awaiting.insert(seat, seats);
    }

    /// Whether `seat` has already asked `other` and is still waiting.
    fn awaits(&self, seat: &str, other: &str) -> (r: bool)
        requires
            self.wf(),
        ensures
            r == holds(listed(self@.awaiting, seat@), other@),
    {
        match self.awaiting.get(seat) {
            Some(seats) => crate::text::contains(seats, other),
            None => false,
        }
    }

    /// The newest `limit` rows of `seat`'s window, oldest first.
    pub fn recent(&self, seat: &str, limit: usize) -> (r: Vec<String>)
        requires
            self.wf(),
        ensures
            r@ == newest(listed(self@.windows, seat@), limit as int),
    {
        match self.windows.get(seat) {
            None => Vec::new(),
            Some(rows) => {
                let n = rows.len();
                let start = if limit < n { n - limit } else { 0 };
                let mut r: Vec<String> = Vec::new();
                let mut i = start;
                while i < n
                    invariant
                        n == rows@.len(),
                        start <= i <= n,
                        r@ == rows@.subrange(start as int, i as int),
                    decreases n - i,
                {
                    r.push(rows[i].clone());
                    assert(r@ =~= rows@.subrange(start as int, i + 1));
                    i = i + 1;
                }
                r
            },
        }
    }

    /// Take everything `seat` called during its turn, oldest first.
    pub fn drain(&mut self, seat: &str) -> (r: Vec<SeatEvent>)
        requires
            old(self).wf(),
        ensures
            final(self).wf(),
            r@ == listed(old(self)@.inbox, seat@),
            final(self)@ == (ToolsState { inbox: old(self)@.inbox.remove(seat@), ..old(self)@ }),
    {
        let ghost before = self.inbox.map();
        proof {
            lemma_map_values_remove(before, seat@, |l: Vec<SeatEvent>| l@);
        }
        match self.inbox.remove(seat) {
            Some(events) => events,
            None => Vec::new(),
        }
    }

    /// Take every refusal `seat` was given during its turn, oldest first.
    pub fn drain_refusals(&mut self, seat: &str) -> (r: Vec<Refusal>)
        requires
            old(self).wf(),
        ensures
            final(self).wf(),
            r@ == listed(old(self)@.refused, seat@),
            final(self)@ == (ToolsState { refused: old(self)@.refused.remove(seat@), ..old(self)@ }),
    {
        let ghost before = self.refused.map();
        proof {
            lemma_map_values_remove(before, seat@, |l: Vec<Refusal>| l@);
        }
        match self.refused.remove(seat) {
            Some(refusals) => refusals,
            None => Vec::new(),
        }
    }

    /// Keep the host's copy of a refusal `seat` was given.
    fn refuse(&mut self, seat: &str, tool: &str, reason: String)
        requires
            old(self).wf(),
        ensures
            final(self).wf(),
            final(self)@ == (ToolsState {
                refused: old(self)@.refused.insert(seat@, listed(old(self)@.refused, seat@).push(
                    Refusal { seat: final(self)@.refused[seat@].last().seat, tool: final(self)@.refused[seat@].last().tool, reason },
                )),
                ..old(self)@
            }),
            final(self)@.refused[seat@].last().seat@ == seat@,
            final(self)@.refused[seat@].last().tool@ == tool@,
    {
        let ghost before = self.refused.map();
        let mut list = match self.refused.remove(seat) {
            Some(list) => list,
            None => Vec::new(),
        };
        let refusal = Refusal { seat: seat.to_owned(), tool: tool.to_owned(), reason };
        list.push(refusal);
        let ghost pushed = list;
        self.refused.insert(seat, list);
        proof {
            lemma_map_values_remove(before, seat@, |l: Vec<Refusal>| l@);
            lemma_map_values_insert(before.remove(seat@), seat@, pushed, |l: Vec<Refusal>| l@);
            assert(before.remove(seat@).insert(seat@, pushed) =~= before.insert(seat@, pushed));
            lemma_map_values_insert(before, seat@, pushed, |l: Vec<Refusal>| l@);
        }
    }

    /// Add one accepted call to its seat's inbox.
    pub fn record(&mut self, event: SeatEvent)
        requires
            old(self).wf(),
        ensures
            final(self).wf(),
            final(self)@ == (ToolsState {
                inbox: old(self)@.inbox.insert(event.seat@, listed(old(self)@.inbox, event.seat@).push(event)),
                ..old(self)@
            }),
    {
        let ghost before = self.inbox.map();
        let ghost key = event.seat@;
        let seat = event.seat.clone();
        let mut list = match self.inbox.remove(seat.as_str()) {
            Some(list) => list,
            None => Vec::new(),
        };
        list.push(event);
        let ghost pushed = list;
        self.inbox.insert(seat.as_str(), list);
        proof {
            assert(before.remove(key).insert(key, pushed) =~= before.insert(key, pushed));
            lemma_map_values_insert(before, key, pushed, |l: Vec<SeatEvent>| l@);
        }
    }


    /// `Name (id)` for a named seat, the bare id otherwise: how a reply
    /// lists the seats a call may name.
    fn with_id(&self, seat: &str) -> (r: String)
        requires
            self.wf(),
        ensures
            r@ == with_id(self@, seat@),
    {
        let name = self.display_name(seat);
        if crate::text::same(name.as_str(), seat) {
            seat.to_owned()
        } else {
            let mut r = name;
            r.append(" (id `");
            r.append(seat);
            r.append("`)");
            r
        }
    }

    /// The display names of `seats`, as a person would read them out:
    /// `a`, `a and b`, `a, b and c`.
    fn roll_call(&self, seats: &Vec<String>) -> (r: String)
        requires
            self.wf(),
        ensures
            r@ == roll(views(seats@).map_values(|id: Seq<char>| display(self@, id))),
    {
        let ghost named_all = views(seats@).map_values(|id: Seq<char>| display(self@, id));
        let mut named: Vec<String> = Vec::new();
        let mut i: usize = 0;
        while i < seats.len()
            invariant
                i <= seats@.len(),
                self.wf(),
                named_all == views(seats@).map_values(|id: Seq<char>| display(self@, id)),
                views(named@) == named_all.take(i as int),
            decreases seats@.len() - i,
        {
            let ghost before = named@;
            let shown = self.display_name(seats[i].as_str());
            named.push(shown);
            assert(views(seats@)[i as int] == seats@[i as int]@);
            assert(named_all[i as int] == display(self@, seats@[i as int]@));
            assert(views(named@) =~= views(before).push(shown@));
            assert(named_all.take(i + 1) =~= named_all.take(i as int).push(named_all[i as int]));
            i = i + 1;
        }
        assert(named_all.take(seats@.len() as int) =~= named_all);
        let n = named.len();
        if n == 0 {
            return String::new();
        }
        if n == 1 {
            return named[0].clone();
        }
        let mut rest: Vec<String> = Vec::new();
        let mut k: usize = 0;
        while k < n - 1
            invariant
                n == named@.len(),
                n >= 2,
                k <= n - 1,
                rest@ == named@.take(k as int),
            decreases n - 1 - k,
        {
            rest.push(named[k].clone());
            assert(rest@ =~= named@.take(k + 1));
            k = k + 1;
        }
        assert(views(rest@) =~= views(named@).drop_last());
        let mut r = crate::text::join(&rest, ", ");
        r.append(" and ");
        r.append(named[n - 1].as_str());
        r
    }

    /// Every served seat with its id beside its name, comma-separated.
    fn askable(&self) -> (r: String)
        requires
            self.wf(),
        ensures
            r@ == askable(self@),
    {
        let ghost all = self@.seats.map_values(|s: Seq<char>| with_id(self@, s));
        let mut listed: Vec<String> = Vec::new();
        let mut i: usize = 0;
        while i < self.seats.len()
            invariant
                i <= self.seats@.len(),
                self.wf(),
                all == self@.seats.map_values(|s: Seq<char>| with_id(self@, s)),
                views(listed@) == all.take(i as int),
            decreases self.seats@.len() - i,
        {
            let ghost before = listed@;
            let entry = self.with_id(self.seats[i].as_str());
            listed.push(entry);
            assert(self@.seats[i as int] == self.seats@[i as int]@);
            assert(all[i as int] == with_id(self@, self@.seats[i as int]));
            assert(views(listed@) =~= views(before).push(entry@));
            assert(all.take(i + 1) =~= all.take(i as int).push(all[i as int]));
            i = i + 1;
        }
        assert(all.take(self.seats@.len() as int) =~= all);
        crate::text::join(&listed, ", ")
    }

    /// The first of `to` this server does not serve.
    fn first_stranger(&self, to: &Vec<String>) -> (r: Option<usize>)
        requires
            self.wf(),
        ensures
            match first_of(to@, |id: Seq<char>| !serves_seat(self@, id)) {
                Some(s) => r matches Some(i) && i < to@.len() && to@[i as int] == s,
                None => r is None,
            },
    {
        let ghost p = |id: Seq<char>| !serves_seat(self@, id);
        let mut i: usize = 0;
        assert(to@.skip(0) =~= to@);
        while i < to.len()
            invariant
                i <= to@.len(),
                self.wf(),
                p == (|id: Seq<char>| !serves_seat(self@, id)),
                first_of(to@, p) == first_of(to@.skip(i as int), p),
            decreases to@.len() - i,
        {
            proof {
                lemma_first_of_step(to@, p, i as int);
            }
            if !self.knows(to[i].as_str()) {
                return Some(i);
            }
            i = i + 1;
        }
        None
    }

    /// The first of `to` that `seat` is already waiting on.
    fn first_held(&self, seat: &str, to: &Vec<String>) -> (r: Option<usize>)
        requires
            self.wf(),
        ensures
            match first_of(to@, |id: Seq<char>| holds(listed(self@.awaiting, seat@), id)) {
                Some(s) => r matches Some(i) && i < to@.len() && to@[i as int] == s,
                None => r is None,
            },
    {
        let ghost p = |id: Seq<char>| holds(listed(self@.awaiting, seat@), id);
        let mut i: usize = 0;
        assert(to@.skip(0) =~= to@);
        while i < to.len()
            invariant
                i <= to@.len(),
                self.wf(),
                p == (|id: Seq<char>| holds(listed(self@.awaiting, seat@), id)),
                first_of(to@, p) == first_of(to@.skip(i as int), p),
            decreases to@.len() - i,
        {
            proof {
                lemma_first_of_step(to@, p, i as int);
            }
            if self.awaits(seat, to[i].as_str()) {
                return Some(i);
            }
            i = i + 1;
        }
        None
    }

    /// The answer to an ask of `to` from `seat`.
    fn ask_answer(&self, seat: &str, to: &Vec<String>) -> (r: Result<String, String>)
        requires
            self.wf(),
        ensures
            text_result(r) == ask_answer(self@, seat@, to@),
    {
        if crate::text::contains(to, seat) {
            return Err(crate::speech::SELF_RECIPIENT.to_owned());
        }
        if let Some(i) = self.first_stranger(to) {
            let mut text = UtteranceRejection::UnknownRecipient { id: to[i].clone() }.reason();
            text.append(". You can ask: ");
            let seats = self.askable();
            text.append(seats.as_str());
            return Err(text);
        }
        if let Some(i) = self.first_held(seat, to) {
            let mut text = "you already asked ".to_owned();
            let name = self.display_name(to[i].as_str());
            text.append(name.as_str());
            text.append(STILL_WAITING);
            return Err(text);
        }
        let mut text = "your question to ".to_owned();
        let asked = self.roll_call(to);
        text.append(asked.as_str());
        if to.len() > 1 {
            text.append(GROUP_SENT);
        } else {
            text.append(ONE_SENT);
        }
        Ok(text)
    }

    /// The refusal of a call naming another thread than `dispatch`.
    fn wrong_thread(dispatch: &Dispatch) -> (r: String)
        ensures
            r@ == wrong_thread(*dispatch),
    {
        let mut text = "every call in this turn carries \"chat\": \"".to_owned();
        text.append(dispatch.chat.as_str());
        text.append("\" and \"parent\": ");
        match &dispatch.parent {
            None => text.append("null"),
            Some(parent) => {
                text.append("\"");
                text.append(parent.as_str());
                text.append("\"");
            },
        }
        text.append(", exactly as your brief gave them");
        text
    }

    /// The decision behind [`call`](Self::call): the text the seat reads,
    /// and the event to record when the call is accepted as speech.
    fn decide(&self, seat: &str, name: &str, args: &Arguments) -> (r: (Result<String, String>, Option<SeatEvent>))
        requires
            self.wf(),
        ensures
            text_result(r.0) == answer(self@, seat@, name@, *args),
            match r.1 {
                Some(event) => r.0 is Ok && name@ != READ@ && records(self@, seat@, name@, *args, event),
                None => r.0 is Err || name@ == READ@,
            },
    {
        proof {
            crate::speech::lemma_names_distinct();
        }
        if !self.knows(seat) {
            let mut text = "no seat named `".to_owned();
            text.append(seat);
            text.append("` is served here");
            return (Err(text), None);
        }
        let dispatch = match self.open_turn(seat) {
            Some(dispatch) => dispatch,
            None => { return (Err(NO_TURN.to_owned()), None); },
        };
        let chat_named = match &args.chat {
            Some(chat) => crate::text::same(chat.as_str(), dispatch.chat.as_str()),
            None => false,
        };
        let parent_named = match (&args.parent, &dispatch.parent) {
            (None, None) => true,
            (Some(a), Some(b)) => crate::text::same(a.as_str(), b.as_str()),
            _ => false,
        };
        if !chat_named || !parent_named {
            return (Err(Self::wrong_thread(&dispatch)), None);
        }
        let is_ask = crate::text::same(name, ASK);
        let is_group = crate::text::same(name, ASK_TEAMMATES);
        let is_read = crate::text::same(name, READ);
        let is_broadcast = crate::text::same(name, BROADCAST);
        let is_complete = crate::text::same(name, COMPLETE_EPISODE);
        let serves = is_ask || is_group || is_read || is_broadcast || is_complete;
        if !serves || self.is_withheld(name) {
            return (Err(UtteranceRejection::UnknownTool { name: name.to_owned() }.reason()), None);
        }
        if dispatch.parent.is_some() && (is_ask || is_group) {
            return (Err(IN_CONVERSATION.to_owned()), None);
        }
        let call = match interpret(name, &args.call) {
            Ok(call) => call,
            Err(rejection) => { return (Err(rejection.reason()), None); },
        };
        let text = match &call {
            ToolCall::Read { limit } => {
                let rows = self.recent(seat, *limit);
                return (Ok(crate::text::join(&rows, "\n")), None);
            },
            ToolCall::Speak(Utterance::Ask { to, .. }) => match self.ask_answer(seat, to) {
                Ok(text) => text,
                Err(text) => { return (Err(text), None); },
            },
            ToolCall::Speak(Utterance::Post { .. }) => POSTED.to_owned(),
            ToolCall::Speak(Utterance::Broadcast { .. }) => ROUTED.to_owned(),
            ToolCall::Speak(Utterance::CompleteEpisode { .. }) => COMPLETED.to_owned(),
            ToolCall::Speak(Utterance::Dm { .. }) => {
                return (Err(UtteranceRejection::UnknownTool { name: name.to_owned() }.reason()), None);
            },
        };
        let event = SeatEvent { seat: seat.to_owned(), call, dispatch };
        (Ok(text), Some(event))
    }

    /// One call from `seat`, however it arrived: check the caller, check the
    /// turn, read the call, record it.
    ///
    /// `Ok` is the text the seat reads back: an acknowledgement, or for
    /// `read` the rows. `Err` is a refusal; nothing is recorded on a refusal
    /// but the host's copy of it.
    ///
    /// # Errors
    ///
    /// The refusal text, for the seat to read inside its own turn.
    pub fn call(&mut self, seat: &str, name: &str, args: &Arguments) -> (r: Result<String, String>)
        requires
            old(self).wf(),
        ensures
            final(self).wf(),
            text_result(r) == answer(old(self)@, seat@, name@, *args),
            match r {
                Ok(_) => if name@ == READ@ {
                    final(self)@ == old(self)@
                } else {
                    let event = final(self)@.inbox[seat@].last();
                    &&& records(old(self)@, seat@, name@, *args, event)
                    &&& final(self)@ == (ToolsState {
                        inbox: old(self)@.inbox.insert(seat@, listed(old(self)@.inbox, seat@).push(event)),
                        ..old(self)@
                    })
                },
                Err(reason) => {
                    let refusal = final(self)@.refused[seat@].last();
                    &&& refusal.seat@ == seat@
                    &&& refusal.tool@ == name@
                    &&& refusal.reason == reason
                    &&& final(self)@ == (ToolsState {
                        refused: old(self)@.refused.insert(seat@, listed(old(self)@.refused, seat@).push(refusal)),
                        ..old(self)@
                    })
                },
            },
    {
        let (result, event) = self.decide(seat, name, args);
        match result {
            Ok(text) => {
                if let Some(event) = event {
                    self.record(event);
                }
                Ok(text)
            },
            Err(reason) => {
                let copy = reason.clone();
                self.refuse(seat, name, copy);
                Err(reason)
            },
        }
    }

    /// Every seat this server serves, in id order.
    pub fn seats(&self) -> (r: Vec<String>)
        ensures
            views(r@) == self@.seats,
    {
        crate::speech::copy_all(&self.seats)
    }

    /// Whether `seat` is served here.
    pub fn knows(&self, seat: &str) -> (r: bool)
        ensures
            r == serves_seat(self@, seat@),
    {
        let r = crate::text::contains(&self.seats, seat);
        proof {
            if r {
                let i = choose|i: int| 0 <= i < self.seats@.len() && (#[trigger] self.seats@[i])@ == seat@;
                assert(self@.seats[i] == seat@);
            }
            if serves_seat(self@, seat@) {
                let i = choose|i: int| 0 <= i < self@.seats.len() && self@.seats[i] == seat@;
                assert(self.seats@[i]@ == seat@);
            }
        }
        r
    }
}

} // verus!

verus! {

/// A turn registered for a seat is the one calls must name, until it is
/// cleared; once cleared, a served seat's calls are refused for want of a
/// turn.
pub proof fn law_registered_until_cleared(v: ToolsState, seat: Seq<char>, dispatch: Dispatch, name: Seq<char>, args: Arguments)
    ensures
        (ToolsState { turns: v.turns.insert(seat, dispatch), ..v }).turns[seat] == dispatch,
        serves_seat(v, seat) ==> answer(ToolsState { turns: v.turns.remove(seat), ..v }, seat, name, args) == Err::<Seq<char>, Seq<char>>(NO_TURN@),
{
}

/// Draining a seat takes everything it called and leaves nothing to take
/// again.
pub proof fn law_drained_means_gone(v: ToolsState, seat: Seq<char>)
    ensures
        listed((ToolsState { inbox: v.inbox.remove(seat), ..v }).inbox, seat) == Seq::<SeatEvent>::empty(),
{
}

/// Only a listed seat is known: a call from any other is refused, naming it.
pub proof fn law_only_listed_seats_call(v: ToolsState, seat: Seq<char>, name: Seq<char>, args: Arguments)
    requires
        !v.seats.contains(seat),
    ensures
        answer(v, seat, name, args) == Err::<Seq<char>, Seq<char>>("no seat named `"@ + seat + "` is served here"@),
{
}

/// A withheld tool is not served: calling it in an open turn is refused as
/// an unknown tool.
pub proof fn law_withheld_is_unknown(v: ToolsState, seat: Seq<char>, name: Seq<char>, args: Arguments)
    requires
        serves_seat(v, seat),
        v.turns.contains_key(seat),
        names_thread(args, v.turns[seat]),
        v.withheld.contains(name),
    ensures
        answer(v, seat, name, args) == Err::<Seq<char>, Seq<char>>("unknown tool "@ + name),
{
}

/// Inside a conversation a seat may not open another: asking there is
/// refused.
pub proof fn law_no_ask_inside_a_conversation(v: ToolsState, seat: Seq<char>, args: Arguments)
    requires
        serves_seat(v, seat),
        v.turns.contains_key(seat),
        names_thread(args, v.turns[seat]),
        v.turns[seat].parent is Some,
        !v.withheld.contains(ASK@),
    ensures
        answer(v, seat, ASK@, args) == Err::<Seq<char>, Seq<char>>(IN_CONVERSATION@),
{
    assert(served(ASK@));
}


/// `first_of` finds something wherever something holds.
proof fn lemma_first_of_found(items: Seq<String>, p: spec_fn(Seq<char>) -> bool, i: int)
    requires
        0 <= i < items.len(),
        p(items[i]@),
    ensures
        first_of(items, p) is Some,
    decreases items.len(),
{
    if !p(items[0]@) {
        assert(items.drop_first()[i - 1] == items[i]);
        lemma_first_of_found(items.drop_first(), p, i - 1);
    }
}

/// A seat that asks again someone it is still waiting on is refused: an
/// ask, or a group ask naming that seat, opens no second conversation.
pub proof fn law_no_second_ask(v: ToolsState, seat: Seq<char>, name: Seq<char>, args: Arguments, i: int)
    requires
        name == ASK@ || name == ASK_TEAMMATES@,
        0 <= i < args.call.to@.len(),
        holds(listed(v.awaiting, seat), args.call.to@[i]@),
    ensures
        answer(v, seat, name, args) is Err,
{
    let to = args.call.to@;
    crate::speech::lemma_names_distinct();
    if serves_seat(v, seat) && v.turns.contains_key(seat) && names_thread(args, v.turns[seat]) && served(name)
        && !v.withheld.contains(name) && !(v.turns[seat].parent is Some) && crate::speech::refusal_of(name, args.call) is None
        && !holds(to, seat) && first_of(to, |id: Seq<char>| !serves_seat(v, id)) is None {
        let waited = |id: Seq<char>| holds(listed(v.awaiting, seat), id);
        lemma_first_of_found(to, waited, i);
        assert(answer(v, seat, name, args) == ask_answer(v, seat, to));
    }
}


/// Filtering by both of two tests is filtering by one, then the other.
proof fn lemma_filter_both<A>(s: Seq<A>, p: spec_fn(A) -> bool, q: spec_fn(A) -> bool, pq: spec_fn(A) -> bool)
    requires
        forall|x: A| #[trigger] pq(x) == (p(x) && q(x)),
    ensures
        s.filter(pq) == s.filter(p).filter(q),
    decreases s.len(),
{
    if s.len() > 0 {
        let init = s.drop_last();
        let x = s.last();
        lemma_filter_both(init, p, q, pq);
        assert(init.push(x) =~= s);
        init.lemma_filter_push(x, pq);
        init.lemma_filter_push(x, p);
        init.filter(p).lemma_filter_push(x, q);
    } else {
        reveal(Seq::filter);
    }
}

/// Withholding tools `w` from a server: it then offers the tools it offered
/// before, in the same order, without those named in `w`; and a call to any
/// of them, from a served seat in its open turn naming that turn's thread, is
/// refused as an unknown tool (and so records nothing but the refusal).
pub proof fn law_withholding(v: ToolsState, w: Seq<&str>, seat: Seq<char>, args: Arguments)
    ensures
        ({
            let after = ToolsState { withheld: v.withheld.union(named_in(w, w.len() as int)), ..v };
            &&& served_names().filter(|n: &'static str| !after.withheld.contains(n@))
                == served_names().filter(|n: &'static str| !v.withheld.contains(n@)).filter(|n: &'static str| !named_in(w, w.len() as int).contains(n@))
            &&& (serves_seat(v, seat) && v.turns.contains_key(seat) && names_thread(args, v.turns[seat]) ==>
                forall|k: int| 0 <= k < w.len() ==> answer(after, seat, (#[trigger] w[k])@, args) == Err::<Seq<char>, Seq<char>>("unknown tool "@ + w[k]@))
        }),
{
    let after = ToolsState { withheld: v.withheld.union(named_in(w, w.len() as int)), ..v };
    let named = named_in(w, w.len() as int);
    lemma_filter_both(served_names(), |n: &'static str| !v.withheld.contains(n@), |n: &'static str| !named.contains(n@),
        |n: &'static str| !after.withheld.contains(n@));
    if serves_seat(v, seat) && v.turns.contains_key(seat) && names_thread(args, v.turns[seat]) {
        assert forall|k: int| 0 <= k < w.len() implies answer(after, seat, (#[trigger] w[k])@, args) == Err::<Seq<char>, Seq<char>>("unknown tool "@ + w[k]@) by {
            assert(named.contains(w[k]@));
            law_withheld_is_unknown(after, seat, w[k]@, args);
        }
    }
}


/// The last name `pairs` give a served `seat` that is not blank, if any.
pub open spec fn last_name(v: ToolsState, pairs: Seq<(&str, &str)>, seat: Seq<char>) -> Option<Seq<char>>
    decreases pairs.len(),
{
    if pairs.len() == 0 {
        None
    } else if pairs.last().0@ == seat && serves_seat(v, seat) && !blank(pairs.last().1@) {
        Some(pairs.last().1@)
    } else {
        last_name(v, pairs.drop_last(), seat)
    }
}

/// Naming seats twice is naming them once with both lists, in order.
proof fn lemma_names_compose(v: ToolsState, m: Map<Seq<char>, Seq<char>>, p1: Seq<(&str, &str)>, p2: Seq<(&str, &str)>)
    ensures
        apply_names(v, apply_names(v, m, p1), p2) == apply_names(v, m, p1 + p2),
    decreases p2.len(),
{
    if p2.len() == 0 {
        assert(p1 + p2 =~= p1);
    } else {
        lemma_names_compose(v, m, p1, p2.drop_last());
        assert((p1 + p2).drop_last() =~= p1 + p2.drop_last());
        assert((p1 + p2).last() == p2.last());
    }
}

/// What a name list leaves a seat called by.
proof fn lemma_display_last(v: ToolsState, pairs: Seq<(&str, &str)>, seat: Seq<char>)
    ensures
        display(ToolsState { names: apply_names(v, v.names, pairs), ..v }, seat) == match last_name(v, pairs, seat) {
            Some(n) => n,
            None => display(v, seat),
        },
    decreases pairs.len(),
{
    if pairs.len() > 0 {
        lemma_display_last(v, pairs.drop_last(), seat);
    }
}

/// Over any number of namings, a seat is called by the last name that is
/// not blank given to it while it is served, and by what it was called
/// before (its id, for a seat never named) when none was: naming seats in
/// two calls is naming them in one call with both lists.
pub proof fn law_display_name_is_last_given(v: ToolsState, first: Seq<(&str, &str)>, then: Seq<(&str, &str)>, seat: Seq<char>)
    ensures
        ({
            let named = ToolsState { names: apply_names(v, v.names, first), ..v };
            apply_names(named, named.names, then) == apply_names(v, v.names, first + then)
        }),
        display(ToolsState { names: apply_names(v, v.names, first + then), ..v }, seat) == match last_name(v, first + then, seat) {
            Some(n) => n,
            None => display(v, seat),
        },
        !v.names.contains_key(seat) && last_name(v, first + then, seat) is None ==>
            display(ToolsState { names: apply_names(v, v.names, first + then), ..v }, seat) == seat,
{
    let named = ToolsState { names: apply_names(v, v.names, first), ..v };
    lemma_names_same_seats(named, v, named.names, then);
    lemma_names_compose(v, v.names, first, then);
    lemma_display_last(v, first + then, seat);
}

/// Naming depends on a server's seats alone.
proof fn lemma_names_same_seats(a: ToolsState, b: ToolsState, m: Map<Seq<char>, Seq<char>>, pairs: Seq<(&str, &str)>)
    requires
        a.seats == b.seats,
    ensures
        apply_names(a, m, pairs) == apply_names(b, m, pairs),
    decreases pairs.len(),
{
    if pairs.len() > 0 {
        lemma_names_same_seats(a, b, m, pairs.drop_last());
    }
}

} // verus!
