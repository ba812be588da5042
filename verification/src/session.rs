//! What a host's log holds, as the crate reads it: sequenced rows, who wrote
//! them, and who may read them.
use vstd::prelude::*;

verus! {

/// The position a host's journal gave a row. Later rows have larger ones.
#[derive(Clone, Copy, Debug, PartialEq, Eq, PartialOrd, Ord, Hash, Structural)]
pub struct Sequence(pub u64);

/// Who a row is attributed to.
#[derive(Debug, PartialEq, Eq)]
pub enum SessionAuthor {
    /// The person running the desk.
    Operator,
    /// A seat.
    Agent {
        /// Its id.
        id: String,
        /// How it is shown.
        label: String,
    },
    /// Another person.
    Person {
        /// Their id.
        id: String,
        /// How they are shown.
        label: String,
    },
    /// The system, in one of its voices.
    System {
        /// Which voice.
        kind: String,
        /// How it is shown.
        label: String,
    },
}

/// Who may read a row.
#[derive(Debug, PartialEq, Eq)]
pub enum Audience {
    /// Everyone at the desk.
    Desk,
    /// Its author and these seats only.
    Aside {
        /// The seats, besides the author.
        members: Vec<String>,
    },
}

/// One row of a host's log, as a page carries it.
#[derive(Debug, PartialEq, Eq)]
pub struct LogMessage {
    /// Its position in the log.
    pub sequence: Sequence,
    /// The chat it is in.
    pub chat_id: Option<String>,
    /// The row it hangs off, for a row in a thread.
    pub parent: Option<Sequence>,
    /// Who wrote it.
    pub author: SessionAuthor,
    /// What it says.
    pub content: String,
    /// Who may read it.
    pub audience: Audience,
}

/// A page of a host's log, newest first.
#[derive(Debug, PartialEq, Eq)]
pub struct SessionPage {
    /// The rows, newest first.
    pub messages: Vec<LogMessage>,
    /// Where the next older page begins, exclusively; `None` when there is
    /// nothing older.
    pub next_before: Option<Sequence>,
}

/// A desk, or a thread of one: where a row is said.
#[derive(Debug)]
pub struct Conversation {
    /// The desk's id.
    pub desk_id: String,
    /// The desk's name, as people read it.
    pub desk_name: String,
    /// The thread's root row, for a thread; `None` for the desk itself.
    pub thread_root: Option<Sequence>,
}

impl Conversation {
    /// A copy, naming the same desk and thread.
    pub fn copy(&self) -> (r: Conversation)
        ensures
            r == *self,
    {
        Conversation { desk_id: self.desk_id.clone(), desk_name: self.desk_name.clone(), thread_root: self.thread_root }
    }
}

/// One row of a conversation as a viewer was shown it.
#[derive(Debug)]
pub struct SessionMessage {
    /// Its position in the log.
    pub sequence: Sequence,
    /// Who wrote it.
    pub author: SessionAuthor,
    /// Who may read it.
    pub audience: Audience,
    /// What it says, where the viewer may read it; `None` for a row withheld
    /// from the viewer.
    pub content: Option<String>,
}

impl SessionMessage {
    /// What it says, where the viewer may read it.
    pub fn readable(&self) -> (r: Option<&str>)
        ensures
            crate::text::str_opt(r) == crate::text::text_opt(self.content),
    {
        match &self.content {
            Some(c) => Some(c.as_str()),
            None => None,
        }
    }
}

/// The author a journal attributes a row written by `id` to: `operator` is
/// the operator, `desk` is the desk's own voice, anything else a seat of
/// that id.
pub open spec fn authored(a: SessionAuthor, id: Seq<char>) -> bool {
    if id == "operator"@ {
        a is Operator
    } else if id == "desk"@ {
        a matches SessionAuthor::System { kind, label } && kind@ == "desk"@ && label@ == "desk"@
    } else {
        a matches SessionAuthor::Agent { id: i, label } && i@ == id && label@ == id
    }
}

/// The author for `id`.
pub fn author_for(id: &str) -> (a: SessionAuthor)
    ensures
        authored(a, id@),
{
    if crate::text::same(id, "operator") {
        SessionAuthor::Operator
    } else if crate::text::same(id, "desk") {
        SessionAuthor::System { kind: "desk".to_owned(), label: "desk".to_owned() }
    } else {
        SessionAuthor::Agent { id: id.to_owned(), label: id.to_owned() }
    }
}

/// The distinct ids of `items`, in first-seen order, leaving out `author`.
pub open spec fn members_of(items: Seq<Seq<char>>, author: Seq<char>) -> Seq<Seq<char>>
    decreases items.len(),
{
    if items.len() == 0 {
        Seq::empty()
    } else {
        let earlier = members_of(items.drop_last(), author);
        let x = items.last();
        if x != author && !earlier.contains(x) {
            earlier.push(x)
        } else {
            earlier
        }
    }
}

/// The distinct ids of `items`, in first-seen order, leaving out `author`.
pub fn members(items: &Vec<String>, author: &str) -> (r: Vec<String>)
    ensures
        crate::text::views(r@) == members_of(crate::text::views(items@), author@),
{
    let ghost all = crate::text::views(items@);
    let mut r: Vec<String> = Vec::new();
    let mut i: usize = 0;
    while i < items.len()
        invariant
            i <= items@.len(),
            all == crate::text::views(items@),
            crate::text::views(r@) == members_of(all.take(i as int), author@),
        decreases items@.len() - i,
    {
        assert(all.take(i + 1).drop_last() =~= all.take(i as int));
        assert(all.take(i + 1).last() == items@[i as int]@);
        let ghost before = r@;
        if !crate::text::same(items[i].as_str(), author) && !crate::text::contains(&r, items[i].as_str()) {
            r.push(items[i].clone());
            assert(crate::text::views(r@) =~= crate::text::views(before).push(items@[i as int]@));
        } else {
            proof {
                if crate::text::holds(r@, items@[i as int]@) {
                    let k = choose|k: int| 0 <= k < r@.len() && (#[trigger] r@[k])@ == items@[i as int]@;
                    assert(crate::text::views(r@)[k] == items@[i as int]@);
                }
            }
        }
        proof {
            if !crate::text::holds(r@, items@[i as int]@) && crate::text::views(before).contains(items@[i as int]@) {
                let k = choose|k: int| 0 <= k < crate::text::views(before).len() && crate::text::views(before)[k] == items@[i as int]@;
                assert(before[k]@ == items@[i as int]@);
            }
        }
        i = i + 1;
    }
    assert(all.take(items@.len() as int) =~= all);
    r
}

} // verus!
