//! What a seat's other conversations hold, for the turn it is taking in
//! this one: which conversations are read, and how a row is put before a
//! model.
use vstd::prelude::*;

use crate::session::{Conversation, Sequence, SessionAuthor, SessionMessage};

verus! {

/// Which conversations to read for a seat, as of when.
pub struct ElsewhereQuery<'a> {
    /// The seat the rows are read as.
    pub seat: &'a str,
    /// Every conversation the seat is in, including the one it is taking a
    /// turn in: that one is skipped rather than having to be left out.
    pub conversations: &'a [Conversation],
    /// The conversation the turn is in, skipped; `None` reads them all.
    pub current: Option<&'a Conversation>,
    /// Exclusive upper bound on every read, so one turn's context is read as
    /// of one moment.
    pub before: Option<Sequence>,
    /// Rows per conversation.
    pub window: usize,
}

/// One conversation's newest rows, as the seat reads them.
pub struct Elsewhere {
    /// Which conversation.
    pub conversation: Conversation,
    /// Its rows, chronological, narrowed to what the seat may read.
    pub rows: Vec<SessionMessage>,
}

/// Whether `one` is the desk and thread of `other`.
pub open spec fn is_same_conversation(one: Conversation, other: Option<Conversation>) -> bool {
    match other {
        Some(o) => one.desk_id@ == o.desk_id@ && one.thread_root == o.thread_root,
        None => false,
    }
}

/// Whether two conversations are the same desk and the same thread.
pub fn same_conversation(one: &Conversation, other: Option<&Conversation>) -> (r: bool)
    ensures
        r == is_same_conversation(*one, match other { Some(o) => Some(*o), None => None }),
{
    match other {
        Some(o) => {
            let roots = match (one.thread_root, o.thread_root) {
                (Some(a), Some(b)) => a.0 == b.0,
                (None, None) => true,
                _ => false,
            };
            roots && crate::text::same(one.desk_id.as_str(), o.desk_id.as_str())
        },
        None => false,
    }
}

/// The conversations of `cs` other than `current`, in order.
pub open spec fn others(cs: Seq<Conversation>, current: Option<Conversation>) -> Seq<Conversation>
    decreases cs.len(),
{
    if cs.len() == 0 {
        Seq::empty()
    } else {
        let prev = others(cs.drop_last(), current);
        if is_same_conversation(cs.last(), current) {
            prev
        } else {
            prev.push(cs.last())
        }
    }
}

impl<'a> ElsewhereQuery<'a> {
    /// The conversations to read: every one but the turn's, in order.
    pub fn targets(&self) -> (r: Vec<Conversation>)
        ensures
            r@ == others(self.conversations@, match self.current { Some(o) => Some(*o), None => None }),
    {
        let ghost cur = match self.current { Some(o) => Some(*o), None => None };
        let cs = self.conversations;
        let mut r: Vec<Conversation> = Vec::new();
        let mut i: usize = 0;
        while i < cs.len()
            invariant
                cur == match self.current { Some(o) => Some(*o), None => None },
                cs@ == self.conversations@,
                i <= cs@.len(),
                r@ == others(cs@.take(i as int), cur),
            decreases cs@.len() - i,
        {
            assert(cs@.take(i + 1).drop_last() =~= cs@.take(i as int));
            assert(cs@.take(i + 1).last() == cs@[i as int]);
            if !same_conversation(&cs[i], self.current) {
                r.push(cs[i].copy());
            }
            i = i + 1;
        }
        assert(cs@.take(i as int) =~= cs@);
        r
    }
}

/// The name a row is rendered under: `operator`, or the author's label.
pub open spec fn label_of(a: SessionAuthor) -> Seq<char> {
    match a {
        SessionAuthor::Operator => "operator"@,
        SessionAuthor::Agent { label, .. } => label@,
        SessionAuthor::Person { label, .. } => label@,
        SessionAuthor::System { label, .. } => label@,
    }
}

/// `@author: content`.
pub open spec fn said_by(author: Seq<char>, content: Seq<char>) -> Seq<char> {
    "@"@ + author + ": "@ + content
}

/// `@author: content`, with `author` a text.
pub fn say(author: &str, content: &str) -> (r: String)
    ensures
        r@ == said_by(author@, content@),
{
    let mut r = "@".to_owned();
    r.append(author);
    r.append(": ");
    r.append(content);
    proof {
        reveal_strlit("@");
        reveal_strlit(": ");
    }
    r
}

/// One row as a model reads it: `@author: content`, by the author's label,
/// or nothing for a row withheld from the viewer.
pub fn render_row(row: &SessionMessage) -> (r: Option<String>)
    ensures
        crate::text::text_opt(r) == match row.content {
            Some(c) => Some(said_by(label_of(row.author), c@)),
            None => None,
        },
{
    let content = match row.readable() {
        Some(c) => c,
        None => return None,
    };
    let author: &str = match &row.author {
        SessionAuthor::Operator => "operator",
        SessionAuthor::Agent { label, .. } => label.as_str(),
        SessionAuthor::Person { label, .. } => label.as_str(),
        SessionAuthor::System { label, .. } => label.as_str(),
    };
    Some(say(author, content))
}

} // verus!
