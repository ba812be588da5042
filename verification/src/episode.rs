//! One episode over a journal the host owns: what an episode came to, and
//! the reads a wave makes of the host's log, each bounded by one watermark.
use vstd::prelude::*;

use crate::elsewhere::{said_by, say, Elsewhere};
use crate::session::{Conversation, Sequence, SessionAuthor, SessionMessage, SessionPage};

verus! {

/// The hooks a host's journal may give an episode: what it calls a seat,
/// and which other conversations a seat is in. Each has a default.
pub trait Journal {
    /// What the host calls `seat` where a person reads it. The default is
    /// the seat's id.
    fn display_name(&self, seat: &str) -> (r: String)
        default_ensures
            r@ == seat@,
    {
        seat.to_owned()
    }

    /// Every conversation `seat` is in that this episode does not run; the
    /// newest rows of each reach its brief as context. The default is none.
    fn channels(&self, seat: &str) -> (r: Vec<Conversation>)
        default_ensures
            r@.len() == 0,
    {
        Vec::new()
    }
}

/// What one episode came to.
#[derive(Clone, Copy, Debug, Default, PartialEq, Eq, Structural)]
pub struct Report {
    /// Seat turns run.
    pub turns: u64,
    /// Waves proposed.
    pub waves: u64,
    /// Seats completed with their work for a spent broadcast budget.
    pub discharged: u64,
    /// Conversations concluded.
    pub conversations: usize,
    /// Seats settled at the end.
    pub settled: usize,
}

/// The name a row is written under in a brief: `operator`, a seat by its
/// id, anyone else by their label.
pub open spec fn brief_name(a: SessionAuthor) -> Seq<char> {
    match a {
        SessionAuthor::Operator => "operator"@,
        SessionAuthor::Agent { id, .. } => id@,
        SessionAuthor::Person { label, .. } => label@,
        SessionAuthor::System { label, .. } => label@,
    }
}

/// A row as a brief carries it, if the seat may read it.
pub open spec fn brief_row(row: SessionMessage) -> Option<Seq<char>> {
    match row.content {
        Some(c) => Some(said_by(brief_name(row.author), c@)),
        None => None,
    }
}

/// `@author: content`, a seat by its id, or nothing for a row the seat may
/// not read.
pub fn render(row: &SessionMessage) -> (r: Option<String>)
    ensures
        crate::text::text_opt(r) == brief_row(*row),
{
    let content = match row.readable() {
        Some(c) => c,
        None => return None,
    };
    let author: &str = match &row.author {
        SessionAuthor::Operator => "operator",
        SessionAuthor::Agent { id, .. } => id.as_str(),
        SessionAuthor::Person { label, .. } => label.as_str(),
        SessionAuthor::System { label, .. } => label.as_str(),
    };
    Some(say(author, content))
}

/// Whether a row is above `since`: every row is, for no `since`.
pub open spec fn above(row: SessionMessage, since: Option<Sequence>) -> bool {
    match since {
        Some(s) => s.0 < row.sequence.0,
        None => true,
    }
}

/// The rows of `rows` above `since` that the seat may read, rendered, in order.
pub open spec fn rendered_above(rows: Seq<SessionMessage>, since: Option<Sequence>) -> Seq<Seq<char>>
    decreases rows.len(),
{
    if rows.len() == 0 {
        Seq::empty()
    } else {
        let prev = rendered_above(rows.drop_last(), since);
        match brief_row(rows.last()) {
            Some(text) => if above(rows.last(), since) {
                prev.push(text)
            } else {
                prev
            },
            None => prev,
        }
    }
}

/// The rows of `rows` above `since` that the seat may read, rendered.
pub fn rows_above(rows: &Vec<SessionMessage>, since: Option<Sequence>) -> (r: Vec<String>)
    ensures
        crate::text::views(r@) == rendered_above(rows@, since),
{
    let mut r: Vec<String> = Vec::new();
    let mut i: usize = 0;
    while i < rows.len()
        invariant
            i <= rows@.len(),
            crate::text::views(r@) == rendered_above(rows@.take(i as int), since),
        decreases rows@.len() - i,
    {
        assert(rows@.take(i + 1).drop_last() =~= rows@.take(i as int));
        let row = &rows[i];
        let keep = match since {
            Some(s) => s.0 < row.sequence.0,
            None => true,
        };
        if keep {
            match render(row) {
                Some(text) => {
                    let ghost before = r@;
                    r.push(text);
                    assert(crate::text::views(r@) =~= crate::text::views(before).push(text@));
                },
                None => {},
            }
        } else {
            proof {
                assert(brief_row(*row) is None || !above(*row, since));
            }
        }
        i = i + 1;
    }
    assert(rows@.take(i as int) =~= rows@);
    r
}

/// The exclusive bound that reads through `latest`: one above it, or no
/// bound when nothing is above it.
pub fn read_bound(latest: Sequence) -> (r: Option<Sequence>)
    ensures
        r == if latest.0 < u64::MAX { Some(Sequence((latest.0 + 1) as u64)) } else { None },
{
    match latest.0.checked_add(1) {
        Some(n) => Some(Sequence(n)),
        None => None,
    }
}

/// The newest sequence a page of one newest row shows, or `None` for a log
/// with no rows.
pub fn newest(page: &SessionPage) -> (r: Option<Sequence>)
    ensures
        r == if page.messages@.len() == 0 { None } else { Some(page.messages@[0].sequence) },
{
    if page.messages.len() == 0 {
        None
    } else {
        Some(page.messages[0].sequence)
    }
}

/// Another conversation as a brief carries it.
pub struct ElsewhereView {
    /// The desk's id.
    pub chat: String,
    /// The desk's name.
    pub name: String,
    /// The thread, if it is one.
    pub thread_root: Option<Sequence>,
    /// Its rows the seat may read, rendered.
    pub rows: Vec<String>,
}

/// Another conversation's rows, as the brief carries them.
pub fn elsewhere_view(found: Elsewhere) -> (r: ElsewhereView)
    ensures
        r.chat == found.conversation.desk_id,
        r.name == found.conversation.desk_name,
        r.thread_root == found.conversation.thread_root,
        crate::text::views(r.rows@) == rendered_above(found.rows@, None),
{
    let rows = rows_above(&found.rows, None);
    ElsewhereView {
        chat: found.conversation.desk_id,
        name: found.conversation.desk_name,
        thread_root: found.conversation.thread_root,
        rows,
    }
}

} // verus!
