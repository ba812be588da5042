//! The offline run's journal: one desk, numbered from one, held in memory.
//!
//! The same two rules decide who may read a row as in
//! [`journal`](crate::journal); this one knows no other desk, and says zero
//! rather than nothing for the newest sequence of an empty journal.
use vstd::prelude::*;

use crate::journal::{in_thread, on_desk_for, rendered_rows, copy_text};
use crate::session::{Sequence, SessionPage};
use crate::text::views;

verus! {

/// One row of the journal.
#[derive(Debug, Eq, PartialEq)]
pub struct Row {
    /// The sequence the journal gave it.
    pub sequence: Sequence,
    /// Who it is attributed to: a seat id, `operator`, or `desk`.
    pub author: String,
    /// What it says, as rendered.
    pub body: String,
    /// The conversation it is in, by its ask row, or `None` on the desk.
    pub thread: Option<Sequence>,
    /// On the desk, the one seat it reaches.
    pub only_for: Option<String>,
}

/// Whether `row` is `full` without the desk it is on.
pub open spec fn same_row(row: Row, full: crate::journal::Row) -> bool {
    &&& row.sequence == full.sequence
    &&& row.author == full.author
    &&& row.body == full.body
    &&& row.thread == full.thread
    &&& row.only_for == full.only_for
}

/// An append-only journal for one desk, held in memory.
#[derive(Debug)]
pub struct MemoryLog {
    log: crate::journal::MemoryLog,
}

impl MemoryLog {
    /// Numbered from one, every row on this desk.
    pub closed spec fn wf(&self) -> bool {
        &&& self.log.wf()
        &&& self.log.first() == 1
        &&& forall|i: int| 0 <= i < self.log.rows().len() ==> (#[trigger] self.log.rows()[i]).desk is None
    }

    /// Every row, in order, as the journal beneath holds it.
    pub closed spec fn rows(&self) -> Seq<crate::journal::Row> {
        self.log.rows()
    }

    /// The desk this journal is for.
    pub closed spec fn desk(&self) -> Seq<char> {
        self.log.desk()
    }

    /// A well-formed journal numbers its rows one after another from one,
    /// every row on its own desk, so its newest sequence is its row count.
    pub proof fn lemma_numbered(&self)
        requires
            self.wf(),
        ensures
            crate::journal::numbered(self.rows(), 1),
            self.rows().len() <= u64::MAX,
            self.rows().len() > 0 ==> self.rows().last().sequence.0 == self.rows().len(),
            forall|i: int| 0 <= i < self.rows().len() ==> (#[trigger] self.rows()[i]).desk is None,
    {
        self.log.lemma_numbered();
    }

    /// An empty journal for `desk`.
    pub fn new(desk: &str) -> (r: Self)
        ensures
            r.wf(),
            r.desk() == desk@,
            r.rows() == Seq::<crate::journal::Row>::empty(),
    {
        MemoryLog { log: crate::journal::MemoryLog::new(desk) }
    }

    /// Append a row and return the sequence it was given: one above the
    /// newest, or one for the first.
    pub fn append(&mut self, author: &str, body: &str, thread: Option<Sequence>, only_for: Option<&str>) -> (s: Sequence)
        requires
            old(self).wf(),
            old(self).rows().len() < u64::MAX,
        ensures
            final(self).wf(),
            s.0 == old(self).rows().len() + 1,
            final(self).desk() == old(self).desk(),
            final(self).rows() == old(self).rows().push(final(self).rows().last()),
            final(self).rows().last().sequence == s,
            final(self).rows().last().author@ == author@,
            final(self).rows().last().body@ == body@,
            final(self).rows().last().thread == thread,
            crate::text::text_opt(final(self).rows().last().only_for) == crate::text::str_opt(only_for),
    {
        let s = self.log.append(author, body, thread, only_for);
        proof {
            assert forall|i: int| 0 <= i < self.log.rows().len() implies (#[trigger] self.log.rows()[i]).desk is None by {
                if i < old(self).log.rows().len() {
                    assert(self.log.rows()[i] == old(self).log.rows()[i]);
                }
            }
        }
        s
    }

    /// The newest sequence, or zero for an empty journal.
    pub fn latest(&self) -> (r: Sequence)
        requires
            self.wf(),
        ensures
            r == (if self.rows().len() == 0 { Sequence(0) } else { self.rows().last().sequence }),
    {
        match self.log.latest() {
            Some(s) => s,
            None => Sequence(0),
        }
    }

    /// What `seat` may read on the open desk above `after`, rendered.
    pub fn desk_since(&self, seat: &str, after: Sequence) -> (r: Vec<String>)
        ensures
            views(r@) == rendered_rows(self.rows(), |row: crate::journal::Row| on_desk_for(row, seat@, Some(after))),
    {
        self.log.desk_since(seat, Some(after))
    }

    /// One conversation whole, rendered: the ask that rooted it and every
    /// row in it.
    pub fn thread(&self, root: Sequence) -> (r: Vec<String>)
        ensures
            views(r@) == rendered_rows(self.rows(), |row: crate::journal::Row| in_thread(row, root, Some(Sequence(0)))),
    {
        self.thread_since(root, Sequence(0))
    }

    /// One conversation above `after`, rendered.
    pub fn thread_since(&self, root: Sequence, after: Sequence) -> (r: Vec<String>)
        ensures
            views(r@) == rendered_rows(self.rows(), |row: crate::journal::Row| in_thread(row, root, Some(after))),
    {
        self.log.thread_since(root, Some(after))
    }

    /// Every row, in order.
    pub fn all(&self) -> (r: Vec<Row>)
        ensures
            r@.len() == self.rows().len(),
            forall|i: int| 0 <= i < r@.len() ==> same_row(#[trigger] r@[i], self.rows()[i]),
    {
        let rows = self.log.all();
        let mut r: Vec<Row> = Vec::new();
        let mut i: usize = 0;
        while i < rows.len()
            invariant
                i <= rows@.len(),
                rows@ == self.rows(),
                r@.len() == i,
                forall|j: int| 0 <= j < i ==> same_row(#[trigger] r@[j], rows@[j]),
            decreases rows@.len() - i,
        {
            let full = &rows[i];
            r.push(Row {
                sequence: full.sequence,
                author: full.author.clone(),
                body: full.body.clone(),
                thread: full.thread,
                only_for: copy_text(&full.only_for),
            });
            i = i + 1;
        }
        r
    }

    /// The page below `before`, at most `limit` rows, newest first.
    pub fn read_before(&self, before: Option<Sequence>, limit: usize) -> (page: SessionPage)
        requires
            self.wf(),
        ensures
            crate::journal::is_page(self.rows(), 1, self.desk(), before, limit as int, page),
    {
        self.log.read_before(before, limit)
    }
}

} // verus!

verus! {

/// A page read from the offline journal: its rows newest first, strictly;
/// reading on from where it says the next page starts leaves exactly the
/// rows below unread; and the last page says it is the last.
pub proof fn law_offline_pages(log: MemoryLog, before: Option<Sequence>, limit: int, page: SessionPage)
    requires
        log.wf(),
        limit >= 0,
        crate::journal::is_page(log.rows(), 1, log.desk(), before, limit, page),
    ensures
        forall|i: int, j: int| 0 <= i < j < page.messages@.len() ==> (#[trigger] page.messages@[i]).sequence.0 > (#[trigger] page.messages@[j]).sequence.0,
        page.next_before matches Some(nb) ==> crate::journal::below(log.rows().len() as int, 1, Some(nb)) == crate::journal::below(log.rows().len() as int, 1, before) - page.messages@.len(),
        page.next_before is None ==> page.messages@.len() == crate::journal::below(log.rows().len() as int, 1, before) || page.messages@.len() == 0,
{
    log.lemma_numbered();
    crate::journal::law_pages_continue(log.rows(), 1, log.desk(), before, limit, page);
}

} // verus!
