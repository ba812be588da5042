//! An in-memory journal a host can read as its log.
//!
//! The smallest host log that obeys the log's contract, so an offline run, a
//! test and a host with nothing better yet read it through exactly the
//! projection a live host's journal is read through. Two rules decide who may
//! read a row, and they are the ones a host follows too:
//!
//! - A desk row with `only_for` reaches its author and that one seat.
//! - A row in a conversation reaches the conversation's two seats: the author
//!   of the ask row it hangs off, and the seat that ask was for.
use vstd::prelude::*;

use crate::session::{author_for, authored, members, members_of, Audience, LogMessage, Sequence, SessionPage};
use crate::text::views;

verus! {

/// One row of the journal.
#[derive(Debug, Eq, PartialEq)]
pub struct Row {
    /// The sequence the journal gave it.
    pub sequence: Sequence,
    /// Who it is attributed to: a seat id, `operator`, or `desk`.
    pub author: String,
    /// What it says, as rendered.
    pub body: String,
    /// The conversation it is in, by its ask row, or `None` on the desk.
    pub thread: Option<Sequence>,
    /// On the desk, the one seat it reaches.
    pub only_for: Option<String>,
    /// The desk it is on, when that is not this journal's own: a host's log
    /// spans its channels, and a seat reads its others as context.
    pub desk: Option<String>,
}

/// A copy of an optional text.
pub fn copy_text(o: &Option<String>) -> (r: Option<String>)
    ensures
        r == *o,
{
    match o {
        Some(s) => Some(s.clone()),
        None => None,
    }
}

impl Clone for Row {
    fn clone(&self) -> (r: Self)
        ensures
            r == *self,
    {
        Row {
            sequence: self.sequence,
            author: self.author.clone(),
            body: self.body.clone(),
            thread: self.thread,
            only_for: copy_text(&self.only_for),
            desk: copy_text(&self.desk),
        }
    }
}

/// `@author: body`, as every reader of this journal sees a row.
pub open spec fn rendered(author: Seq<char>, body: Seq<char>) -> Seq<char> {
    "@"@ + author + ": "@ + body
}

/// `@author: body`.
pub fn render(author: &str, body: &str) -> (r: String)
    ensures
        r@ == rendered(author@, body@),
{
    let mut r = "@".to_owned();
    r.append(author);
    r.append(": ");
    r.append(body);
    r
}

/// The rows numbered one after another from `first`.
pub open spec fn numbered(rows: Seq<Row>, first: u64) -> bool {
    forall|i: int| 0 <= i < rows.len() ==> (#[trigger] rows[i]).sequence.0 == first + i
}

/// The row with sequence `s`, if the journal holds one.
pub open spec fn row_at(rows: Seq<Row>, first: u64, s: u64) -> Option<Row> {
    if first <= s < first + rows.len() {
        Some(rows[s - first])
    } else {
        None
    }
}

/// Whether `seat` may read the open-desk `row` above `after`.
pub open spec fn on_desk_for(row: Row, seat: Seq<char>, after: Option<Sequence>) -> bool {
    &&& row.desk is None
    &&& (after matches Some(a) ==> row.sequence.0 > a.0)
    &&& row.thread is None
    &&& (row.only_for matches Some(only) ==> only@ == seat || row.author@ == seat)
}

/// Whether `row` is in the conversation rooted at `root`, above `after`.
pub open spec fn in_thread(row: Row, root: Sequence, after: Option<Sequence>) -> bool {
    &&& (after matches Some(a) ==> row.sequence.0 > a.0)
    &&& (row.sequence == root || row.thread == Some(root))
}

/// The rows `keep` holds of, rendered, in journal order.
pub open spec fn rendered_rows(rows: Seq<Row>, keep: spec_fn(Row) -> bool) -> Seq<Seq<char>>
    decreases rows.len(),
{
    if rows.len() == 0 {
        Seq::empty()
    } else {
        let earlier = rendered_rows(rows.drop_last(), keep);
        if keep(rows.last()) {
            earlier.push(rendered(rows.last().author@, rows.last().body@))
        } else {
            earlier
        }
    }
}

/// The seats a row is addressed to, before its author is left out: in a
/// conversation the ask's author and the seat it was for, on the desk the one
/// seat it reaches.
pub open spec fn addressed(rows: Seq<Row>, first: u64, row: Row) -> Seq<Seq<char>> {
    match row.thread {
        Some(root) => match row_at(rows, first, root.0) {
            Some(ask) => match ask.only_for {
                Some(only) => seq![ask.author@, only@],
                None => seq![ask.author@],
            },
            None => Seq::empty(),
        },
        None => match row.only_for {
            Some(only) => seq![only@],
            None => Seq::empty(),
        },
    }
}

/// Who may read `row`, by the two rules: `None` for the whole desk, or the
/// members of its aside.
pub open spec fn audience_of(rows: Seq<Row>, first: u64, row: Row) -> Option<Seq<Seq<char>>> {
    let members = members_of(addressed(rows, first, row), row.author@);
    if members.len() == 0 && row.thread is None && row.only_for is None {
        None
    } else {
        Some(members)
    }
}

/// Whether `a` is the audience `audience_of` gives.
pub open spec fn is_audience(a: Audience, expected: Option<Seq<Seq<char>>>) -> bool {
    match expected {
        None => a is Desk,
        Some(m) => a matches Audience::Aside { members } && views(members@) == m,
    }
}

/// The number of rows below `before`: all of them for `None`.
pub open spec fn below(len: int, first: u64, before: Option<Sequence>) -> int {
    match before {
        None => len,
        Some(b) => if b.0 <= first {
            0
        } else if b.0 - first >= len {
            len
        } else {
            b.0 - first
        },
    }
}

/// The smaller of two.
pub open spec fn least(a: int, b: int) -> int {
    if a < b {
        a
    } else {
        b
    }
}

/// Whether `m` carries `row` of a journal for `desk`.
pub open spec fn carries(rows: Seq<Row>, first: u64, desk: Seq<char>, row: Row, m: LogMessage) -> bool {
    &&& m.sequence == row.sequence
    &&& m.chat_id matches Some(chat) && chat@ == (match row.desk {
        Some(d) => d@,
        None => desk,
    })
    &&& m.parent == row.thread
    &&& authored(m.author, row.author@)
    &&& m.content@ == row.body@
    &&& is_audience(m.audience, audience_of(rows, first, row))
}

/// Whether `page` is the page of `rows` below `before`, at most `limit`
/// long: newest first, with the bound the next older page starts below, or
/// `None` when none is older or the page is empty.
pub open spec fn is_page(rows: Seq<Row>, first: u64, desk: Seq<char>, before: Option<Sequence>, limit: int, page: SessionPage) -> bool {
    let k = below(rows.len() as int, first, before);
    let n = least(limit, k);
    &&& page.messages@.len() == n
    &&& forall|i: int| 0 <= i < n ==> carries(rows, first, desk, rows[k - 1 - i], #[trigger] page.messages@[i])
    &&& page.next_before == (if k > n && n > 0 { Some(rows[k - n].sequence) } else { None::<Sequence> })
}

/// An append-only journal for one desk, held in memory.
#[derive(Debug)]
pub struct MemoryLog {
    desk: String,
    first: u64,
    rows: Vec<Row>,
}

impl MemoryLog {
    /// The rows, numbered one after another from the first.
    pub closed spec fn wf(&self) -> bool {
        numbered(self.rows@, self.first)
    }

    /// Every row, in order.
    pub closed spec fn rows(&self) -> Seq<Row> {
        self.rows@
    }

    /// The sequence the first row is given.
    pub closed spec fn first(&self) -> u64 {
        self.first
    }

    /// The desk this journal is for.
    pub closed spec fn desk(&self) -> Seq<char> {
        self.desk@
    }

    /// The sequence the next row is given.
    pub open spec fn next(&self) -> int {
        self.first() + self.rows().len()
    }

    /// A well-formed journal numbers its rows one after another from its
    /// first, so the next sequence is one above the newest row's, or the
    /// first for an empty journal, and never beyond one above the largest.
    pub proof fn lemma_numbered(&self)
        requires
            self.wf(),
        ensures
            numbered(self.rows(), self.first()),
            self.rows().len() == 0 ==> self.next() == self.first(),
            self.rows().len() > 0 ==> self.next() == self.rows().last().sequence.0 + 1,
            self.next() <= u64::MAX + 1,
    {
        if self.rows().len() > 0 {
            assert(self.rows().last() == self.rows()[self.rows().len() - 1]);
        }
    }

    /// An empty journal for `desk`, numbering its rows from one.
    pub fn new(desk: &str) -> (r: Self)
        ensures
            r.wf(),
            r.desk() == desk@,
            r.first() == 1,
            r.rows() == Seq::<Row>::empty(),
    {
        Self::numbered_from(desk, Sequence(1))
    }

    /// An empty journal for `desk` whose first row is given `first`: a host
    /// numbers its log as it likes, and some number the first row zero.
    pub fn numbered_from(desk: &str, first: Sequence) -> (r: Self)
        ensures
            r.wf(),
            r.desk() == desk@,
            r.first() == first.0,
            r.rows() == Seq::<Row>::empty(),
    {
        MemoryLog { desk: desk.to_owned(), first: first.0, rows: Vec::new() }
    }

    /// Append a row to this journal's own desk and return the sequence it
    /// was given.
    pub fn append(&mut self, author: &str, body: &str, thread: Option<Sequence>, only_for: Option<&str>) -> (s: Sequence)
        requires
            old(self).wf(),
            old(self).next() <= u64::MAX,
        ensures
            final(self).wf(),
            s.0 == old(self).next(),
            final(self).desk() == old(self).desk(),
            final(self).first() == old(self).first(),
            final(self).rows() == old(self).rows().push(final(self).rows().last()),
            final(self).rows().last().sequence == s,
            final(self).rows().last().author@ == author@,
            final(self).rows().last().body@ == body@,
            final(self).rows().last().thread == thread,
            crate::text::text_opt(final(self).rows().last().only_for) == crate::text::str_opt(only_for),
            final(self).rows().last().desk is None,
    {
        self.append_row(None, author, body, thread, only_for)
    }

    /// Append a row to another desk of the same host, sequenced with the
    /// rest: one log holds every channel, as a host's does.
    pub fn append_to(&mut self, desk: &str, author: &str, body: &str, thread: Option<Sequence>, only_for: Option<&str>) -> (s: Sequence)
        requires
            old(self).wf(),
            old(self).next() <= u64::MAX,
        ensures
            final(self).wf(),
            s.0 == old(self).next(),
            final(self).desk() == old(self).desk(),
            final(self).first() == old(self).first(),
            final(self).rows() == old(self).rows().push(final(self).rows().last()),
            final(self).rows().last().sequence == s,
            final(self).rows().last().author@ == author@,
            final(self).rows().last().body@ == body@,
            final(self).rows().last().thread == thread,
            crate::text::text_opt(final(self).rows().last().only_for) == crate::text::str_opt(only_for),
            crate::text::text_opt(final(self).rows().last().desk) == Some(desk@),
    {
        self.append_row(Some(desk), author, body, thread, only_for)
    }

    fn append_row(&mut self, desk: Option<&str>, author: &str, body: &str, thread: Option<Sequence>, only_for: Option<&str>) -> (s: Sequence)
        requires
            old(self).wf(),
            old(self).next() <= u64::MAX,
        ensures
            final(self).wf(),
            s.0 == old(self).next(),
            final(self).desk() == old(self).desk(),
            final(self).first() == old(self).first(),
            final(self).rows() == old(self).rows().push(final(self).rows().last()),
            final(self).rows().last().sequence == s,
            final(self).rows().last().author@ == author@,
            final(self).rows().last().body@ == body@,
            final(self).rows().last().thread == thread,
            crate::text::text_opt(final(self).rows().last().only_for) == crate::text::str_opt(only_for),
            crate::text::text_opt(final(self).rows().last().desk) == crate::text::str_opt(desk),
    {
        let sequence = if self.rows.len() == 0 {
            Sequence(self.first)
        } else {
            Sequence(self.rows[self.rows.len() - 1].sequence.0 + 1)
        };
        let row = Row {
            sequence,
            author: author.to_owned(),
            body: body.to_owned(),
            thread,
            only_for: match only_for {
                Some(o) => Some(o.to_owned()),
                None => None,
            },
            desk: match desk {
                Some(d) => Some(d.to_owned()),
                None => None,
            },
        };
        self.rows.push(row);
        sequence
    }

    /// The newest sequence, or `None` for an empty journal.
    pub fn latest(&self) -> (r: Option<Sequence>)
        requires
            self.wf(),
        ensures
            r == (if self.rows().len() == 0 { None::<Sequence> } else { Some(self.rows().last().sequence) }),
    {
        if self.rows.len() == 0 {
            None
        } else {
            Some(self.rows[self.rows.len() - 1].sequence)
        }
    }

    /// What `seat` may read on the open desk above `after`, rendered; all of
    /// it for `None`.
    pub fn desk_since(&self, seat: &str, after: Option<Sequence>) -> (r: Vec<String>)
        ensures
            views(r@) == rendered_rows(self.rows(), |row: Row| on_desk_for(row, seat@, after)),
    {
        let ghost keep = |row: Row| on_desk_for(row, seat@, after);
        let mut r: Vec<String> = Vec::new();
        let mut i: usize = 0;
        while i < self.rows.len()
            invariant
                i <= self.rows@.len(),
                keep == (|row: Row| on_desk_for(row, seat@, after)),
                views(r@) == rendered_rows(self.rows@.take(i as int), keep),
            decreases self.rows@.len() - i,
        {
            let row = &self.rows[i];
            assert(self.rows@.take(i + 1).drop_last() =~= self.rows@.take(i as int));
            assert(self.rows@.take(i + 1).last() == *row);
            let after_ok = match after {
                Some(a) => row.sequence.0 > a.0,
                None => true,
            };
            let reaches = match &row.only_for {
                Some(only) => crate::text::same(only.as_str(), seat) || crate::text::same(row.author.as_str(), seat),
                None => true,
            };
            let ghost before = r@;
            if row.desk.is_none() && after_ok && row.thread.is_none() && reaches {
                let line = render(row.author.as_str(), row.body.as_str());
                r.push(line);
                assert(views(r@) =~= views(before).push(line@));
            }
            i = i + 1;
        }
        assert(self.rows@.take(self.rows@.len() as int) =~= self.rows@);
        r
    }

    /// One conversation whole, rendered: the ask that rooted it and every
    /// row in it.
    pub fn thread(&self, root: Sequence) -> (r: Vec<String>)
        ensures
            views(r@) == rendered_rows(self.rows(), |row: Row| in_thread(row, root, None)),
    {
        self.thread_since(root, None)
    }

    /// One conversation above `after`, rendered; whole for `None`.
    pub fn thread_since(&self, root: Sequence, after: Option<Sequence>) -> (r: Vec<String>)
        ensures
            views(r@) == rendered_rows(self.rows(), |row: Row| in_thread(row, root, after)),
    {
        let ghost keep = |row: Row| in_thread(row, root, after);
        let mut r: Vec<String> = Vec::new();
        let mut i: usize = 0;
        while i < self.rows.len()
            invariant
                i <= self.rows@.len(),
                keep == (|row: Row| in_thread(row, root, after)),
                views(r@) == rendered_rows(self.rows@.take(i as int), keep),
            decreases self.rows@.len() - i,
        {
            let row = &self.rows[i];
            assert(self.rows@.take(i + 1).drop_last() =~= self.rows@.take(i as int));
            assert(self.rows@.take(i + 1).last() == *row);
            let after_ok = match after {
                Some(a) => row.sequence.0 > a.0,
                None => true,
            };
            let in_it = row.sequence.0 == root.0 || match row.thread {
                Some(t) => t.0 == root.0,
                None => false,
            };
            let ghost before = r@;
            if after_ok && in_it {
                let line = render(row.author.as_str(), row.body.as_str());
                r.push(line);
                assert(views(r@) =~= views(before).push(line@));
            }
            i = i + 1;
        }
        assert(self.rows@.take(self.rows@.len() as int) =~= self.rows@);
        r
    }

    /// Every row, in order.
    pub fn all(&self) -> (r: Vec<Row>)
        ensures
            r@ == self.rows(),
    {
        let mut r: Vec<Row> = Vec::new();
        let mut i: usize = 0;
        while i < self.rows.len()
            invariant
                i <= self.rows@.len(),
                r@ == self.rows@.take(i as int),
            decreases self.rows@.len() - i,
        {
            r.push(self.rows[i].clone());
            assert(r@ =~= self.rows@.take(i + 1));
            i = i + 1;
        }
        assert(self.rows@.take(self.rows@.len() as int) =~= self.rows@);
        r
    }

    /// The row with sequence `s`, found by looking.
    fn find(&self, s: Sequence) -> (r: Option<&Row>)
        requires
            self.wf(),
        ensures
            match r {
                Some(row) => row_at(self.rows(), self.first(), s.0) == Some(*row),
                None => row_at(self.rows(), self.first(), s.0) is None,
            },
    {
        let mut i: usize = 0;
        while i < self.rows.len()
            invariant
                i <= self.rows@.len(),
                numbered(self.rows@, self.first),
                forall|j: int| 0 <= j < i ==> self.rows@[j].sequence.0 != s.0,
            decreases self.rows@.len() - i,
        {
            if self.rows[i].sequence.0 == s.0 {
                return Some(&self.rows[i]);
            }
            i = i + 1;
        }
        proof {
            if self.first <= s.0 < self.first + self.rows@.len() {
                let j = s.0 - self.first;
                assert(self.rows@[j].sequence.0 == s.0);
            }
        }
        None
    }

    /// Who may read `row`, by the two rules in the module docs.
    pub fn audience(&self, row: &Row) -> (a: Audience)
        requires
            self.wf(),
        ensures
            is_audience(a, audience_of(self.rows(), self.first(), *row)),
    {
        let mut named: Vec<String> = Vec::new();
        match row.thread {
            Some(root) => {
                match self.find(root) {
                    Some(ask) => {
                        named.push(ask.author.clone());
                        match &ask.only_for {
                            Some(only) => named.push(only.clone()),
                            None => {},
                        }
                    },
                    None => {},
                }
            },
            None => match &row.only_for {
                Some(only) => named.push(only.clone()),
                None => {},
            },
        }
        assert(views(named@) =~= addressed(self.rows(), self.first(), *row));
        let list = members(&named, row.author.as_str());
        if list.len() == 0 && row.thread.is_none() && row.only_for.is_none() {
            Audience::Desk
        } else {
            Audience::Aside { members: list }
        }
    }

    /// The page of this journal below `before`, at most `limit` rows, newest
    /// first; `next_before` says where the next older page starts, and is
    /// `None` once nothing older is left.
    pub fn read_before(&self, before: Option<Sequence>, limit: usize) -> (page: SessionPage)
        requires
            self.wf(),
        ensures
            is_page(self.rows(), self.first(), self.desk(), before, limit as int, page),
    {
        let len = self.rows.len();
        let k: usize = match before {
            None => len,
            Some(b) => if b.0 <= self.first {
                0
            } else if b.0 - self.first >= len as u64 {
                len
            } else {
                (b.0 - self.first) as usize
            },
        };
        let n: usize = if limit < k { limit } else { k };
        let mut messages: Vec<LogMessage> = Vec::new();
        let mut i: usize = 0;
        while i < n
            invariant
                self.wf(),
                len == self.rows@.len(),
                k == below(len as int, self.first, before),
                n == least(limit as int, k as int),
                n <= k <= len,
                i <= n,
                messages@.len() == i,
                forall|j: int| 0 <= j < i ==> carries(self.rows@, self.first, self.desk@, self.rows@[k - 1 - j], #[trigger] messages@[j]),
            decreases n - i,
        {
            let row = &self.rows[k - 1 - i];
            let chat = match &row.desk {
                Some(d) => d.clone(),
                None => self.desk.clone(),
            };
            let message = LogMessage {
                sequence: row.sequence,
                chat_id: Some(chat),
                parent: row.thread,
                author: author_for(row.author.as_str()),
                content: row.body.clone(),
                audience: self.audience(row),
            };
            messages.push(message);
            i = i + 1;
        }
        let next_before = if k > n && n > 0 {
            Some(self.rows[k - n].sequence)
        } else {
            None
        };
        SessionPage { messages, next_before }
    }
}

} // verus!

verus! {

/// A page's rows are newest first, and reading on from where a page says
/// the next one starts leaves exactly the rows below it unread: the pages of
/// a journal, read one after another, give every row once, and the last says
/// it is the last.
pub proof fn law_pages_continue(rows: Seq<Row>, first: u64, desk: Seq<char>, before: Option<Sequence>, limit: int, page: SessionPage)
    requires
        numbered(rows, first),
        first + rows.len() <= u64::MAX + 1,
        limit >= 0,
        is_page(rows, first, desk, before, limit, page),
    ensures
        forall|i: int, j: int| 0 <= i < j < page.messages@.len() ==> (#[trigger] page.messages@[i]).sequence.0 > (#[trigger] page.messages@[j]).sequence.0,
        page.next_before matches Some(nb) ==> below(rows.len() as int, first, Some(nb)) == below(rows.len() as int, first, before) - page.messages@.len(),
        page.next_before is None ==> page.messages@.len() == below(rows.len() as int, first, before) || page.messages@.len() == 0,
{
    let k = below(rows.len() as int, first, before);
    let n = least(limit, k);
    assert forall|i: int, j: int| 0 <= i < j < page.messages@.len() implies (#[trigger] page.messages@[i]).sequence.0 > (#[trigger] page.messages@[j]).sequence.0 by {
        assert(carries(rows, first, desk, rows[k - 1 - i], page.messages@[i]));
        assert(carries(rows, first, desk, rows[k - 1 - j], page.messages@[j]));
        assert(rows[k - 1 - i].sequence.0 == first + (k - 1 - i));
        assert(rows[k - 1 - j].sequence.0 == first + (k - 1 - j));
    }
    if k > n && n > 0 {
        assert(rows[k - n].sequence.0 == first + (k - n));
    }
}

} // verus!

verus! {

/// What a read gives back of a write: after a row is appended to the open
/// desk for everyone, a seat that had read through the journal's newest row
/// reads that one row, rendered, and nothing else.
pub proof fn law_next_read_gives_back_the_append(rows: Seq<Row>, first: u64, row: Row, seat: Seq<char>)
    requires
        numbered(rows, first),
        rows.len() > 0,
        row.sequence.0 == first + rows.len(),
        row.desk is None,
        row.thread is None,
        row.only_for is None,
    ensures
        rendered_rows(rows.push(row), |r: Row| on_desk_for(r, seat, Some(rows.last().sequence)))
            == seq![rendered(row.author@, row.body@)],
{
    let after = Some(rows.last().sequence);
    let keep = |r: Row| on_desk_for(r, seat, after);
    assert forall|i: int| 0 <= i < rows.len() implies !keep(#[trigger] rows[i]) by {
        assert(rows[i].sequence.0 == first + i);
        assert(rows.last().sequence.0 == first + rows.len() - 1);
    }
    lemma_nothing_kept(rows, keep);
    assert(rows.push(row).drop_last() =~= rows);
    assert(Seq::<Seq<char>>::empty().push(rendered(row.author@, row.body@)) =~= seq![rendered(row.author@, row.body@)]);
}

/// Rows none of which is kept render to nothing.
proof fn lemma_nothing_kept(rows: Seq<Row>, keep: spec_fn(Row) -> bool)
    requires
        forall|i: int| 0 <= i < rows.len() ==> !keep(#[trigger] rows[i]),
    ensures
        rendered_rows(rows, keep) == Seq::<Seq<char>>::empty(),
    decreases rows.len(),
{
    if rows.len() > 0 {
        lemma_nothing_kept(rows.drop_last(), keep);
        assert(!keep(rows[rows.len() - 1]));
    }
}

} // verus!

verus! {

/// Appending numbers the new row one above the newest, or gives it the
/// journal's first sequence when it was empty; the rows stay numbered one
/// after another, so their sequences strictly increase and the new row is
/// the newest.
pub proof fn law_append_follows_latest(before: MemoryLog, after: MemoryLog, s: Sequence)
    requires
        before.wf(),
        after.wf(),
        after.first() == before.first(),
        after.rows() == before.rows().push(after.rows().last()),
        after.rows().last().sequence == s,
    ensures
        before.rows().len() == 0 ==> s.0 == before.first(),
        before.rows().len() > 0 ==> s.0 == before.rows().last().sequence.0 + 1,
        forall|i: int, j: int| 0 <= i < j < after.rows().len() ==> (#[trigger] after.rows()[i]).sequence.0 < (#[trigger] after.rows()[j]).sequence.0,
        after.rows().last().sequence == s,
{
    before.lemma_numbered();
    after.lemma_numbered();
    let n = before.rows().len();
    assert(after.rows()[n as int] == after.rows().last());
    if n > 0 {
        assert(after.rows()[n - 1] == before.rows()[n - 1]);
    }
}

/// A page read from a journal: its rows newest first, strictly, each naming
/// its desk and its thread; reading on from where it says the next page
/// starts leaves exactly the rows below unread, and the last page says it is
/// the last.
pub proof fn law_log_pages(log: MemoryLog, before: Option<Sequence>, limit: int, page: SessionPage)
    requires
        log.wf(),
        limit >= 0,
        is_page(log.rows(), log.first(), log.desk(), before, limit, page),
    ensures
        forall|i: int, j: int| 0 <= i < j < page.messages@.len() ==> (#[trigger] page.messages@[i]).sequence.0 > (#[trigger] page.messages@[j]).sequence.0,
        page.next_before matches Some(nb) ==> below(log.rows().len() as int, log.first(), Some(nb)) == below(log.rows().len() as int, log.first(), before) - page.messages@.len(),
        page.next_before is None ==> page.messages@.len() == below(log.rows().len() as int, log.first(), before) || page.messages@.len() == 0,
        page.next_before matches Some(nb) ==> page.messages@.len() > 0 && nb == page.messages@.last().sequence,
        forall|i: int| 0 <= i < log.rows().len() ==> (i < below(log.rows().len() as int, log.first(), before)
            <==> (before matches Some(b) ==> (#[trigger] log.rows()[i]).sequence.0 < b.0)),
{
    log.lemma_numbered();
    law_pages_continue(log.rows(), log.first(), log.desk(), before, limit, page);
    let rows = log.rows();
    let k = below(rows.len() as int, log.first(), before);
    let n = page.messages@.len() as int;
    if page.next_before is Some {
        assert(carries(rows, log.first(), log.desk(), rows[k - 1 - (n - 1)], page.messages@[n - 1]));
    }
    assert forall|i: int| 0 <= i < rows.len() implies (i < k <==> (before matches Some(b) ==> (#[trigger] rows[i]).sequence.0 < b.0)) by {
        assert(rows[i].sequence.0 == log.first() + i);
    }
}

} // verus!

verus! {

/// A row appended to another desk of the host takes the next sequence of
/// the same counter as any other row, is never read as this desk's, and
/// reaches a page under the desk it names.
pub proof fn law_other_desk_row(before: MemoryLog, after: MemoryLog, s: Sequence, seat: Seq<char>, since: Option<Sequence>, page_before: Option<Sequence>, limit: int, page: SessionPage)
    requires
        before.wf(),
        after.wf(),
        after.first() == before.first(),
        after.desk() == before.desk(),
        after.rows() == before.rows().push(after.rows().last()),
        after.rows().last().sequence == s,
        after.rows().last().desk is Some,
        is_page(after.rows(), after.first(), after.desk(), page_before, limit, page),
    ensures
        before.rows().len() == 0 ==> s.0 == before.first(),
        before.rows().len() > 0 ==> s.0 == before.rows().last().sequence.0 + 1,
        rendered_rows(after.rows(), |row: Row| on_desk_for(row, seat, since))
            == rendered_rows(before.rows(), |row: Row| on_desk_for(row, seat, since)),
        forall|i: int| 0 <= i < page.messages@.len() && (#[trigger] page.messages@[i]).sequence == s ==>
            (page.messages@[i].chat_id matches Some(chat) && chat@ == after.rows().last().desk->0@),
{
    law_append_follows_latest(before, after, s);
    assert(after.rows().drop_last() =~= before.rows());
    after.lemma_numbered();
    let n = before.rows().len() as int;
    let k = below(after.rows().len() as int, after.first(), page_before);
    assert forall|i: int| 0 <= i < page.messages@.len() && (#[trigger] page.messages@[i]).sequence == s implies
        (page.messages@[i].chat_id matches Some(chat) && chat@ == after.rows().last().desk->0@) by {
        assert(carries(after.rows(), after.first(), after.desk(), after.rows()[k - 1 - i], page.messages@[i]));
        assert(after.rows()[k - 1 - i].sequence.0 == after.first() + (k - 1 - i));
        assert(after.rows()[n].sequence.0 == after.first() + n);
        assert(k - 1 - i == n);
    }
}

} // verus!
