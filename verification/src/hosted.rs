//! The hosted runner's decisions: what a seat is seeded with from the host's
//! log, which calls its belt admits, and what a turn that came back became.
use vstd::prelude::*;

use crate::runner::TurnResult;
use crate::session::{Audience, Sequence, SessionAuthor, SessionMessage};
use crate::text::blank;

verus! {

/// What the host made of a turn that came back.
#[derive(Clone, Copy, Debug, Eq, PartialEq)]
pub enum Disposition {
    /// Nothing is outstanding: the turn is what it is.
    Done,
    /// The turn stopped on something only the host can settle, and the host
    /// has taken it: the seat is held until it says otherwise.
    Parked,
}

impl Default for Disposition {
    fn default() -> (r: Disposition)
        ensures
            r == Disposition::Done,
    {
        Disposition::Done
    }
}

/// The exclusive bound a seat's history is read below: one above `since`;
/// unbounded above the last sequence; below the first for a seat shown
/// nothing yet, which reads none.
pub fn history_bound(since: Option<Sequence>) -> (r: Option<Sequence>)
    ensures
        r == match since {
            None => Some(Sequence(0)),
            Some(s) => if s.0 == u64::MAX { None } else { Some(Sequence((s.0 + 1) as u64)) },
        },
{
    match since {
        None => Some(Sequence(0)),
        Some(s) => if s.0 == u64::MAX {
            None
        } else {
            Some(Sequence(s.0 + 1))
        },
    }
}

/// `author: content`, or `author (privately): content` for a row confided
/// to the seat.
pub open spec fn attributed(author: Seq<char>, content: Seq<char>, confided: bool) -> Seq<char> {
    if confided {
        author + " (privately): "@ + content
    } else {
        author + ": "@ + content
    }
}

/// One row as the seat's model reads it: the seat's own rows as its turns,
/// everyone else's as messages to it, attributed; a seat by `name`, what the
/// host calls it, unless that is blank or its id, when by `@label`. A row
/// withheld from the seat is nothing. On the desk (`mark_aside`), a row
/// confided to the seat is marked as such.
pub open spec fn seeded(row: SessionMessage, seat: Seq<char>, mark_aside: bool, name: Seq<char>) -> Option<(Seq<char>, Seq<char>)> {
    match row.content {
        None => None,
        Some(c) => {
            let content = c@;
            let confided = mark_aside && row.audience is Aside;
            match row.author {
                SessionAuthor::Agent { id, label } => if id@ == seat {
                    Some(("assistant"@, content))
                } else {
                    let author = if blank(name) || name == id@ { "@"@ + label@ } else { name };
                    Some(("user"@, attributed(author, content, confided)))
                },
                SessionAuthor::Person { label, .. } => Some(("user"@, attributed("@"@ + label@, content, confided))),
                SessionAuthor::System { label, .. } => Some(("user"@, attributed("@"@ + label@, content, confided))),
                SessionAuthor::Operator => Some(("user"@, attributed("@operator"@, content, confided))),
            }
        },
    }
}

/// `author: content`, marked when confided.
fn attribute(author: String, content: &str, confided: bool) -> (r: String)
    ensures
        r@ == attributed(author@, content@, confided),
{
    let mut r = author;
    if confided {
        r.append(" (privately): ");
    } else {
        r.append(": ");
    }
    r.append(content);
    proof {
        reveal_strlit(" (privately): ");
        reveal_strlit(": ");
    }
    r
}

/// `@label`.
fn at(label: &str) -> (r: String)
    ensures
        r@ == "@"@ + label@,
{
    let mut r = "@".to_owned();
    r.append(label);
    proof {
        reveal_strlit("@");
    }
    r
}

/// One row as the seat's model reads it, with `name` what the host calls
/// the row's author.
pub fn seed_turn(row: &SessionMessage, seat: &str, mark_aside: bool, name: &str) -> (r: Option<(String, String)>)
    ensures
        match r {
            Some((role, content)) => seeded(*row, seat@, mark_aside, name@) == Some((role@, content@)),
            None => seeded(*row, seat@, mark_aside, name@) is None,
        },
{
    let content = match row.readable() {
        Some(c) => c,
        None => return None,
    };
    let confided = mark_aside && match &row.audience {
        Audience::Aside { .. } => true,
        Audience::Desk => false,
    };
    proof {
        reveal_strlit("assistant");
        reveal_strlit("user");
        reveal_strlit("@operator");
    }
    match &row.author {
        SessionAuthor::Agent { id, label } => {
            if crate::text::same(id.as_str(), seat) {
                return Some(("assistant".to_owned(), content.to_owned()));
            }
            let author = if crate::text::is_blank(name) || crate::text::same(name, id.as_str()) {
                at(label.as_str())
            } else {
                name.to_owned()
            };
            Some(("user".to_owned(), attribute(author, content, confided)))
        },
        SessionAuthor::Person { label, .. } => Some(("user".to_owned(), attribute(at(label.as_str()), content, confided))),
        SessionAuthor::System { label, .. } => Some(("user".to_owned(), attribute(at(label.as_str()), content, confided))),
        SessionAuthor::Operator => Some(("user".to_owned(), attribute("@operator".to_owned(), content, confided))),
    }
}

/// The rows of `rows` as the seat's model reads them, in order, with
/// `names[i]` what the host calls the author of `rows[i]`.
pub open spec fn seeded_all(rows: Seq<SessionMessage>, seat: Seq<char>, mark_aside: bool, names: Seq<Seq<char>>) -> Seq<(Seq<char>, Seq<char>)>
    decreases rows.len(),
{
    if rows.len() == 0 {
        Seq::empty()
    } else {
        let prev = seeded_all(rows.drop_last(), seat, mark_aside, names);
        match seeded(rows.last(), seat, mark_aside, names[rows.len() - 1]) {
            Some(t) => prev.push(t),
            None => prev,
        }
    }
}

/// Role and content pairs as plain values.
pub open spec fn pair_views(h: Seq<(String, String)>) -> Seq<(Seq<char>, Seq<char>)> {
    h.map_values(|p: (String, String)| (p.0@, p.1@))
}

/// What a seat was shown, as chronological `(role, content)` pairs; rows
/// withheld from it are left out.
pub fn seed_history(rows: &Vec<SessionMessage>, seat: &str, mark_aside: bool, names: &Vec<String>) -> (r: Vec<(String, String)>)
    requires
        names@.len() == rows@.len(),
    ensures
        pair_views(r@) == seeded_all(rows@, seat@, mark_aside, crate::text::views(names@)),
{
    let ghost ns = crate::text::views(names@);
    let mut r: Vec<(String, String)> = Vec::new();
    let mut i: usize = 0;
    while i < rows.len()
        invariant
            names@.len() == rows@.len(),
            ns == crate::text::views(names@),
            i <= rows@.len(),
            pair_views(r@) == seeded_all(rows@.take(i as int), seat@, mark_aside, ns),
        decreases rows@.len() - i,
    {
        assert(rows@.take(i + 1).drop_last() =~= rows@.take(i as int));
        assert(ns[i as int] == names@[i as int]@);
        match seed_turn(&rows[i], seat, mark_aside, names[i].as_str()) {
            Some(t) => {
                let ghost before = r@;
                let ghost tv = (t.0@, t.1@);
                r.push(t);
                assert(pair_views(r@) =~= pair_views(before).push(tv));
            },
            None => {},
        }
        i = i + 1;
    }
    assert(rows@.take(i as int) =~= rows@);
    r
}

/// Puts the seat's standing prompt at the head of what it was shown, as a
/// system message, where there is one.
pub fn with_persona(history: Vec<(String, String)>, persona: Option<String>) -> (r: Vec<(String, String)>)
    ensures
        match persona {
            Some(p) => pair_views(r@) == seq![("system"@, p@)] + pair_views(history@),
            None => r@ == history@,
        },
{
    let mut history = history;
    match persona {
        Some(p) => {
            let ghost before = history@;
            history.insert(0, ("system".to_owned(), p));
            proof {
                reveal_strlit("system");
                assert(pair_views(history@) =~= seq![("system"@, p@)] + pair_views(before));
            }
            history
        },
        None => history,
    }
}

/// What a seat's gate does with a call to `tool`.
#[derive(Debug, Eq, PartialEq)]
pub enum Admit {
    /// One of the episode's tools: admitted.
    Allow,
    /// Not the episode's: the host's own policy decides.
    AskHost,
    /// Not the episode's, and the host has no policy: denied, for this reason.
    Deny(String),
}

/// What becomes of a seat's call to `tool`: let through when it is one of
/// `names`, the episode's own; otherwise the host's policy decides, or it is
/// refused when the host has none.
pub fn admission(names: &Vec<String>, tool: &str, has_host: bool) -> (r: Admit)
    ensures
        crate::text::holds(names@, tool@) ==> r == Admit::Allow,
        !crate::text::holds(names@, tool@) && has_host ==> r == Admit::AskHost,
        !crate::text::holds(names@, tool@) && !has_host ==> (r matches Admit::Deny(m) && m@ == "`"@ + tool@ + "` is not on this seat's belt"@),
{
    if crate::text::contains(names, tool) {
        return Admit::Allow;
    }
    if has_host {
        return Admit::AskHost;
    }
    let mut m = "`".to_owned();
    m.append(tool);
    m.append("` is not on this seat's belt");
    proof {
        reveal_strlit("`");
        reveal_strlit("` is not on this seat's belt");
    }
    Admit::Deny(m)
}

/// What a turn became: its own error stands over the host's; otherwise the
/// host's error fails it, a parked disposition holds it, and a done one
/// gives its reply.
pub fn finish_turn(outcome: Result<String, String>, finalized: Result<Disposition, String>) -> (r: TurnResult)
    ensures
        r == match (outcome, finalized) {
            (Err(e), _) => TurnResult::Failed(e),
            (Ok(_), Err(h)) => TurnResult::Failed(h),
            (Ok(_), Ok(Disposition::Parked)) => TurnResult::Parked,
            (Ok(reply), Ok(Disposition::Done)) => TurnResult::Replied(reply),
        },
{
    match (outcome, finalized) {
        (Err(e), _) => TurnResult::Failed(e),
        (Ok(_), Err(h)) => TurnResult::Failed(h),
        (Ok(_), Ok(Disposition::Parked)) => TurnResult::Parked,
        (Ok(reply), Ok(Disposition::Done)) => TurnResult::Replied(reply),
    }
}

} // verus!
