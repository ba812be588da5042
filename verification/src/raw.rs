//! The raw runner's decisions: which seat ids may name a definition file,
//! what a seat's definition says, the names and permissions on a seat's
//! belt, and what a seat carries from one turn to the next.
use vstd::prelude::*;

use crate::error::Error;
use crate::speech::ToolSpec;
use crate::text::{joined, views};

verus! {

/// Where a run's inference comes from, as a raw session needs it.
#[derive(Clone, Debug)]
pub struct Route {
    /// The OpenAI-compatible endpoint, up to and including `/v1`.
    pub endpoint: String,
    /// The bearer the endpoint takes.
    pub api_key: String,
    /// The model id to ask for.
    pub model: String,
}

/// An ASCII letter or digit.
pub open spec fn ascii_alnum(c: char) -> bool {
    ('a' <= c && c <= 'z') || ('A' <= c && c <= 'Z') || ('0' <= c && c <= '9')
}

/// A character a seat id may hold: an ASCII letter or digit, `-`, `_`, `.`.
pub open spec fn plain_char(c: char) -> bool {
    ascii_alnum(c) || c == '-' || c == '_' || c == '.'
}

/// A seat id that is one plain path component: not empty, not `.` or `..`,
/// and nothing but plain characters.
pub open spec fn plain_id(s: Seq<char>) -> bool {
    &&& s.len() > 0
    &&& s != "."@
    &&& s != ".."@
    &&& forall|i: int| 0 <= i < s.len() ==> plain_char(#[trigger] s[i])
}

/// Whether `id` is one plain path component.
pub fn is_plain_id(id: &str) -> (r: bool)
    ensures
        r == plain_id(id@),
{
    let n = id.unicode_len();
    if n == 0 || crate::text::same(id, ".") || crate::text::same(id, "..") {
        return false;
    }
    let mut i: usize = 0;
    while i < n
        invariant
            n == id@.len(),
            i <= n,
            forall|j: int| 0 <= j < i ==> plain_char(#[trigger] id@[j]),
        decreases n - i,
    {
        let c = id.get_char(i);
        let ok = ('a' <= c && c <= 'z') || ('A' <= c && c <= 'Z') || ('0' <= c && c <= '9') || c == '-' || c == '_' || c == '.';
        if !ok {
            assert(!plain_char(id@[i as int]));
            return false;
        }
        i = i + 1;
    }
    true
}

/// The check that a seat id is plain.
pub open spec fn unsafe_check(ids: Seq<Seq<char>>) -> spec_fn(int) -> bool {
    |i: int| !plain_id(ids[i])
}

/// The ids of `seats`.
pub open spec fn seat_ids(seats: Seq<(&str, &str)>) -> Seq<Seq<char>> {
    seats.map_values(|s: (&str, &str)| s.0@)
}

/// Checks that every seat id names one plain file.
///
/// # Errors
///
/// [`Error::UnsafeSeatId`] for the first that does not.
pub fn check_seat_ids(seats: &[(&str, &str)]) -> (r: Result<(), Error>)
    ensures
        r is Ok <==> (forall|i: int| 0 <= i < seats@.len() ==> plain_id(#[trigger] seat_ids(seats@)[i])),
        r matches Err(e) ==> ({
            let ids = seat_ids(seats@);
            let k = crate::search::first_where(unsafe_check(ids), 0, ids.len() as int);
            k < ids.len() && (e matches Error::UnsafeSeatId { seat } && seat@ == ids[k])
        }),
{
    let ghost ids = seat_ids(seats@);
    let ghost uc = unsafe_check(ids);
    let mut i: usize = 0;
    while i < seats.len()
        invariant
            ids == seat_ids(seats@),
            uc == unsafe_check(ids),
            i <= seats@.len(),
            forall|j: int| 0 <= j < i ==> !#[trigger] uc(j),
        decreases seats@.len() - i,
    {
        let (id, _) = seats[i];
        assert(ids[i as int] == id@);
        if !is_plain_id(id) {
            proof {
                crate::search::lemma_first_where(uc, 0, i as int, ids.len() as int);
            }
            return Err(Error::UnsafeSeatId { seat: id.to_owned() });
        }
        i = i + 1;
    }
    assert forall|j: int| 0 <= j < seats@.len() implies plain_id(#[trigger] seat_ids(seats@)[j]) by {
        assert(!uc(j));
    }
    Ok(())
}

/// What `format!("{s:?}")` gives for a text `s`: std's `Debug` rendering of
/// a string, a quoted literal with its escapes.
pub uninterp spec fn debug_text(s: Seq<char>) -> Seq<char>;

/// `format!("{s:?}")`, std's `Debug` rendering of a string.
///
/// The contract names the result (`debug_text`) as a function of the text
/// alone; the escaping rules themselves are std's and are not restated.
#[verifier::external_body]
fn quoted(s: &str) -> (r: String)
    ensures
        r@ == debug_text(s@),
{
    format!("{s:?}")
}

/// Each text of `items`, quoted.
pub open spec fn quoted_all(items: Seq<Seq<char>>) -> Seq<Seq<char>> {
    items.map_values(|s: Seq<char>| debug_text(s))
}

/// A seat's definition as the loader reads it, from its pieces already
/// quoted: its id, when to use it and its prompt (both its role), and its
/// belt by name.
pub open spec fn assembled(id: Seq<char>, role: Seq<char>, tools: Seq<Seq<char>>) -> Seq<char> {
    "id = "@ + id + "\nwhen_to_use = "@ + role + "\nsystem_prompt = { inline = "@
        + role + " }\ntools = { named = ["@ + joined(tools, ", "@) + "] }\n"@
}

/// A seat's definition as the loader reads it: its id, when to use it and
/// its prompt (both its role), and its belt by name, each quoted.
pub open spec fn definition_text(id: Seq<char>, role: Seq<char>, tools: Seq<Seq<char>>) -> Seq<char> {
    assembled(debug_text(id), debug_text(role), quoted_all(tools))
}

/// The definition of a seat from its quoted id `id`, its quoted role `role`
/// and its belt's quoted names `tools`.
pub fn assemble_definition(id: &str, role: &str, tools: &Vec<String>) -> (r: String)
    ensures
        r@ == assembled(id@, role@, views(tools@)),
{
    let list = crate::text::join(tools, ", ");
    let mut r = "id = ".to_owned();
    r.append(id);
    r.append("\nwhen_to_use = ");
    r.append(role);
    r.append("\nsystem_prompt = { inline = ");
    r.append(role);
    r.append(" }\ntools = { named = [");
    r.append(list.as_str());
    r.append("] }\n");
    proof {
        reveal_strlit("id = ");
        reveal_strlit("\nwhen_to_use = ");
        reveal_strlit("\nsystem_prompt = { inline = ");
        reveal_strlit(" }\ntools = { named = [");
        reveal_strlit("] }\n");
        reveal_strlit(", ");
    }
    r
}

/// The definition of seat `id` with role `role` and belt `tools`.
pub fn seat_definition(id: &str, role: &str, tools: &Vec<String>) -> (r: String)
    ensures
        r@ == definition_text(id@, role@, views(tools@)),
{
    let mut named: Vec<String> = Vec::new();
    let mut i: usize = 0;
    while i < tools.len()
        invariant
            i <= tools@.len(),
            named@.len() == i,
            forall|j: int| 0 <= j < i ==> (#[trigger] named@[j])@ == debug_text(tools@[j]@),
        decreases tools@.len() - i,
    {
        named.push(quoted(tools[i].as_str()));
        i = i + 1;
    }
    assert(views(named@) =~= quoted_all(views(tools@)));
    let qid = quoted(id);
    let qrole = quoted(role);
    assemble_definition(qid.as_str(), qrole.as_str(), &named)
}

/// The file a seat's definition is written to: its id, `.toml`.
pub fn definition_file(id: &str) -> (r: String)
    ensures
        r@ == id@ + ".toml"@,
{
    let mut r = id.to_owned();
    r.append(".toml");
    proof {
        reveal_strlit(".toml");
    }
    r
}

/// The names on a seat's belt: each served tool's, with `prefix` in front.
pub fn belt_names(prefix: &str, specs: &Vec<ToolSpec>) -> (r: Vec<String>)
    ensures
        r@.len() == specs@.len(),
        forall|i: int| 0 <= i < r@.len() ==> (#[trigger] r@[i])@ == prefix@ + specs@[i].name@,
{
    let mut r: Vec<String> = Vec::new();
    let mut i: usize = 0;
    while i < specs.len()
        invariant
            i <= specs@.len(),
            r@.len() == i,
            forall|j: int| 0 <= j < i ==> (#[trigger] r@[j])@ == prefix@ + specs@[j].name@,
        decreases specs@.len() - i,
    {
        let mut name = prefix.to_owned();
        name.append(specs[i].name);
        r.push(name);
        i = i + 1;
    }
    r
}

/// Whether a tool only looks: `read` does; everything else moves the episode.
pub fn read_only(served: &str) -> (r: bool)
    ensures
        r == (served@ == "read"@),
{
    crate::text::same(served, "read")
}

/// What a seat carries into its next turn after one that replied: the
/// prompt it was shown, as the user's, then its reply, as its own.
pub fn remember(context: &mut Vec<(String, String)>, prompt: String, reply: String)
    ensures
        crate::hosted::pair_views(final(context)@) == crate::hosted::pair_views(old(context)@)
            + seq![("user"@, prompt@), ("assistant"@, reply@)],
{
    let ghost before = context@;
    context.push(("user".to_owned(), prompt));
    context.push(("assistant".to_owned(), reply));
    proof {
        reveal_strlit("user");
        reveal_strlit("assistant");
        assert(crate::hosted::pair_views(context@) =~= crate::hosted::pair_views(before) + seq![("user"@, prompt@), ("assistant"@, reply@)]);
    }
}

} // verus!
