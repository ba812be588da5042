//! The embed runner's names: a seat's standing prompt, its agent and
//! session ids, and the three dispatchers a seat reaches its tools through
//! over MCP.
use vstd::prelude::*;

verus! {

/// A seat's standing prompt: its brief, a blank line, then the contract
/// every seat shares.
pub open spec fn persona_of(brief: Seq<char>, contract: Seq<char>) -> Seq<char> {
    brief + "\n\n"@ + contract
}

/// A seat's standing prompt.
pub fn persona(brief: &str, contract: &str) -> (r: String)
    ensures
        r@ == persona_of(brief@, contract@),
{
    let mut r = brief.to_owned();
    r.append("\n\n");
    r.append(contract);
    proof {
        reveal_strlit("\n\n");
    }
    r
}

/// The runtime id of seat `id` in run `run_id`: `id-run_id`, so that agents
/// of one id in different episodes on one runtime stay apart.
pub fn agent_id(id: &str, run_id: &str) -> (r: String)
    ensures
        r@ == id@ + "-"@ + run_id@,
{
    let mut r = id.to_owned();
    r.append("-");
    r.append(run_id);
    proof {
        reveal_strlit("-");
    }
    r
}

/// The session a seat keeps for the whole of run `run_id`:
/// `episode-run_id:seat`.
pub fn session_name(run_id: &str, seat: &str) -> (r: String)
    ensures
        r@ == "episode-"@ + run_id@ + ":"@ + seat@,
{
    let mut r = "episode-".to_owned();
    r.append(run_id);
    r.append(":");
    r.append(seat);
    proof {
        reveal_strlit("episode-");
        reveal_strlit(":");
    }
    r
}

/// The three generic dispatchers a seat reaches a remote MCP server
/// through: listing servers, listing tools, calling one.
pub fn dispatchers() -> (r: Vec<String>)
    ensures
        crate::text::views(r@) == seq!["mcp_list_servers"@, "mcp_list_tools"@, "mcp_call_tool"@],
{
    let mut r: Vec<String> = Vec::new();
    r.push("mcp_list_servers".to_owned());
    r.push("mcp_list_tools".to_owned());
    r.push("mcp_call_tool".to_owned());
    assert(crate::text::views(r@) =~= seq!["mcp_list_servers"@, "mcp_list_tools"@, "mcp_call_tool"@]);
    r
}

} // verus!
