//! The embed runner's names.

use tinyhivemind::embed::{agent_id, dispatchers, persona, session_name};

#[test]
fn the_road_is_the_three_dispatchers() {
    assert_eq!(dispatchers(), ["mcp_list_servers", "mcp_list_tools", "mcp_call_tool"]);
}

#[test]
fn a_seat_is_its_brief_then_the_contract_under_ids_kept_apart_by_run() {
    assert_eq!(persona("You review.", "Call a tool."), "You review.\n\nCall a tool.");
    assert_eq!(agent_id("lead", "r1"), "lead-r1");
    assert_eq!(session_name("r1", "lead"), "episode-r1:lead");
}
