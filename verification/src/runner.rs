//! Which runner an episode uses, and where a turn runs.
use vstd::prelude::*;

use crate::session::Sequence;
use crate::tools::{listed, Dispatch, EpisodeTools, SeatEvent, ToolsState};

verus! {

/// Where a turn is running, for the host's own bookkeeping.
#[derive(Clone, Copy, Debug, Eq, PartialEq)]
pub enum Lane {
    /// The desk itself.
    Desk,
    /// A conversation on a thread of the desk, by its root row.
    Thread(Sequence),
}

/// What became of a turn.
#[derive(Debug, Eq, PartialEq)]
pub enum TurnResult {
    /// It came back with this reply.
    Replied(String),
    /// It failed, for this reason.
    Failed(String),
    /// It stopped on something only the host can settle, and the seat is
    /// held until the host releases it.
    Parked,
}

impl TurnResult {
    /// Whether the seat is held by the host.
    pub fn parked(&self) -> (r: bool)
        ensures
            r == (*self is Parked),
    {
        match self {
            TurnResult::Parked => true,
            _ => false,
        }
    }
}

/// Which runner the episode uses, chosen by `TINYHIVEMIND_RUNNER`.
#[derive(Clone, Copy, Debug, Eq, PartialEq)]
pub enum RunnerKind {
    /// `openhuman-embed` agents, tools over MCP. The default.
    Embed,
    /// Raw `OpenHumanSessionHost` sessions, tools in-process.
    Raw,
    /// The host's own agents, tools in-process, seeded from the host's log.
    Hosted,
}

/// The runner `value` names: none, empty or `embed` is the embed runner,
/// `raw` and `hosted` their own; anything else is refused with the value, so
/// that a typo does not silently run the default.
pub open spec fn parsed(value: Option<Seq<char>>) -> Result<RunnerKind, Seq<char>> {
    match value {
        None => Ok(RunnerKind::Embed),
        Some(v) => if v == ""@ || v == "embed"@ {
            Ok(RunnerKind::Embed)
        } else if v == "raw"@ {
            Ok(RunnerKind::Raw)
        } else if v == "hosted"@ {
            Ok(RunnerKind::Hosted)
        } else {
            Err(v)
        },
    }
}

/// The sentence a runner whose seats call their tools directly gives.
pub const DIRECT: &'static str = "Each tool below is yours to call directly, by its name.";

/// The sentence the embed runner gives: its calls go through MCP.
pub const OVER_MCP: &'static str = "Use `mcp_call_tool` with `server: \"episode\"`; its `arguments` is a JSON object, never a string.";

impl RunnerKind {
    /// The parser behind reading `TINYHIVEMIND_RUNNER`: the offending value
    /// on a miss.
    ///
    /// # Errors
    ///
    /// The value, when it names no runner.
    pub fn parse(value: Option<&str>) -> (r: Result<Self, String>)
        ensures
            match r {
                Ok(kind) => parsed(crate::text::str_opt(value)) == Ok::<RunnerKind, Seq<char>>(kind),
                Err(v) => parsed(crate::text::str_opt(value)) == Err::<RunnerKind, Seq<char>>(v@),
            },
    {
        match value {
            None => Ok(RunnerKind::Embed),
            Some(v) => if crate::text::same(v, "") || crate::text::same(v, "embed") {
                Ok(RunnerKind::Embed)
            } else if crate::text::same(v, "raw") {
                Ok(RunnerKind::Raw)
            } else if crate::text::same(v, "hosted") {
                Ok(RunnerKind::Hosted)
            } else {
                Err(v.to_owned())
            },
        }
    }

    /// The runner's name in the log.
    pub fn name(self) -> (r: &'static str)
        ensures
            r == (match self {
                RunnerKind::Embed => "embed",
                RunnerKind::Raw => "raw",
                RunnerKind::Hosted => "hosted",
            }),
    {
        match self {
            RunnerKind::Embed => "embed",
            RunnerKind::Raw => "raw",
            RunnerKind::Hosted => "hosted",
        }
    }

    /// The host's one sentence on the mechanics, for the standing contract:
    /// over MCP for the embed runner, direct for the other two.
    pub fn how_to_call(self) -> (r: &'static str)
        ensures
            r == (match self {
                RunnerKind::Embed => OVER_MCP,
                _ => DIRECT,
            }),
    {
        match self {
            RunnerKind::Embed => OVER_MCP,
            RunnerKind::Raw | RunnerKind::Hosted => DIRECT,
        }
    }
}

/// Opens a turn for `seat` on the shared record: what it may `read`, and
/// the chat and thread every call it makes must name.
pub fn open_seat(tools: &mut EpisodeTools, seat: &str, window: Vec<String>, dispatch: Dispatch)
    requires
        old(tools).wf(),
    ensures
        final(tools).wf(),
        final(tools)@ == (ToolsState {
            windows: old(tools)@.windows.insert(seat@, window@),
            turns: old(tools)@.turns.insert(seat@, dispatch),
            ..old(tools)@
        }),
{
    tools.window(seat, window);
    tools.register(seat, dispatch);
}

/// Closes `seat`'s turn and takes what it called, in call order.
pub fn close_seat(tools: &mut EpisodeTools, seat: &str) -> (r: Vec<SeatEvent>)
    requires
        old(tools).wf(),
    ensures
        final(tools).wf(),
        r@ == listed(old(tools)@.inbox, seat@),
        final(tools)@ == (ToolsState {
            turns: old(tools)@.turns.remove(seat@),
            inbox: old(tools)@.inbox.remove(seat@),
            ..old(tools)@
        }),
{
    tools.clear(seat);
    tools.drain(seat)
}

} // verus!
