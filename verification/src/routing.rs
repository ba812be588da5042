//! What a router is asked: a message, where it was said, who may take it,
//! and the policy its answer is held to.
use vstd::prelude::*;

use crate::responder::Probability;
use crate::session::Sequence;
use crate::text::views;

verus! {

/// One seat a message may be routed to, as the router sees it.
#[derive(Debug)]
pub struct RouteCandidate {
    /// Its canonical id.
    pub id: String,
    /// How it is shown.
    pub label: String,
    /// Its role, if it has one.
    pub role: Option<String>,
    /// What it is, if described.
    pub description: Option<String>,
    /// What it can do.
    pub capabilities: Vec<String>,
    /// What it has learned about.
    pub learned_topics: Vec<String>,
    /// Whether it may take a turn now.
    pub available: bool,
}

/// A candidate as plain values.
pub open spec fn candidate_view(c: RouteCandidate) -> (Seq<char>, Seq<char>, Option<Seq<char>>, Option<Seq<char>>, Seq<Seq<char>>, Seq<Seq<char>>, bool) {
    (c.id@, c.label@, crate::text::text_opt(c.role), crate::text::text_opt(c.description), views(c.capabilities@), views(c.learned_topics@), c.available)
}

/// A copy of an optional text.
pub fn copy_opt(o: &Option<String>) -> (r: Option<String>)
    ensures
        r == *o,
{
    match o {
        Some(s) => Some(s.clone()),
        None => None,
    }
}

impl RouteCandidate {
    /// A copy of the candidate.
    pub fn copy(&self) -> (r: RouteCandidate)
        ensures
            candidate_view(r) == candidate_view(*self),
    {
        RouteCandidate {
            id: self.id.clone(),
            label: self.label.clone(),
            role: copy_opt(&self.role),
            description: copy_opt(&self.description),
            capabilities: crate::speech::copy_all(&self.capabilities),
            learned_topics: crate::speech::copy_all(&self.learned_topics),
            available: self.available,
        }
    }
}

/// Who a message to route comes from.
#[derive(Debug)]
pub enum RoutingSource {
    /// Someone said it on the desk.
    DeskMessage,
    /// A seat is handing work off.
    AgentBroadcast {
        /// The seat.
        author_id: String,
    },
}

/// What kind of conversation a message was said in.
#[derive(Clone, Copy, Debug, PartialEq, Eq)]
pub enum ConversationKind {
    /// A desk.
    Desk,
}

/// Where a message to route was said.
#[derive(Debug)]
pub struct ConversationRef {
    /// The conversation's id.
    pub id: String,
    /// Its kind.
    pub kind: ConversationKind,
    /// The thread, if it is one.
    pub thread_root: Option<Sequence>,
}

/// The frozen policy a router's answer is held to.
#[derive(Clone, Copy, Debug, PartialEq, Eq, Structural)]
pub struct RoutingPolicy {
    /// Confidence below which no one is placed.
    pub minimum_confidence: Probability,
    /// The same, for a high-impact message.
    pub high_impact_minimum_confidence: Probability,
    /// Above this, others are invited.
    pub collaboration_threshold: Probability,
    /// Above this, a candidate is invited.
    pub contribution_threshold: Probability,
    /// Above this, the author is asked to say more.
    pub clarification_threshold: Probability,
    /// Above this, a message is high-impact.
    pub high_impact_threshold: Probability,
    /// At most this many seats are placed.
    pub round_width: usize,
    /// At most this many alternatives go into one choice.
    pub choice_option_limit: usize,
}

/// What a router is asked to place a message with.
#[derive(Debug)]
pub struct RoutingRequest {
    /// The message.
    pub message: String,
    /// Who it comes from.
    pub source: RoutingSource,
    /// Where it was said.
    pub conversation: ConversationRef,
    /// What the desk is for, if it says.
    pub desk_purpose: Option<String>,
    /// The thread context the host selected, attributed.
    pub thread_context: Vec<String>,
    /// Who it may be placed with.
    pub candidates: Vec<RouteCandidate>,
    /// The candidate snapshot's version.
    pub roster_version: u64,
    /// The policy.
    pub policy: RoutingPolicy,
}

} // verus!
