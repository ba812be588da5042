//! TinyHiveMind: a desk of agent seats that speak through a small fixed
//! vocabulary of tools, and a host that runs their turns.
//!
//! The library holds the rules as verified code: what a seat may say and
//! how a call is read ([`speech`]), what the tool server records between
//! calls ([`tools`]), the resumable completion state a host folds committed
//! events into ([`driver`]), the journals a host reads as its log
//! ([`journal`], [`offline`]), the runners' pure decisions ([`hosted`],
//! [`embed`], [`raw`], [`runner`]), routing questions and fixed-point
//! answers ([`router`], [`responder`]), and approvals ([`approval`]).
use vstd::prelude::*;

pub mod approval;
pub mod driver;
pub mod elsewhere;
pub mod embed;
pub mod episode;
pub mod error;
pub mod hosted;
pub mod journal;
pub mod keyed;
pub mod offline;
pub mod raw;
pub mod responder;
pub mod routing;
pub mod router;
pub mod runner;
pub mod search;
pub mod session;
pub mod speech;
pub mod text;
pub mod tools;
