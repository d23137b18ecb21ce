//! Locating the blocks at which delegated stake positions changed, and turning
//! each change into burn and reward events.
//!
//! - `decimal`: exact decimal numbers, computed by `bigdecimal`.
//! - `grt`: token amounts.
//! - `queries`: the data served upstream, the amounts derived from a stake,
//!   and the query texts.
//! - `diff`: reconciling two snapshots into dated events.
//! - `bisect`: the decisions of the block-range search, and what it finds.
//! - `network`: cache keys, the retry policy and the cached-query steps.

pub mod decimal;
pub mod grt;
pub mod queries;
pub mod diff;
pub mod bisect;
pub mod network;
