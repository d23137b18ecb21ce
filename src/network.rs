//! Decisions of the network layer: how responses are keyed in the on-disk
//! cache, when a failed request is tried again, and what a cached query does
//! with what it read or fetched. The requests, the waiting and the files
//! themselves are the caller's.
use vstd::prelude::*;
use vstd::string::{StrSliceExecFns, StringExecFns};

verus! {

/// Requests that may be in flight at once.
pub const REQUEST_CONCURRENCY: usize = 12;

/// Milliseconds to wait before asking again for a free request slot.
pub const POLL_INTERVAL_MS: u64 = 100;

/// Attempts after which a failing request is given up.
pub const RETRIES: u32 = 10;

/// Hex characters of the digest that name a cache entry.
pub const CACHE_KEY_LEN: usize = 24;

/// The lowercase hex BLAKE3 digest of the UTF-8 encoding of `text`.
pub uninterp spec fn blake3_hex_of(text: Seq<char>) -> Seq<char>;

/// Relies on `blake3::hash` and `Hash::to_hex`: 64 lowercase hex digits of
/// the 32-byte digest of the bytes given.
#[verifier::external_body]
fn digest_hex(text: &str) -> (r: String)
    ensures
        r@ == blake3_hex_of(text@),
        r@.len() == 64,
{
    blake3::hash(text.as_bytes()).to_hex().to_string()
}

/// The name of the cache entry for a query text sent to a data source: the
/// first 24 hex digits of the digest of the source name followed by the text.
pub fn cache_key(subgraph_name: &str, graphql: &str) -> (r: String)
    ensures
        r@ == blake3_hex_of(subgraph_name@ + graphql@).take(CACHE_KEY_LEN as int),
{
    let mut text = <String as StringExecFns>::from_str(subgraph_name);
    text.append(graphql);
    let digest = digest_hex(text.as_str());
    digest.as_str().substring_char(0, CACHE_KEY_LEN).to_owned()
}

/// What to do after an attempt at a request.
#[derive(Debug, Clone, Copy, PartialEq, Eq, Structural)]
pub enum Attempt {
    /// It succeeded: use its result.
    Done,
    /// It failed: wait this many seconds, then try again.
    RetryAfter(u64),
    /// It failed once too often: the run cannot go on.
    GiveUp,
}

pub open spec fn attempt_outcome(attempt: u32, succeeded: bool) -> Attempt {
    if succeeded {
        Attempt::Done
    } else if attempt < RETRIES {
        Attempt::RetryAfter(attempt as u64)
    } else {
        Attempt::GiveUp
    }
}

/// The retry policy: attempt `i` (from 0) that fails is followed by a wait
/// of `i` seconds, so the first retry comes at once; a failure of attempt
/// `RETRIES` is final.
pub fn retry_step(attempt: u32, succeeded: bool) -> (r: Attempt)
    ensures
        r == attempt_outcome(attempt, succeeded),
{
    if succeeded {
        Attempt::Done
    } else if attempt < RETRIES {
        Attempt::RetryAfter(attempt as u64)
    } else {
        Attempt::GiveUp
    }
}

/// What a cached query does with the bytes it has in hand.
#[derive(Debug, Clone, Copy, PartialEq, Eq, Structural)]
pub enum CacheAction {
    /// The bytes came from the cache and decode: use them, ask no one.
    Deliver,
    /// The bytes were fetched and decode: write them to the cache, use them.
    StoreAndDeliver,
    /// The fetched bytes do not decode: write nothing, wait, fetch again.
    Refetch(u64),
    /// Nothing usable can be had.
    GiveUp,
}

pub open spec fn cache_outcome(from_cache: bool, decoded: bool, attempt: u32) -> CacheAction {
    if from_cache {
        if decoded {
            CacheAction::Deliver
        } else {
            CacheAction::GiveUp
        }
    } else if decoded {
        CacheAction::StoreAndDeliver
    } else {
        match attempt_outcome(attempt, false) {
            Attempt::RetryAfter(s) => CacheAction::Refetch(s),
            _ => CacheAction::GiveUp,
        }
    }
}

/// The step of a cached query once bytes are in hand, read from the cache
/// (`from_cache`) or fetched by attempt `attempt`, and tried as a response.
/// Only fetched bytes that decode are ever stored; cached bytes are trusted
/// and never cause a request.
pub fn cached_query_step(from_cache: bool, decoded: bool, attempt: u32) -> (r: CacheAction)
    ensures
        r == cache_outcome(from_cache, decoded, attempt),
        r == CacheAction::StoreAndDeliver ==> decoded && !from_cache,
        from_cache ==> !(r is Refetch) && r != CacheAction::StoreAndDeliver,
{
    if from_cache {
        if decoded {
            CacheAction::Deliver
        } else {
            CacheAction::GiveUp
        }
    } else if decoded {
        CacheAction::StoreAndDeliver
    } else {
        match retry_step(attempt, false) {
            Attempt::RetryAfter(s) => CacheAction::Refetch(s),
            _ => CacheAction::GiveUp,
        }
    }
}

/// Asking the same source the same query twice (which `cache_key` maps to
/// one entry): the first stores what it fetched once that decodes, and the
/// second delivers those bytes without a request.
pub proof fn lemma_repeat_query_uses_cache(attempt: u32)
    ensures
        cache_outcome(false, true, attempt) == CacheAction::StoreAndDeliver,
        cache_outcome(true, true, 0) == CacheAction::Deliver,
{
}

/// A fetched response that does not decode is never stored, and is fetched
/// again while attempts remain.
pub proof fn lemma_bad_response_not_cached(attempt: u32)
    ensures
        cache_outcome(false, false, attempt) != CacheAction::StoreAndDeliver,
        attempt < RETRIES ==> cache_outcome(false, false, attempt) == CacheAction::Refetch(
            attempt as u64,
        ),
{
}

} // verus!
