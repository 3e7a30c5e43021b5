//! The decisions of one read request: from the request parameter to a limit
//! and a key, from the cache to a reply or a fetch, and from the outcome of
//! the fetch to the cache's new contents and a reply.
//!
//! The caller owns the store, the clock and the upstream source: it takes
//! whatever lock guards the store, reads the clock, performs the fetch that a
//! step asks for, and hands the outcome back.

use crate::key::{cache_key, key_text};
use crate::limit::{normalize, normalized, param_text, parsed_param, MAX_LIMIT};
use crate::store::{fresh_payload, served, share, snapshot, swept, CacheStore, Snapshot};
use std::sync::Arc;
use vstd::prelude::*;
use vstd::string::StringExecFns;

verus! {

/// How long an entry is served from the cache: 300 seconds, in nanoseconds,
/// the unit of every instant that this module takes.
pub const CACHE_TTL: u64 = 300_000_000_000;

/// A read request after normalisation.
pub struct Request {
    pub limit: i32,
    pub key: String,
}

/// The envelope of a response.
pub enum Reply<T> {
    Success { data: Arc<Vec<T>>, count: usize, limit: i32, cached: bool },
    Failure { message: String },
}

/// What follows the look into the cache.
pub enum Step<T> {
    /// The cache held fresh rows: answer with this reply.
    Respond(Reply<T>),
    /// It held none: fetch up to `limit` of the most recent rows upstream.
    Fetch { limit: i32 },
}

/// The message of the reply to a request whose fetch failed with `cause`.
pub open spec fn failure_text(cause: Seq<char>) -> Seq<char> {
    "Error: "@ + cause
}

/// Whether `reply` is the success envelope for `rows`: the rows, their count,
/// the limit and the cached flag as given.
pub open spec fn answers_with<T>(reply: Reply<T>, rows: Seq<T>, limit: i32, cached: bool) -> bool {
    match reply {
        Reply::Success { data, count, limit: said, cached: flag } => data@ == rows && count
            == rows.len() && said == limit && flag == cached,
        Reply::Failure { .. } => false,
    }
}

/// Whether `reply` is the failure envelope for a fetch that failed with `cause`.
pub open spec fn fails_with<T>(reply: Reply<T>, cause: Seq<char>) -> bool {
    match reply {
        Reply::Success { .. } => false,
        Reply::Failure { message } => message@ == failure_text(cause),
    }
}

/// The entries of a store after `rows` were stored under `key` at `now` and
/// the expired entries swept.
pub open spec fn stored_and_swept<T>(
    entries: Map<Seq<char>, Snapshot<T>>,
    key: Seq<char>,
    rows: Seq<T>,
    now: u64,
) -> Map<Seq<char>, Snapshot<T>> {
    swept(entries.insert(key, snapshot(rows, now)), now, CACHE_TTL)
}

/// Normalises the limit parameter of a request and derives its cache key.
pub fn begin(param: Option<&str>) -> (request: Request)
    ensures
        request.limit == normalized(parsed_param(param_text(param))),
        request.limit <= MAX_LIMIT,
        request.key@ == key_text(request.limit as int),
{
    let limit = normalize(param);
    Request { limit, key: cache_key(limit) }
}

/// Looks into the cache at `now`. Fresh rows under the request's key are
/// answered as cached, with their count and the request's limit; otherwise a
/// fetch for the request's limit is asked for. The store is left as it is.
pub fn consult<T>(store: &CacheStore<T>, request: &Request, now: u64) -> (step: Step<T>)
    ensures
        (match (fresh_payload(store@, request.key@, now, CACHE_TTL), step) {
            (Some(rows), Step::Respond(reply)) => answers_with(reply, rows, request.limit, true),
            (None, Step::Fetch { limit }) => limit == request.limit,
            _ => false,
        }),
{
    match store.fresh_lookup(&request.key, now, CACHE_TTL) {
        Some(data) => {
            let count = data.len();
            Step::Respond(Reply::Success { data, count, limit: request.limit, cached: true })
        },
        None => Step::Fetch { limit: request.limit },
    }
}

/// Takes the outcome of the fetch at `now`. Fetched rows are stored under the
/// request's key in place of what was there, expired entries are swept, and
/// the rows are answered as not cached. A failure is answered with its cause
/// and leaves the store exactly as it was.
pub fn settle<T>(
    store: &mut CacheStore<T>,
    request: &Request,
    outcome: Result<Vec<T>, String>,
    now: u64,
) -> (reply: Reply<T>)
    ensures
        (match outcome {
            Ok(rows) => final(store)@ == stored_and_swept(old(store)@, request.key@, rows@, now)
                && answers_with(reply, rows@, request.limit, false),
            Err(cause) => *final(store) == *old(store) && fails_with(reply, cause@),
        }),
{
    match outcome {
        Ok(rows) => {
            let count = rows.len();
            let data = Arc::new(rows);
            store.insert(request.key.clone(), share(&data), now);
            store.sweep_expired(now, CACHE_TTL);
            Reply::Success { data, count, limit: request.limit, cached: false }
        },
        Err(cause) => {
            let message = String::from_str("Error: ").concat(cause.as_str());
            Reply::Failure { message }
        },
    }
}

/// Fetched rows are served until they expire: after the rows of a fetch were
/// stored at `stored_at`, a look into the cache for the same key at `now`
/// finds exactly those rows while less than the time to live has passed, and
/// nothing from then on.
pub proof fn stored_rows_are_served_until_expiry<T>(
    entries: Map<Seq<char>, Snapshot<T>>,
    key: Seq<char>,
    rows: Seq<T>,
    stored_at: u64,
    now: u64,
)
    requires
        stored_at <= now,
    ensures
        fresh_payload(stored_and_swept(entries, key, rows, stored_at), key, now, CACHE_TTL)
            == served(rows, now - stored_at < CACHE_TTL),
{
}

} // verus!
