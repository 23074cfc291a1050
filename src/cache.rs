//! Single-flight caching of calendar renders: a fresh result is served from the cache,
//! and of requests arriving while nothing fresh is cached exactly one builds while
//! the others wait for it.
use vstd::prelude::*;

use crate::error::Error;
use crate::rule::text_eq;

verus! {

/// How long a built calendar is served, in seconds: fifteen minutes.
pub const CACHE_TTL_SECS: u64 = 900;

/// A built calendar, the key it was built for and when it was built.
#[derive(Clone, Debug)]
pub struct CacheEntry {
    pub key: String,
    pub value: String,
    pub created_at: u64,
}

/// What a request is to do.
#[derive(Clone, Debug, PartialEq, Eq)]
pub enum GateAction {
    /// Answer with this cached text.
    Serve(String),
    /// Run the build, then report it with `finish`.
    Build,
    /// A build is running: wait for its outcome.
    Wait,
}

/// The cache entry and whether a build is in flight.
pub struct CacheGate {
    pub entry: Option<CacheEntry>,
    pub building: bool,
}

impl CacheGate {
    /// Whether the entry answers `key` at time `now`.
    pub open spec fn fresh(&self, key: Seq<char>, now: int) -> bool {
        self.entry matches Some(e) && e.key@ == key && e.created_at <= now < e.created_at
            + CACHE_TTL_SECS
    }

    /// An empty gate.
    pub fn new() -> (r: Self)
        ensures
            r.entry is None,
            !r.building,
    {
        CacheGate { entry: None, building: false }
    }

    /// Decides a request for `key` at time `now` (seconds): serve a fresh entry,
    /// else wait for the build in flight, else start one.
    pub fn request(&mut self, key: &str, now: u64) -> (r: GateAction)
        ensures
            old(self).fresh(key@, now as int) ==> (r matches GateAction::Serve(v) && v@
                == old(self).entry->0.value@) && *final(self) == *old(self),
            !old(self).fresh(key@, now as int) && old(self).building ==> r is Wait && *final(self)
                == *old(self),
            !old(self).fresh(key@, now as int) && !old(self).building ==> r is Build
                && final(self).building && final(self).entry == old(self).entry,
    {
        let fresh = match &self.entry {
            Some(e) => text_eq(e.key.as_str(), key) && e.created_at <= now && now - e.created_at
                < CACHE_TTL_SECS,
            None => false,
        };
        if fresh {
            let v = self.entry.as_ref().unwrap().value.clone();
            GateAction::Serve(v)
        } else if self.building {
            GateAction::Wait
        } else {
            self.building = true;
            GateAction::Build
        }
    }

    /// Records the outcome of the build in flight: a calendar is cached for `key`
    /// from `now`; a failure leaves the cache as it was.
    pub fn finish(&mut self, key: &str, result: &Result<String, Error>, now: u64)
        ensures
            !final(self).building,
            result matches Ok(v) ==> (final(self).entry matches Some(e) && e.key@ == key@
                && e.value@ == v@ && e.created_at == now),
            result is Err ==> final(self).entry == old(self).entry,
    {
        self.building = false;
        match result {
            Ok(v) => {
                self.entry = Some(
                    CacheEntry { key: key.to_string(), value: v.clone(), created_at: now },
                );
            },
            Err(_) => {},
        }
    }
}

} // verus!
