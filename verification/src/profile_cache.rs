//! Settings of the profile validation cache: entry priorities and the
//! cache configuration.

use vstd::prelude::*;
use std::time::Duration;

verus! {

/// The priority of a cache entry, from the first to be evicted to the
/// never evicted.
#[derive(Debug, Clone, Copy, PartialEq, Eq, Hash, PartialOrd, Ord, Structural)]
pub enum CachePriority {
    /// May be evicted quickly.
    Low,
    /// The usual priority.
    Normal,
    /// Kept in preference.
    High,
    /// Never evicted.
    Critical,
}

impl Default for CachePriority {
    fn default() -> (r: Self)
        ensures
            r == CachePriority::Normal,
    {
        CachePriority::Normal
    }
}

/// `Duration` is `Copy`: its `clone` gives the same duration.
pub assume_specification [<std::time::Duration as Clone>::clone](d: &Duration) -> (r: Duration)
    ensures
        r == *d,
;

/// The configuration of the profile validation cache.
#[derive(Debug, Clone)]
pub struct ProfileCacheConfig {
    /// The most entries the cache holds.
    pub max_entries: usize,
    /// How long an entry stays valid unless told otherwise.
    pub default_ttl: Duration,
    /// Whether eviction goes by priority.
    pub priority_eviction: bool,
    /// Whether statistics are kept.
    pub track_statistics: bool,
}

/// The duration of `secs` whole seconds (`std::time::Duration::from_secs`).
/// Nothing is stated of the value: no contract here reads a duration.
#[verifier::external_body]
fn duration_from_secs(secs: u64) -> Duration {
    Duration::from_secs(secs)
}

impl Default for ProfileCacheConfig {
    /// A thousand entries, valid for an hour, evicted by priority, with
    /// statistics.
    fn default() -> (r: Self)
        ensures
            r.max_entries == 1000,
            r.priority_eviction,
            r.track_statistics,
    {
        ProfileCacheConfig {
            max_entries: 1000,
            default_ttl: duration_from_secs(3600),
            priority_eviction: true,
            track_statistics: true,
        }
    }
}

impl ProfileCacheConfig {
    /// The default configuration.
    pub fn new() -> (r: Self)
        ensures
            r.max_entries == 1000,
            r.priority_eviction,
            r.track_statistics,
    {
        ProfileCacheConfig::default()
    }

    /// The configuration with another entry limit.
    pub fn with_max_entries(self, max_entries: usize) -> (r: Self)
        ensures
            r.max_entries == max_entries,
            r.default_ttl == self.default_ttl,
            r.priority_eviction == self.priority_eviction,
            r.track_statistics == self.track_statistics,
    {
        let mut r = self;
        r.max_entries = max_entries;
        r
    }

    /// The configuration with another entry lifetime.
    pub fn with_ttl(self, ttl: Duration) -> (r: Self)
        ensures
            r.max_entries == self.max_entries,
            r.default_ttl == ttl,
            r.priority_eviction == self.priority_eviction,
            r.track_statistics == self.track_statistics,
    {
        let mut r = self;
        r.default_ttl = ttl;
        r
    }
}

} // verus!
