//! Cache entries as the layers store them.

use vstd::prelude::*;

verus! {

/// A stored value with optional time-to-live and string metadata. The
/// coordinator only forwards entries; it never inspects their contents
/// beyond existence or absence.
#[derive(Debug)]
pub struct CacheEntry {
    /// The value bytes.
    pub value: Vec<u8>,
    /// Optional time-to-live, in seconds.
    pub ttl: Option<u64>,
    /// Free-form metadata pairs.
    pub metadata: Vec<(String, String)>,
}

impl CacheEntry {
    /// An entry holding only the value.
    pub fn new(value: Vec<u8>) -> (r: CacheEntry)
        ensures
            r.value == value,
            r.ttl is None,
            r.metadata@.len() == 0,
    {
        CacheEntry { value, ttl: None, metadata: Vec::new() }
    }

    /// An entry with a time-to-live.
    pub fn with_ttl(value: Vec<u8>, ttl: u64) -> (r: CacheEntry)
        ensures
            r.value == value,
            r.ttl == Some(ttl),
            r.metadata@.len() == 0,
    {
        CacheEntry { value, ttl: Some(ttl), metadata: Vec::new() }
    }
}

} // verus!
