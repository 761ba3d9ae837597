//! A miniature key-value storage engine: a concurrent map with TTL-based
//! expiration and LRU eviction, a write-ahead log that records every
//! mutation, and full-state snapshots, together with the command and wire
//! protocol layers that drive it.
use vstd::prelude::*;

pub mod command;
pub mod concmap;
pub mod digits;
pub mod persistence;
pub mod resp;
pub mod store;
pub mod wal;

verus! {

/// The absolute expiration computed from an optional relative TTL.
/// Saturates at the largest representable timestamp.
pub open spec fn spec_expiry(ttl: Option<u64>, now: u64) -> Option<u64> {
    match ttl {
        Some(t) => if now + t <= u64::MAX { Some((now + t) as u64) } else { Some(u64::MAX) },
        None => None,
    }
}

/// Computes the absolute expiration timestamp for an entry stored at `now`
/// with the given relative TTL in seconds, saturating on overflow.
pub fn expiry_of(ttl: Option<u64>, now: u64) -> (r: Option<u64>)
    ensures
        r == spec_expiry(ttl, now),
{
    match ttl {
        Some(t) => Some(if t <= u64::MAX - now { now + t } else { u64::MAX }),
        None => None,
    }
}

/// Relies on `String::from_utf8`: it succeeds exactly on valid UTF-8 input,
/// and the returned string consists of exactly the input bytes.
#[verifier::external_body]
pub fn bytes_to_string(b: Vec<u8>) -> (r: Option<String>)
    ensures
        r is Some <==> vstd::utf8::valid_utf8(b@),
        r matches Some(s) ==> vstd::utf8::encode_utf8(s@) == b@,
{
    String::from_utf8(b).ok()
}

} // verus!
