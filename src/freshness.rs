//! Whether an auction snapshot is worth downloading.
use vstd::prelude::*;
use crate::model::{AuctionDataPointer, AuctionDataReply, AuctionListing, AuctionListingsReply};

verus! {

/// A snapshot last modified at `last_modified` is skipped when it is no newer
/// than `cutoff`.
pub open spec fn is_stale(last_modified: int, cutoff: int) -> bool {
    last_modified <= cutoff
}

/// Decides whether the snapshot behind a pointer is skipped: `true` exactly
/// when `last_modified <= cutoff`, the boundary included.
pub fn should_skip(last_modified: u64, cutoff: u64) -> (skip: bool)
    ensures
        skip == is_stale(last_modified as int, cutoff as int),
{
    last_modified <= cutoff
}

/// From the auction status reply, the pointer to follow, or `None` when the
/// snapshot has not changed since `cutoff`. The reply's last pointer is the one
/// that counts.
pub fn select_snapshot(reply: AuctionDataReply, cutoff: u64) -> (r: Option<AuctionDataPointer>)
    requires
        reply.files@.len() > 0,
    ensures
        ({
            let p = reply.files@.last();
            &&& is_stale(p.last_modified as int, cutoff as int) <==> r is None
            &&& r matches Some(q) ==> q == p
        }),
{
    let mut files = reply.files;
    let pointer = files.pop().unwrap();
    if should_skip(pointer.last_modified, cutoff) {
        None
    } else {
        Some(pointer)
    }
}

/// The outcome of a fetch that went ahead: the snapshot's time and its listings.
pub fn snapshot_listings(pointer: &AuctionDataPointer, reply: AuctionListingsReply) -> (r: (
    u64,
    Vec<AuctionListing>,
))
    ensures
        r.0 == pointer.last_modified,
        r.1@ == reply.auctions@,
{
    (pointer.last_modified, reply.auctions)
}

} // verus!
