//! The values the API hands back, as plain data.
use vstd::prelude::*;

verus! {

/// The content of one entry in the realm status response.
pub struct RealmInfo {
    pub name: String,
    pub slug: String,
    /// Slugs of every realm sharing this realm's auction house, itself included.
    pub connected_realms: Vec<String>,
}

/// The content of an item info response.
pub struct ItemInfo {
    pub id: u64,
    pub name: String,
    pub icon: String,
}

/// One listing of the auction house. A `buyout` of 0 means there is no buyout.
#[derive(Clone, Copy, Debug, PartialEq, Eq, Structural)]
pub struct AuctionListing {
    pub item: u64,
    pub buyout: u64,
    pub quantity: u64,
}

/// Where the current auction snapshot of a realm lies, and when it last changed.
pub struct AuctionDataPointer {
    pub url: String,
    pub last_modified: u64,
}

/// The auction status reply: the pointers to the current snapshot.
pub struct AuctionDataReply {
    pub files: Vec<AuctionDataPointer>,
}

/// The auction listings reply. The per-realm metadata it also carries is not kept.
pub struct AuctionListingsReply {
    pub auctions: Vec<AuctionListing>,
}

/// The API credential. The transport and the rate limiter that requests go
/// through are held by the caller.
pub struct BattleNetApiClient {
    pub token: String,
}

impl BattleNetApiClient {
    pub fn new(token: &str) -> (r: BattleNetApiClient)
        ensures
            r.token@ == token@,
    {
        BattleNetApiClient { token: token.to_owned() }
    }
}

} // verus!
