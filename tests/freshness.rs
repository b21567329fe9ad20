use battle_net_api::freshness::{select_snapshot, should_skip, snapshot_listings};
use battle_net_api::model::{AuctionDataPointer, AuctionDataReply, AuctionListing, AuctionListingsReply};

fn reply(last_modified: u64) -> AuctionDataReply {
    AuctionDataReply {
        files: vec![AuctionDataPointer { url: "http://example.test/auctions.json".to_string(), last_modified }],
    }
}

#[test]
fn skip_at_and_below_cutoff() {
    assert!(should_skip(100, 100));
    assert!(should_skip(99, 100));
    assert!(should_skip(0, 0));
    assert!(should_skip(0, u64::MAX));
    assert!(!should_skip(101, 100));
    assert!(!should_skip(u64::MAX, 0));
}

#[test]
fn unchanged_snapshot_gives_none() {
    assert!(select_snapshot(reply(100), 100).is_none());
}

#[test]
fn newer_snapshot_gives_its_listings() {
    let pointer = select_snapshot(reply(150), 100).expect("a newer snapshot is fetched");
    assert_eq!(pointer.last_modified, 150);
    assert_eq!(pointer.url, "http://example.test/auctions.json");
    let listings = AuctionListingsReply { auctions: vec![AuctionListing { item: 1, buyout: 500, quantity: 10 }] };
    let (last_modified, auctions) = snapshot_listings(&pointer, listings);
    assert_eq!(last_modified, 150);
    assert_eq!(auctions, vec![AuctionListing { item: 1, buyout: 500, quantity: 10 }]);
}

#[test]
fn last_pointer_counts() {
    let r = AuctionDataReply {
        files: vec![
            AuctionDataPointer { url: "old".to_string(), last_modified: 500 },
            AuctionDataPointer { url: "new".to_string(), last_modified: 50 },
        ],
    };
    assert!(select_snapshot(r, 100).is_none());
}
