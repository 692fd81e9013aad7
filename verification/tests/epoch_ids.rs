use history_sync::epoch_ids::{
    epoch_ids_from_response, epoch_ids_request, BlockHashType, BlockHashes,
    RequestBlockHashesFilter, MAX_LOCATOR_REPLY,
};
use history_sync::hash::Blake2bHash;
use history_sync::sync::{HistorySync, HistorySyncReturn};
use history_sync::epoch_ids::{ElectionHead, EpochIds};

fn h(n: u8) -> Blake2bHash {
    Blake2bHash::new([n; 32])
}

#[test]
fn hashes_are_equal_byte_by_byte() {
    let mut bytes = [3u8; 32];
    assert_eq!(Blake2bHash::new(bytes), h(3));
    bytes[31] = 4;
    assert_ne!(Blake2bHash::new(bytes), h(3));
    assert_eq!(Blake2bHash::new(bytes).as_bytes(), &bytes);
}

#[test]
fn the_macro_head_comes_before_the_election_head() {
    let request = epoch_ids_request(&h(1), &h(2));
    assert_eq!(request.locators, vec![h(2), h(1)]);
    assert_eq!(request.max_blocks, 1000);
    assert_eq!(request.max_blocks, MAX_LOCATOR_REPLY);
    assert_eq!(request.filter, RequestBlockHashesFilter::ElectionAndLatestCheckpoint);
    // Where both are the same block, it is sent once.
    let request = epoch_ids_request(&h(1), &h(1));
    assert_eq!(request.locators, vec![h(1)]);
}

#[test]
fn a_reply_without_hashes_means_that_no_locator_was_known() {
    let ids = epoch_ids_from_response(&BlockHashes { hashes: None }, 7, 42);
    assert!(!ids.locator_found);
    assert!(ids.ids.is_empty());
    assert_eq!(ids.checkpoint_id, None);
    assert_eq!(ids.first_epoch_number, 0);
    assert_eq!(ids.sender, 42);
}

#[test]
fn a_reply_is_parted_into_election_ids_and_checkpoint() {
    let reply = BlockHashes {
        hashes: Some(vec![
            (BlockHashType::Election, h(1)),
            (BlockHashType::Micro, h(9)),
            (BlockHashType::Election, h(2)),
            (BlockHashType::Checkpoint, h(3)),
        ]),
    };
    let ids = epoch_ids_from_response(&reply, 7, 42);
    assert!(ids.locator_found);
    assert_eq!(ids.ids, vec![h(1), h(2)]);
    assert_eq!(ids.checkpoint_id, Some(h(3)));
    assert_eq!(ids.first_epoch_number, 8);
    assert_eq!(ids.get_checkpoint_epoch(), 10);
    assert_eq!(ids.sender, 42);
    // Only the last hash can be the checkpoint.
    let reply = BlockHashes {
        hashes: Some(vec![(BlockHashType::Checkpoint, h(3)), (BlockHashType::Election, h(1))]),
    };
    let ids = epoch_ids_from_response(&reply, 0, 1);
    assert_eq!(ids.ids, vec![h(1)]);
    assert_eq!(ids.checkpoint_id, None);
    assert_eq!(ids.first_epoch_number, 1);
    // An empty reply: the peer has nothing beyond the locator.
    let ids = epoch_ids_from_response(&BlockHashes { hashes: Some(vec![]) }, 0, 1);
    assert!(ids.locator_found);
    assert!(ids.ids.is_empty());
    assert_eq!(ids.checkpoint_id, None);
}

#[test]
fn peers_are_told_good_or_outdated() {
    let head = ElectionHead { hash: h(0), epoch_number: 0 };
    let mut sync = HistorySync::new();
    let unknown = EpochIds {
        locator_found: false,
        ids: vec![],
        checkpoint_id: None,
        first_epoch_number: 0,
        sender: 1,
    };
    assert_eq!(sync.handle_epoch_ids(unknown, &head), Some(HistorySyncReturn::Outdated(1)));
    let synced = EpochIds {
        locator_found: true,
        ids: vec![],
        checkpoint_id: None,
        first_epoch_number: 1,
        sender: 2,
    };
    assert_eq!(sync.handle_epoch_ids(synced, &head), Some(HistorySyncReturn::Good(2)));
    let ahead = EpochIds {
        locator_found: true,
        ids: vec![h(1), h(2)],
        checkpoint_id: None,
        first_epoch_number: 1,
        sender: 3,
    };
    assert_eq!(sync.handle_epoch_ids(ahead, &head), None);
    assert_eq!(sync.epoch_clusters.len(), 1);
    let forked = EpochIds {
        locator_found: true,
        ids: vec![h(9), h(2)],
        checkpoint_id: None,
        first_epoch_number: 0,
        sender: 4,
    };
    assert_eq!(sync.handle_epoch_ids(forked, &head), Some(HistorySyncReturn::Outdated(4)));
    assert!(sync.wants_epoch_ids());
    assert_eq!(HistorySync::MAX_CLUSTERS, 128);
}

#[test]
fn epoch_numbers_must_be_representable() {
    let mut ids = EpochIds {
        locator_found: true,
        ids: vec![h(1), h(2)],
        checkpoint_id: Some(h(3)),
        first_epoch_number: usize::MAX - 3,
        sender: 1,
    };
    assert!(ids.in_range());
    assert_eq!(ids.get_checkpoint_epoch(), usize::MAX - 1);
    ids.first_epoch_number = usize::MAX - 2;
    assert!(!ids.in_range());
    ids.checkpoint_id = None;
    assert!(ids.in_range());
    ids.first_epoch_number = usize::MAX - 1;
    assert!(!ids.in_range());
}
