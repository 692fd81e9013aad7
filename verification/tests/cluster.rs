use history_sync::cluster::{ClusterPoll, SyncCluster, SyncClusterResult};
use history_sync::hash::Blake2bHash;
use history_sync::sync::HistorySync;
use std::cmp::Ordering;

fn id_of(epoch: usize) -> Blake2bHash {
    let mut bytes = [0u8; 32];
    bytes[0..8].copy_from_slice(&(epoch as u64).to_le_bytes());
    Blake2bHash::new(bytes)
}

fn cluster(id: u64, first: usize, len: usize, peers: Vec<u64>) -> SyncCluster {
    let ids = (first..first + len).map(id_of).collect();
    SyncCluster::new(id, ids, first, peers)
}

#[test]
fn a_new_cluster_drops_duplicate_peers() {
    let c = cluster(7, 3, 4, vec![1, 2, 1, 3, 2]);
    assert_eq!(c.id, 7);
    assert_eq!(c.first_epoch_number, 3);
    assert_eq!(c.epoch_ids, vec![id_of(3), id_of(4), id_of(5), id_of(6)]);
    assert_eq!(c.peers(), &vec![1, 2, 3]);
    assert_eq!(c.num_epochs_finished(), 0);
}

#[test]
fn adding_a_peer_twice_adds_it_once() {
    let mut c = cluster(0, 1, 2, vec![1]);
    assert!(c.add_peer(2));
    assert!(!c.add_peer(2));
    assert!(!c.add_peer(1));
    assert_eq!(c.peers(), &vec![1, 2]);
    assert!(c.has_peer(2));
    assert!(!c.has_peer(3));
}

#[test]
fn removing_a_peer_keeps_the_others_in_order() {
    let mut c = cluster(0, 1, 2, vec![1, 2, 3]);
    assert!(c.remove_peer(2));
    assert!(!c.remove_peer(2));
    assert_eq!(c.peers(), &vec![1, 3]);
    assert!(c.remove_peer(1));
    assert!(c.remove_peer(3));
    assert!(c.peers().is_empty());
}

#[test]
fn split_off_keeps_the_front_and_hands_out_the_rest() {
    let mut c = cluster(4, 10, 6, vec![1, 2]);
    let tail = c.split_off(2, 9);
    assert_eq!(c.id, 4);
    assert_eq!(c.first_epoch_number, 10);
    assert_eq!(c.epoch_ids, vec![id_of(10), id_of(11)]);
    assert_eq!(tail.id, 9);
    assert_eq!(tail.first_epoch_number, 12);
    assert_eq!(tail.epoch_ids, vec![id_of(12), id_of(13), id_of(14), id_of(15)]);
    assert_eq!(tail.peers(), c.peers());
    assert_eq!(tail.num_epochs_finished(), 0);
    let mut joined = c.epoch_ids.clone();
    joined.extend(tail.epoch_ids.iter().copied());
    assert_eq!(joined, (10..16).map(id_of).collect::<Vec<Blake2bHash>>());
}

#[test]
fn remove_front_moves_the_first_epoch() {
    let mut c = cluster(0, 10, 6, vec![1]);
    c.remove_front(4);
    assert_eq!(c.first_epoch_number, 14);
    assert_eq!(c.epoch_ids, vec![id_of(14), id_of(15)]);
    c.remove_front(0);
    assert_eq!(c.first_epoch_number, 14);
    c.remove_front(2);
    assert_eq!(c.first_epoch_number, 16);
    assert!(c.epoch_ids.is_empty());
}

#[test]
fn the_scheduler_prefers_reach_then_age_then_peers_then_id() {
    let far = cluster(5, 4, 7, vec![1]);
    let near = cluster(1, 1, 9, vec![1, 2, 3]);
    assert_eq!(far.compare(&near, 0), Ordering::Greater);
    assert_eq!(near.compare(&far, 0), Ordering::Less);
    assert!(far.is_better_than(&near));
    // The same reach: the one that begins earlier.
    let old = cluster(5, 2, 9, vec![1]);
    let young = cluster(1, 4, 7, vec![1, 2]);
    assert_eq!(old.compare(&young, 0), Ordering::Greater);
    // The same range: the one with more peers.
    let many = cluster(5, 2, 9, vec![1, 2]);
    let few = cluster(1, 2, 9, vec![3]);
    assert_eq!(many.compare(&few, 0), Ordering::Greater);
    // All the same: the lower id.
    let first = cluster(1, 2, 9, vec![3]);
    let second = cluster(2, 2, 9, vec![4]);
    assert_eq!(first.compare(&second, 0), Ordering::Greater);
    assert_eq!(second.compare(&first, 100), Ordering::Less);
    assert_eq!(first.compare(&first, 0), Ordering::Equal);
}

#[test]
fn the_best_cluster_leaves_the_pool_and_the_front_takes_its_place() {
    let mut pool = vec![
        cluster(0, 1, 3, vec![1]),
        cluster(1, 1, 4, vec![1]),
        cluster(2, 1, 9, vec![1]),
        cluster(3, 1, 5, vec![1]),
    ];
    let best = HistorySync::find_best_cluster(&mut pool, 0).unwrap();
    assert_eq!(best.id, 2);
    assert_eq!(pool.iter().map(|c| c.id).collect::<Vec<u64>>(), vec![1, 0, 3]);
    let best = HistorySync::find_best_cluster(&mut pool, 0).unwrap();
    assert_eq!(best.id, 3);
    assert_eq!(pool.iter().map(|c| c.id).collect::<Vec<u64>>(), vec![0, 1]);
    let best = HistorySync::find_best_cluster(&mut pool, 0).unwrap();
    assert_eq!(best.id, 1);
    let best = HistorySync::find_best_cluster(&mut pool, 0).unwrap();
    assert_eq!(best.id, 0);
    assert!(HistorySync::find_best_cluster(&mut pool, 0).is_none());
}

#[test]
fn the_best_cluster_is_trimmed_to_the_epochs_after_the_head() {
    let mut pool = vec![cluster(0, 3, 6, vec![1])];
    let best = HistorySync::find_best_cluster(&mut pool, 5).unwrap();
    assert_eq!(best.first_epoch_number, 6);
    assert_eq!(best.epoch_ids, vec![id_of(6), id_of(7), id_of(8)]);
    // A cluster that begins after the head stays as it is.
    let mut pool = vec![cluster(0, 3, 6, vec![1])];
    let best = HistorySync::find_best_cluster(&mut pool, 2).unwrap();
    assert_eq!(best.first_epoch_number, 3);
    assert_eq!(best.epoch_ids.len(), 6);
    // A cluster that ends at the head comes out empty.
    let mut pool = vec![cluster(0, 3, 6, vec![1])];
    let best = HistorySync::find_best_cluster(&mut pool, 8).unwrap();
    assert_eq!(best.first_epoch_number, 9);
    assert!(best.epoch_ids.is_empty());
    // One that ends before the head as well.
    let mut pool = vec![cluster(0, 3, 6, vec![1])];
    let best = HistorySync::find_best_cluster(&mut pool, 20).unwrap();
    assert!(best.epoch_ids.is_empty());
    assert_eq!(best.first_epoch_number, 9);
}

#[test]
fn clusters_of_epochs_go_before_clusters_of_checkpoints() {
    let mut sync = HistorySync::new();
    sync.checkpoint_clusters.push(cluster(0, 9, 1, vec![1]));
    sync.epoch_clusters.push(cluster(1, 1, 2, vec![1]));
    sync.next_cluster_id = 2;
    assert_eq!(sync.pop_next_cluster(0).map(|c| c.id), Some(1));
    assert_eq!(sync.pop_next_cluster(0).map(|c| c.id), Some(0));
    assert!(sync.pop_next_cluster(0).is_none());
}

#[test]
fn a_cluster_delivers_its_epochs_in_order_and_peers_in_turn() {
    let mut c = cluster(0, 5, 3, vec![1, 2]);
    let mut seen = vec![];
    loop {
        match c.poll_next() {
            ClusterPoll::Request(request) => {
                assert_eq!(request.epoch_id, id_of(request.epoch_number));
                seen.push((request.epoch_number, request.peer));
                let answered = c.batch_set_received();
                assert_eq!(answered.epoch_number, request.epoch_number);
            }
            ClusterPoll::Finished(result) => {
                assert_eq!(result, SyncClusterResult::NoMoreEpochs);
                break;
            }
        }
    }
    assert_eq!(seen, vec![(5, 1), (6, 2), (7, 1)]);
    assert_eq!(c.num_epochs_finished(), 3);
}

#[test]
fn a_cluster_fails_when_every_peer_has_failed() {
    let mut c = cluster(0, 5, 3, vec![1, 2, 3]);
    let mut asked = vec![];
    while let ClusterPoll::Request(request) = c.poll_next() {
        asked.push(request.peer);
        if asked.len() == 2 {
            // One answer in between: the count of failures begins anew.
            c.batch_set_received();
        } else {
            c.request_failed();
        }
    }
    assert_eq!(asked, vec![1, 2, 3, 1, 2]);
    assert!(matches!(c.poll_next(), ClusterPoll::Finished(SyncClusterResult::Error)));
    assert_eq!(c.num_epochs_finished(), 1);
    // A cluster without peers fails at once.
    let c = cluster(0, 5, 3, vec![]);
    assert!(matches!(c.poll_next(), ClusterPoll::Finished(SyncClusterResult::Error)));
    // A cluster without epochs has nothing more to deliver.
    let c = cluster(0, 5, 0, vec![]);
    assert!(matches!(c.poll_next(), ClusterPoll::Finished(SyncClusterResult::NoMoreEpochs)));
}

#[test]
fn ending_a_cluster_releases_its_peers() {
    let mut sync = HistorySync::new();
    sync.peers.insert(1, 2);
    sync.peers.insert(2, 1);
    let probe = sync.finish_cluster(cluster(0, 1, 1, vec![1, 2]), SyncClusterResult::NoMoreEpochs);
    assert_eq!(probe, vec![2]);
    assert_eq!(sync.cluster_count(1), 1);
    assert!(!sync.peers.contains_key(&2));
    // After an error nobody is probed again.
    let probe = sync.finish_cluster(cluster(0, 1, 1, vec![1]), SyncClusterResult::Error);
    assert!(probe.is_empty());
    assert!(sync.peers.is_empty());
    // A peer that the bookkeeping does not know counts as in no cluster.
    let probe = sync.finish_cluster(cluster(0, 1, 1, vec![5]), SyncClusterResult::NoMoreEpochs);
    assert_eq!(probe, vec![5]);
}
