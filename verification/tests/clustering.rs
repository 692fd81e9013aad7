use history_sync::cluster::{PeerId, SyncCluster, SyncClusterResult};
use history_sync::epoch_ids::{ElectionHead, EpochIds};
use history_sync::hash::Blake2bHash;
use history_sync::sync::{HistorySync, Job};

const ALICE: PeerId = 11;
const BOB: PeerId = 22;
const CAROL: PeerId = 33;

fn head() -> ElectionHead {
    ElectionHead { hash: Blake2bHash::new([0xee; 32]), epoch_number: 0 }
}

fn hash_of(epoch: usize, fork: u8) -> Blake2bHash {
    let mut bytes = [0u8; 32];
    bytes[0..8].copy_from_slice(&(epoch as u64).to_le_bytes());
    bytes[9] = fork;
    Blake2bHash::new(bytes)
}

fn generate_epoch_ids(
    sender: PeerId,
    len: usize,
    first_epoch_number: usize,
    diverge_at: Option<usize>,
    add_checkpoint: bool,
) -> EpochIds {
    let mut ids = vec![];
    for i in first_epoch_number..first_epoch_number + len {
        let fork = if diverge_at.map(|d| i >= d + first_epoch_number).unwrap_or(false) { 1 } else { 0 };
        ids.push(hash_of(i, fork));
    }
    let checkpoint_id = if add_checkpoint {
        let fork = if diverge_at.map(|d| len >= d).unwrap_or(false) { 1 } else { 0 };
        Some(hash_of(first_epoch_number + len, fork))
    } else {
        None
    };
    EpochIds { locator_found: true, ids, checkpoint_id, first_epoch_number, sender }
}

fn run_clustering_test<F>(epoch_ids1: EpochIds, epoch_ids2: EpochIds, test: F, symmetric: bool)
where
    F: Fn(HistorySync),
{
    let mut sync = HistorySync::new();
    sync.cluster_epoch_ids(epoch_ids1.clone(), &head());
    sync.cluster_epoch_ids(epoch_ids2.clone(), &head());
    test(sync);

    if symmetric {
        let mut sync = HistorySync::new();
        sync.cluster_epoch_ids(epoch_ids2, &head());
        sync.cluster_epoch_ids(epoch_ids1, &head());
        test(sync);
    }
}

fn counts_are_exact(sync: &HistorySync, peers: &[PeerId]) {
    for &peer in peers {
        let mut n = 0u32;
        for c in sync.epoch_clusters.iter().chain(sync.checkpoint_clusters.iter()) {
            if c.peers().contains(&peer) {
                n += 1;
            }
        }
        if let Some(c) = &sync.active_cluster {
            if c.peers().contains(&peer) {
                n += 1;
            }
        }
        for job in sync.job_queue.iter() {
            if let Job::FinishCluster(c, _) = job {
                if c.peers().contains(&peer) {
                    n += 1;
                }
            }
        }
        assert_eq!(sync.cluster_count(peer), n, "count of peer {}", peer);
    }
}

#[test]
fn it_can_cluster_epoch_ids() {
    // identical epoch ids
    let epoch_ids1 = generate_epoch_ids(ALICE, 10, 1, None, false);
    let epoch_ids2 = generate_epoch_ids(BOB, 10, 1, None, false);
    run_clustering_test(
        epoch_ids1,
        epoch_ids2,
        |sync| {
            assert_eq!(sync.epoch_clusters.len(), 1);
            assert_eq!(sync.epoch_clusters[0].epoch_ids.len(), 10);
            assert_eq!(sync.epoch_clusters[0].first_epoch_number, 1);
            assert_eq!(sync.epoch_clusters[0].peers().len(), 2);
        },
        true,
    );

    // disjoint epoch ids
    let epoch_ids1 = generate_epoch_ids(ALICE, 10, 1, None, false);
    let epoch_ids2 = generate_epoch_ids(BOB, 10, 1, Some(0), false);
    run_clustering_test(
        epoch_ids1,
        epoch_ids2,
        |sync| {
            assert_eq!(sync.epoch_clusters.len(), 2);
            assert_eq!(sync.epoch_clusters[0].epoch_ids.len(), 10);
            assert_eq!(sync.epoch_clusters[1].epoch_ids.len(), 10);
            assert_eq!(sync.epoch_clusters[0].first_epoch_number, 1);
            assert_eq!(sync.epoch_clusters[1].first_epoch_number, 1);
            assert_eq!(sync.epoch_clusters[0].peers().len(), 1);
            assert_eq!(sync.epoch_clusters[1].peers().len(), 1);
        },
        true,
    );

    // same offset and history, second shorter than first
    let epoch_ids1 = generate_epoch_ids(ALICE, 10, 1, None, false);
    let epoch_ids2 = generate_epoch_ids(BOB, 8, 1, None, false);
    run_clustering_test(
        epoch_ids1,
        epoch_ids2,
        |sync| {
            assert_eq!(sync.epoch_clusters.len(), 2);
            assert_eq!(sync.epoch_clusters[0].epoch_ids.len(), 8);
            assert_eq!(sync.epoch_clusters[0].first_epoch_number, 1);
            assert_eq!(sync.epoch_clusters[0].peers().len(), 2);
            assert_eq!(sync.epoch_clusters[1].epoch_ids.len(), 2);
            assert_eq!(sync.epoch_clusters[1].first_epoch_number, 9);
            assert_eq!(sync.epoch_clusters[1].peers().len(), 1);
        },
        true,
    );

    // different offset, same history, but second is longer
    let epoch_ids1 = generate_epoch_ids(ALICE, 10, 1, None, false);
    let epoch_ids2 = generate_epoch_ids(BOB, 10, 3, None, false);
    run_clustering_test(
        epoch_ids1,
        epoch_ids2,
        |sync| {
            assert_eq!(sync.epoch_clusters.len(), 2);
            assert_eq!(sync.epoch_clusters[0].epoch_ids.len(), 10);
            assert_eq!(sync.epoch_clusters[0].first_epoch_number, 1);
            assert_eq!(sync.epoch_clusters[0].peers().len(), 2);
            assert_eq!(sync.epoch_clusters[1].epoch_ids.len(), 2);
            assert_eq!(sync.epoch_clusters[1].first_epoch_number, 11);
            assert_eq!(sync.epoch_clusters[1].peers().len(), 1);
        },
        false,
    );

    // Irrelevant epoch ids (that would constitute forks from what we have already seen).
    let epoch_ids1 = generate_epoch_ids(ALICE, 10, 0, None, false);
    let epoch_ids2 = generate_epoch_ids(BOB, 10, 0, Some(0), false);
    run_clustering_test(
        epoch_ids1,
        epoch_ids2,
        |sync| {
            assert_eq!(sync.epoch_clusters.len(), 0);
        },
        true,
    );

    // different offset, same history, but second is shorter
    let epoch_ids1 = generate_epoch_ids(ALICE, 10, 1, None, false);
    let epoch_ids2 = generate_epoch_ids(BOB, 5, 3, None, false);
    run_clustering_test(
        epoch_ids1,
        epoch_ids2,
        |sync| {
            assert_eq!(sync.epoch_clusters.len(), 2);
            assert_eq!(sync.epoch_clusters[0].epoch_ids.len(), 7);
            assert_eq!(sync.epoch_clusters[0].first_epoch_number, 1);
            assert_eq!(sync.epoch_clusters[0].peers().len(), 2);
            assert_eq!(sync.epoch_clusters[1].epoch_ids.len(), 3);
            assert_eq!(sync.epoch_clusters[1].first_epoch_number, 8);
            assert_eq!(sync.epoch_clusters[1].peers().len(), 1);
        },
        false,
    );

    // different offset, diverging history, second longer
    let epoch_ids1 = generate_epoch_ids(ALICE, 10, 1, None, false);
    let epoch_ids2 = generate_epoch_ids(BOB, 8, 4, Some(6), false);
    run_clustering_test(
        epoch_ids1,
        epoch_ids2,
        |sync| {
            assert_eq!(sync.epoch_clusters.len(), 3);
            assert_eq!(sync.epoch_clusters[0].epoch_ids.len(), 9);
            assert_eq!(sync.epoch_clusters[0].first_epoch_number, 1);
            assert_eq!(sync.epoch_clusters[0].peers().len(), 2);
            assert_eq!(sync.epoch_clusters[1].epoch_ids.len(), 1);
            assert_eq!(sync.epoch_clusters[1].first_epoch_number, 10);
            assert_eq!(sync.epoch_clusters[1].peers().len(), 1);
            assert_eq!(sync.epoch_clusters[2].epoch_ids.len(), 2);
            assert_eq!(sync.epoch_clusters[2].first_epoch_number, 10);
            assert_eq!(sync.epoch_clusters[2].peers().len(), 1);
        },
        false,
    );
}

#[test]
fn it_can_cluster_checkpoint_ids() {
    // no epoch ids, identical checkpoints
    let epoch_ids1 = generate_epoch_ids(ALICE, 0, 1, None, true);
    let epoch_ids2 = generate_epoch_ids(BOB, 0, 1, None, true);
    run_clustering_test(
        epoch_ids1,
        epoch_ids2,
        |sync| {
            assert_eq!(sync.epoch_clusters.len(), 0);
            assert_eq!(sync.checkpoint_clusters.len(), 1);
            assert_eq!(sync.checkpoint_clusters[0].epoch_ids.len(), 1);
            assert_eq!(sync.checkpoint_clusters[0].first_epoch_number, 1);
            assert_eq!(sync.checkpoint_clusters[0].peers().len(), 2);
        },
        true,
    );

    // no epoch ids, diverging checkpoints
    let epoch_ids1 = generate_epoch_ids(ALICE, 0, 1, None, true);
    let epoch_ids2 = generate_epoch_ids(BOB, 0, 1, Some(0), true);
    run_clustering_test(
        epoch_ids1,
        epoch_ids2,
        |sync| {
            assert_eq!(sync.epoch_clusters.len(), 0);
            assert_eq!(sync.checkpoint_clusters.len(), 2);
            assert_eq!(sync.checkpoint_clusters[0].epoch_ids.len(), 1);
            assert_eq!(sync.checkpoint_clusters[0].first_epoch_number, 1);
            assert_eq!(sync.checkpoint_clusters[0].peers().len(), 1);
            assert_eq!(sync.checkpoint_clusters[1].epoch_ids.len(), 1);
            assert_eq!(sync.checkpoint_clusters[1].first_epoch_number, 1);
            assert_eq!(sync.checkpoint_clusters[1].peers().len(), 1);
        },
        true,
    );

    // no epoch ids, checkpoints with different offset
    let epoch_ids1 = generate_epoch_ids(ALICE, 0, 1, None, true);
    let epoch_ids2 = generate_epoch_ids(BOB, 0, 3, None, true);
    run_clustering_test(
        epoch_ids1,
        epoch_ids2,
        |sync| {
            assert_eq!(sync.epoch_clusters.len(), 0);
            assert_eq!(sync.checkpoint_clusters.len(), 2);
            assert_eq!(sync.checkpoint_clusters[0].epoch_ids.len(), 1);
            assert_eq!(sync.checkpoint_clusters[0].first_epoch_number, 1);
            assert_eq!(sync.checkpoint_clusters[0].peers().len(), 1);
            assert_eq!(sync.checkpoint_clusters[1].epoch_ids.len(), 1);
            assert_eq!(sync.checkpoint_clusters[1].first_epoch_number, 3);
            assert_eq!(sync.checkpoint_clusters[1].peers().len(), 1);
        },
        false,
    );

    // identical epoch ids and checkpoints
    let epoch_ids1 = generate_epoch_ids(ALICE, 10, 1, None, true);
    let epoch_ids2 = generate_epoch_ids(BOB, 10, 1, None, true);
    run_clustering_test(
        epoch_ids1,
        epoch_ids2,
        |sync| {
            assert_eq!(sync.epoch_clusters.len(), 1);
            assert_eq!(sync.epoch_clusters[0].epoch_ids.len(), 10);
            assert_eq!(sync.epoch_clusters[0].first_epoch_number, 1);
            assert_eq!(sync.epoch_clusters[0].peers().len(), 2);
            assert_eq!(sync.checkpoint_clusters.len(), 1);
            assert_eq!(sync.checkpoint_clusters[0].epoch_ids.len(), 1);
            assert_eq!(sync.checkpoint_clusters[0].first_epoch_number, 11);
            assert_eq!(sync.checkpoint_clusters[0].peers().len(), 2);
        },
        true,
    );

    // identical epoch ids and diverging checkpoints
    let epoch_ids1 = generate_epoch_ids(ALICE, 10, 1, None, true);
    let epoch_ids2 = generate_epoch_ids(BOB, 10, 1, Some(10), true);
    run_clustering_test(
        epoch_ids1,
        epoch_ids2,
        |sync| {
            assert_eq!(sync.epoch_clusters.len(), 1);
            assert_eq!(sync.epoch_clusters[0].epoch_ids.len(), 10);
            assert_eq!(sync.epoch_clusters[0].first_epoch_number, 1);
            assert_eq!(sync.epoch_clusters[0].peers().len(), 2);
            assert_eq!(sync.checkpoint_clusters.len(), 2);
            assert_eq!(sync.checkpoint_clusters[0].epoch_ids.len(), 1);
            assert_eq!(sync.checkpoint_clusters[0].first_epoch_number, 11);
            assert_eq!(sync.checkpoint_clusters[0].peers().len(), 1);
            assert_eq!(sync.checkpoint_clusters[1].epoch_ids.len(), 1);
            assert_eq!(sync.checkpoint_clusters[1].first_epoch_number, 11);
            assert_eq!(sync.checkpoint_clusters[1].peers().len(), 1);
        },
        true,
    );

    // identical epoch ids and one checkpoint present, one missing
    let epoch_ids1 = generate_epoch_ids(ALICE, 10, 1, None, true);
    let epoch_ids2 = generate_epoch_ids(BOB, 10, 1, None, false);
    run_clustering_test(
        epoch_ids1,
        epoch_ids2,
        |sync| {
            assert_eq!(sync.epoch_clusters.len(), 1);
            assert_eq!(sync.epoch_clusters[0].epoch_ids.len(), 10);
            assert_eq!(sync.epoch_clusters[0].first_epoch_number, 1);
            assert_eq!(sync.epoch_clusters[0].peers().len(), 2);
            assert_eq!(sync.checkpoint_clusters.len(), 1);
            assert_eq!(sync.checkpoint_clusters[0].epoch_ids.len(), 1);
            assert_eq!(sync.checkpoint_clusters[0].first_epoch_number, 11);
            assert_eq!(sync.checkpoint_clusters[0].peers().len(), 1);
        },
        true,
    );

    // different offset, same history, same checkpoints
    let epoch_ids1 = generate_epoch_ids(ALICE, 10, 1, None, true);
    let epoch_ids2 = generate_epoch_ids(BOB, 5, 6, None, true);
    run_clustering_test(
        epoch_ids1,
        epoch_ids2,
        |sync| {
            assert_eq!(sync.epoch_clusters.len(), 1);
            assert_eq!(sync.epoch_clusters[0].epoch_ids.len(), 10);
            assert_eq!(sync.epoch_clusters[0].first_epoch_number, 1);
            assert_eq!(sync.epoch_clusters[0].peers().len(), 2);
            assert_eq!(sync.checkpoint_clusters.len(), 1);
            assert_eq!(sync.checkpoint_clusters[0].epoch_ids.len(), 1);
            assert_eq!(sync.checkpoint_clusters[0].first_epoch_number, 11);
            assert_eq!(sync.checkpoint_clusters[0].peers().len(), 2);
        },
        false,
    );

    // different offset, diverging history, second longer
    let epoch_ids1 = generate_epoch_ids(ALICE, 10, 1, None, true);
    let epoch_ids2 = generate_epoch_ids(BOB, 8, 4, Some(6), true);
    run_clustering_test(
        epoch_ids1,
        epoch_ids2,
        |sync| {
            assert_eq!(sync.epoch_clusters.len(), 3);
            assert_eq!(sync.epoch_clusters[0].epoch_ids.len(), 9);
            assert_eq!(sync.epoch_clusters[0].first_epoch_number, 1);
            assert_eq!(sync.epoch_clusters[0].peers().len(), 2);
            assert_eq!(sync.epoch_clusters[1].epoch_ids.len(), 1);
            assert_eq!(sync.epoch_clusters[1].first_epoch_number, 10);
            assert_eq!(sync.epoch_clusters[1].peers().len(), 1);
            assert_eq!(sync.epoch_clusters[2].epoch_ids.len(), 2);
            assert_eq!(sync.epoch_clusters[2].first_epoch_number, 10);
            assert_eq!(sync.epoch_clusters[2].peers().len(), 1);
            assert_eq!(sync.checkpoint_clusters.len(), 2);
            assert_eq!(sync.checkpoint_clusters[0].epoch_ids.len(), 1);
            assert_eq!(sync.checkpoint_clusters[0].first_epoch_number, 11);
            assert_eq!(sync.checkpoint_clusters[0].peers().len(), 1);
            assert_eq!(sync.checkpoint_clusters[1].epoch_ids.len(), 1);
            assert_eq!(sync.checkpoint_clusters[1].first_epoch_number, 12);
            assert_eq!(sync.checkpoint_clusters[1].peers().len(), 1);
        },
        false,
    );
}

#[test]
fn identical_prefixes_share_one_cluster() {
    let mut sync = HistorySync::new();
    assert_eq!(sync.cluster_epoch_ids(generate_epoch_ids(ALICE, 10, 1, None, false), &head()), None);
    assert_eq!(sync.cluster_epoch_ids(generate_epoch_ids(BOB, 10, 1, None, false), &head()), None);
    assert_eq!(sync.epoch_clusters.len(), 1);
    assert_eq!(sync.epoch_clusters[0].first_epoch_number, 1);
    assert_eq!(sync.epoch_clusters[0].epoch_ids.len(), 10);
    assert_eq!(sync.epoch_clusters[0].peers(), &vec![ALICE, BOB]);
    assert_eq!(sync.epoch_clusters[0].epoch_ids[0], hash_of(1, 0));
    assert_eq!(sync.epoch_clusters[0].epoch_ids[9], hash_of(10, 0));
    counts_are_exact(&sync, &[ALICE, BOB]);
    assert_eq!(sync.cluster_count(ALICE), 1);
    assert_eq!(sync.cluster_count(BOB), 1);
}

#[test]
fn disjoint_histories_get_a_cluster_each() {
    let mut sync = HistorySync::new();
    sync.cluster_epoch_ids(generate_epoch_ids(ALICE, 10, 1, None, false), &head());
    sync.cluster_epoch_ids(generate_epoch_ids(BOB, 10, 1, Some(0), false), &head());
    assert_eq!(sync.epoch_clusters.len(), 2);
    for c in sync.epoch_clusters.iter() {
        assert_eq!(c.first_epoch_number, 1);
        assert_eq!(c.epoch_ids.len(), 10);
        assert_eq!(c.peers().len(), 1);
    }
    assert_eq!(sync.epoch_clusters[0].peers(), &vec![ALICE]);
    assert_eq!(sync.epoch_clusters[1].peers(), &vec![BOB]);
    assert_ne!(sync.epoch_clusters[0].id, sync.epoch_clusters[1].id);
    counts_are_exact(&sync, &[ALICE, BOB]);
}

#[test]
fn shorter_second_peer_splits_the_cluster() {
    let mut sync = HistorySync::new();
    sync.cluster_epoch_ids(generate_epoch_ids(ALICE, 10, 1, None, false), &head());
    sync.cluster_epoch_ids(generate_epoch_ids(BOB, 8, 1, None, false), &head());
    assert_eq!(sync.epoch_clusters.len(), 2);
    assert_eq!(sync.epoch_clusters[0].first_epoch_number, 1);
    assert_eq!(sync.epoch_clusters[0].epoch_ids.len(), 8);
    assert_eq!(sync.epoch_clusters[0].peers(), &vec![ALICE, BOB]);
    assert_eq!(sync.epoch_clusters[1].first_epoch_number, 9);
    assert_eq!(sync.epoch_clusters[1].epoch_ids.len(), 2);
    assert_eq!(sync.epoch_clusters[1].peers(), &vec![ALICE]);
    assert_eq!(sync.epoch_clusters[1].epoch_ids[0], hash_of(9, 0));
    assert_eq!(sync.cluster_count(ALICE), 2);
    assert_eq!(sync.cluster_count(BOB), 1);
    counts_are_exact(&sync, &[ALICE, BOB]);
}

#[test]
fn longer_second_peer_at_an_offset_adds_its_tail() {
    let mut sync = HistorySync::new();
    sync.cluster_epoch_ids(generate_epoch_ids(ALICE, 10, 1, None, false), &head());
    sync.cluster_epoch_ids(generate_epoch_ids(BOB, 10, 3, None, false), &head());
    assert_eq!(sync.epoch_clusters.len(), 2);
    assert_eq!(sync.epoch_clusters[0].first_epoch_number, 1);
    assert_eq!(sync.epoch_clusters[0].epoch_ids.len(), 10);
    assert_eq!(sync.epoch_clusters[0].peers(), &vec![ALICE, BOB]);
    assert_eq!(sync.epoch_clusters[1].first_epoch_number, 11);
    assert_eq!(sync.epoch_clusters[1].epoch_ids.len(), 2);
    assert_eq!(sync.epoch_clusters[1].peers(), &vec![BOB]);
    assert_eq!(sync.epoch_clusters[1].epoch_ids, vec![hash_of(11, 0), hash_of(12, 0)]);
    counts_are_exact(&sync, &[ALICE, BOB]);
}

#[test]
fn divergence_in_the_middle_makes_three_clusters() {
    let mut sync = HistorySync::new();
    sync.cluster_epoch_ids(generate_epoch_ids(ALICE, 10, 1, None, false), &head());
    sync.cluster_epoch_ids(generate_epoch_ids(BOB, 8, 4, Some(6), false), &head());
    assert_eq!(sync.epoch_clusters.len(), 3);
    assert_eq!(sync.epoch_clusters[0].first_epoch_number, 1);
    assert_eq!(sync.epoch_clusters[0].epoch_ids.len(), 9);
    assert_eq!(sync.epoch_clusters[0].peers(), &vec![ALICE, BOB]);
    assert_eq!(sync.epoch_clusters[1].first_epoch_number, 10);
    assert_eq!(sync.epoch_clusters[1].epoch_ids, vec![hash_of(10, 0)]);
    assert_eq!(sync.epoch_clusters[1].peers(), &vec![ALICE]);
    assert_eq!(sync.epoch_clusters[2].first_epoch_number, 10);
    assert_eq!(sync.epoch_clusters[2].epoch_ids, vec![hash_of(10, 1), hash_of(11, 1)]);
    assert_eq!(sync.epoch_clusters[2].peers(), &vec![BOB]);
    counts_are_exact(&sync, &[ALICE, BOB]);
}

#[test]
fn identical_checkpoints_share_one_cluster() {
    let mut sync = HistorySync::new();
    sync.cluster_epoch_ids(generate_epoch_ids(ALICE, 0, 1, None, true), &head());
    sync.cluster_epoch_ids(generate_epoch_ids(BOB, 0, 1, None, true), &head());
    assert_eq!(sync.epoch_clusters.len(), 0);
    assert_eq!(sync.checkpoint_clusters.len(), 1);
    assert_eq!(sync.checkpoint_clusters[0].first_epoch_number, 1);
    assert_eq!(sync.checkpoint_clusters[0].epoch_ids, vec![hash_of(1, 0)]);
    assert_eq!(sync.checkpoint_clusters[0].peers(), &vec![ALICE, BOB]);
    counts_are_exact(&sync, &[ALICE, BOB]);
}

#[test]
fn diverging_checkpoints_get_a_cluster_each() {
    let mut sync = HistorySync::new();
    sync.cluster_epoch_ids(generate_epoch_ids(ALICE, 10, 1, None, true), &head());
    sync.cluster_epoch_ids(generate_epoch_ids(BOB, 10, 1, Some(10), true), &head());
    assert_eq!(sync.epoch_clusters.len(), 1);
    assert_eq!(sync.epoch_clusters[0].peers(), &vec![ALICE, BOB]);
    assert_eq!(sync.checkpoint_clusters.len(), 2);
    assert_eq!(sync.checkpoint_clusters[0].first_epoch_number, 11);
    assert_eq!(sync.checkpoint_clusters[1].first_epoch_number, 11);
    assert_eq!(sync.checkpoint_clusters[0].peers(), &vec![ALICE]);
    assert_eq!(sync.checkpoint_clusters[1].peers(), &vec![BOB]);
    assert_eq!(sync.cluster_count(ALICE), 2);
    assert_eq!(sync.cluster_count(BOB), 2);
    counts_are_exact(&sync, &[ALICE, BOB]);
}

#[test]
fn the_same_ids_twice_leave_the_same_clusters() {
    let mut sync = HistorySync::new();
    sync.cluster_epoch_ids(generate_epoch_ids(ALICE, 10, 1, None, true), &head());
    let ids: Vec<u64> = sync.epoch_clusters.iter().map(|c| c.id).collect();
    sync.cluster_epoch_ids(generate_epoch_ids(ALICE, 10, 1, None, true), &head());
    assert_eq!(sync.epoch_clusters.len(), 1);
    assert_eq!(sync.epoch_clusters.iter().map(|c| c.id).collect::<Vec<u64>>(), ids);
    assert_eq!(sync.epoch_clusters[0].peers(), &vec![ALICE]);
    assert_eq!(sync.checkpoint_clusters.len(), 1);
    assert_eq!(sync.checkpoint_clusters[0].peers(), &vec![ALICE]);
    assert_eq!(sync.cluster_count(ALICE), 2);
    counts_are_exact(&sync, &[ALICE]);
}

#[test]
fn a_peer_that_joins_its_clusters_again_is_counted_as_before() {
    let mut sync = HistorySync::new();
    sync.cluster_epoch_ids(generate_epoch_ids(ALICE, 10, 1, None, false), &head());
    // The same peer with fewer ids: its cluster is split, and it is in both
    // parts.
    sync.cluster_epoch_ids(generate_epoch_ids(ALICE, 4, 1, None, false), &head());
    assert_eq!(sync.epoch_clusters.len(), 2);
    assert_eq!(sync.epoch_clusters[0].peers(), &vec![ALICE]);
    assert_eq!(sync.epoch_clusters[1].peers(), &vec![ALICE]);
    assert_eq!(sync.cluster_count(ALICE), 2);
    counts_are_exact(&sync, &[ALICE]);
    // With other ids it leaves a cluster behind that it is not counted for.
    sync.cluster_epoch_ids(generate_epoch_ids(ALICE, 4, 1, Some(0), false), &head());
    assert_eq!(sync.epoch_clusters.len(), 3);
    assert_eq!(sync.cluster_count(ALICE), 1);
}

#[test]
fn a_peer_that_ends_at_the_head_is_useless() {
    let mut sync = HistorySync::new();
    let at = ElectionHead { hash: hash_of(5, 0), epoch_number: 5 };
    // The peer ends before the head.
    assert_eq!(sync.cluster_epoch_ids(generate_epoch_ids(ALICE, 3, 1, None, false), &at), Some(ALICE));
    // The peer has another block at the head.
    assert_eq!(sync.cluster_epoch_ids(generate_epoch_ids(BOB, 8, 1, Some(2), false), &at), Some(BOB));
    assert_eq!(sync.epoch_clusters.len(), 0);
    assert_eq!(sync.cluster_count(ALICE), 0);
    // The peer agrees at the head: what lies beyond is clustered.
    assert_eq!(sync.cluster_epoch_ids(generate_epoch_ids(CAROL, 8, 1, None, false), &at), None);
    assert_eq!(sync.epoch_clusters.len(), 1);
    assert_eq!(sync.epoch_clusters[0].first_epoch_number, 6);
    assert_eq!(sync.epoch_clusters[0].epoch_ids, vec![hash_of(6, 0), hash_of(7, 0), hash_of(8, 0)]);
}

#[test]
fn ids_in_the_queue_are_not_clustered_again() {
    let mut sync = HistorySync::new();
    sync.cluster_epoch_ids(generate_epoch_ids(ALICE, 3, 1, None, false), &head());
    // Pull the whole cluster: three commits and the end of the cluster wait.
    assert!(sync.poll_cluster(0).is_some());
    sync.batch_set_received();
    assert!(sync.poll_cluster(0).is_some());
    sync.batch_set_received();
    assert!(sync.poll_cluster(0).is_some());
    sync.batch_set_received();
    assert_eq!(sync.job_queue.len(), 3);
    // While the cluster is still being pulled, a peer with the same ids has
    // nothing new.
    assert_eq!(sync.cluster_epoch_ids(generate_epoch_ids(BOB, 3, 1, None, false), &head()), Some(BOB));
    assert_eq!(sync.cluster_count(BOB), 0);
    // A peer that goes further gets a cluster for what is not queued.
    assert_eq!(sync.cluster_epoch_ids(generate_epoch_ids(CAROL, 5, 1, None, false), &head()), None);
    assert_eq!(sync.epoch_clusters.len(), 1);
    assert_eq!(sync.epoch_clusters[0].first_epoch_number, 4);
    assert_eq!(sync.epoch_clusters[0].epoch_ids, vec![hash_of(4, 0), hash_of(5, 0)]);
    assert_eq!(sync.epoch_clusters[0].peers(), &vec![CAROL]);
    counts_are_exact(&sync, &[ALICE, BOB, CAROL]);
}

#[test]
fn a_peer_joins_the_cluster_that_waits_for_its_end() {
    let mut sync = HistorySync::new();
    sync.cluster_epoch_ids(generate_epoch_ids(ALICE, 2, 1, None, false), &head());
    assert!(sync.poll_cluster(0).is_some());
    sync.batch_set_received();
    assert!(sync.poll_cluster(0).is_some());
    sync.batch_set_received();
    // The cluster has delivered all it has: its end is queued.
    assert!(sync.poll_cluster(0).is_none());
    assert!(sync.active_cluster.is_none());
    assert_eq!(sync.job_queue.len(), 3);
    assert_eq!(sync.cluster_epoch_ids(generate_epoch_ids(BOB, 2, 1, None, false), &head()), None);
    match &sync.job_queue[2] {
        Job::FinishCluster(c, result) => {
            assert_eq!(c.peers(), &vec![ALICE, BOB]);
            assert_eq!(*result, SyncClusterResult::NoMoreEpochs);
        }
        _ => panic!("the end of the cluster should wait at the back"),
    }
    assert_eq!(sync.cluster_count(BOB), 1);
    counts_are_exact(&sync, &[ALICE, BOB]);
}

#[test]
fn a_cluster_that_has_delivered_past_the_split_is_not_split() {
    let mut sync = HistorySync::new();
    sync.cluster_epoch_ids(generate_epoch_ids(ALICE, 6, 1, None, false), &head());
    for _ in 0..4 {
        assert!(sync.poll_cluster(0).is_some());
        sync.batch_set_received();
    }
    // The commits went through, but the head has not moved yet.
    for _ in 0..4 {
        sync.push_batch_set_completed(SyncClusterResult::EpochSuccessful);
    }
    assert_eq!(sync.job_queue.len(), 0);
    assert_eq!(sync.cluster_epoch_ids(generate_epoch_ids(BOB, 2, 1, None, false), &head()), None);
    let active = sync.active_cluster.as_ref().unwrap();
    assert_eq!(active.epoch_ids.len(), 6);
    assert_eq!(active.peers(), &vec![ALICE]);
    assert_eq!(sync.epoch_clusters.len(), 0);
    assert_eq!(sync.cluster_count(BOB), 0);
    counts_are_exact(&sync, &[ALICE, BOB]);
}

#[test]
fn split_clusters_count_for_their_peers() {
    let mut sync = HistorySync::new();
    sync.cluster_epoch_ids(generate_epoch_ids(ALICE, 10, 1, None, false), &head());
    sync.cluster_epoch_ids(generate_epoch_ids(BOB, 10, 1, None, false), &head());
    sync.cluster_epoch_ids(generate_epoch_ids(CAROL, 4, 1, None, false), &head());
    assert_eq!(sync.epoch_clusters.len(), 2);
    assert_eq!(sync.epoch_clusters[0].peers(), &vec![ALICE, BOB, CAROL]);
    assert_eq!(sync.epoch_clusters[1].peers(), &vec![ALICE, BOB]);
    assert_eq!(sync.cluster_count(ALICE), 2);
    assert_eq!(sync.cluster_count(BOB), 2);
    assert_eq!(sync.cluster_count(CAROL), 1);
    let c0: &SyncCluster = &sync.epoch_clusters[0];
    let c1: &SyncCluster = &sync.epoch_clusters[1];
    assert_eq!(c0.first_epoch_number + c0.epoch_ids.len(), c1.first_epoch_number);
    assert!(sync.has_id_headroom());
}

fn told_apart(a: &SyncCluster, b: &SyncCluster) -> bool {
    let lo = a.first_epoch_number.max(b.first_epoch_number);
    let hi = (a.first_epoch_number + a.epoch_ids.len()).min(b.first_epoch_number + b.epoch_ids.len());
    lo >= hi
        || (lo..hi).any(|epoch| {
            a.epoch_ids[epoch - a.first_epoch_number] != b.epoch_ids[epoch - b.first_epoch_number]
        })
}

#[test]
fn clusters_with_overlapping_ranges_disagree_somewhere() {
    for (len, first, diverge_at) in
        [(10, 1, None), (8, 1, None), (12, 1, None), (8, 4, Some(6)), (5, 3, Some(0)), (3, 11, None)]
    {
        let mut sync = HistorySync::new();
        sync.cluster_epoch_ids(generate_epoch_ids(ALICE, 10, 1, None, false), &head());
        sync.cluster_epoch_ids(generate_epoch_ids(BOB, len, first, diverge_at, false), &head());
        for i in 0..sync.epoch_clusters.len() {
            for j in i + 1..sync.epoch_clusters.len() {
                assert!(told_apart(&sync.epoch_clusters[i], &sync.epoch_clusters[j]));
            }
        }
        counts_are_exact(&sync, &[ALICE, BOB]);
    }
}

#[test]
fn a_third_peer_with_the_same_ids_gets_a_cluster_for_what_was_split_off() {
    // The cluster that was split off does not cover the first epoch of the
    // third peer, so it is not held against the peer's ids.
    let mut sync = HistorySync::new();
    sync.cluster_epoch_ids(generate_epoch_ids(ALICE, 10, 1, None, false), &head());
    sync.cluster_epoch_ids(generate_epoch_ids(BOB, 8, 1, None, false), &head());
    sync.cluster_epoch_ids(generate_epoch_ids(CAROL, 10, 1, None, false), &head());
    assert_eq!(sync.epoch_clusters.len(), 3);
    assert_eq!(sync.epoch_clusters[0].peers(), &vec![ALICE, BOB, CAROL]);
    assert_eq!(sync.epoch_clusters[1].peers(), &vec![ALICE]);
    assert_eq!(sync.epoch_clusters[2].peers(), &vec![CAROL]);
    assert_eq!(sync.epoch_clusters[1].first_epoch_number, 9);
    assert_eq!(sync.epoch_clusters[2].first_epoch_number, 9);
    assert_eq!(sync.epoch_clusters[1].epoch_ids, sync.epoch_clusters[2].epoch_ids);
    counts_are_exact(&sync, &[ALICE, BOB, CAROL]);
}
