use history_sync::cluster::{BatchSetRequest, PeerId, SyncClusterResult};
use history_sync::epoch_ids::{
    epoch_ids_from_response, epoch_ids_request, BlockHashType, BlockHashes, ElectionHead,
    RequestBlockHashes, RequestBlockHashesFilter,
};
use history_sync::hash::Blake2bHash;
use history_sync::sync::{HistorySync, HistorySyncReturn, Job};

fn block(epoch: usize, batch: u8) -> Blake2bHash {
    let mut bytes = [0u8; 32];
    bytes[0..8].copy_from_slice(&(epoch as u64).to_le_bytes());
    bytes[9] = batch;
    Blake2bHash::new(bytes)
}

fn genesis() -> Blake2bHash {
    block(0, 0)
}

/// A chain of election blocks, and the macro blocks of the epoch that follows
/// the last of them.
#[derive(Clone)]
struct Chain {
    elections: Vec<Blake2bHash>,
    batches: Vec<Blake2bHash>,
}

impl Chain {
    fn new() -> Chain {
        Chain { elections: vec![], batches: vec![] }
    }

    fn with(epochs: usize, batches: u8) -> Chain {
        let mut chain = Chain::new();
        for epoch in 1..=epochs {
            chain.elections.push(block(epoch, 0));
        }
        for batch in 1..=batches {
            chain.batches.push(block(epochs + 1, batch));
        }
        chain
    }

    fn election_head(&self) -> ElectionHead {
        ElectionHead {
            hash: self.elections.last().copied().unwrap_or(genesis()),
            epoch_number: self.elections.len() as u32,
        }
    }

    fn macro_head(&self) -> Blake2bHash {
        self.batches.last().copied().unwrap_or(self.election_head().hash)
    }

    /// The answer of a node with this chain to a request for block hashes.
    fn answer(&self, request: &RequestBlockHashes) -> BlockHashes {
        assert_eq!(request.filter, RequestBlockHashesFilter::ElectionAndLatestCheckpoint);
        for locator in request.locators.iter() {
            if let Some(at) = self.batches.iter().position(|b| b == locator) {
                let mut hashes = vec![];
                if at + 1 < self.batches.len() {
                    hashes.push((BlockHashType::Checkpoint, self.macro_head()));
                }
                return BlockHashes { hashes: Some(hashes) };
            }
            let known = if *locator == genesis() {
                Some(0)
            } else {
                self.elections.iter().position(|b| b == locator).map(|at| at + 1)
            };
            if let Some(epoch) = known {
                let mut hashes: Vec<(BlockHashType, Blake2bHash)> = self.elections[epoch..]
                    .iter()
                    .take(request.max_blocks as usize)
                    .map(|id| (BlockHashType::Election, *id))
                    .collect();
                if let Some(checkpoint) = self.batches.last() {
                    hashes.push((BlockHashType::Checkpoint, *checkpoint));
                }
                return BlockHashes { hashes: Some(hashes) };
            }
        }
        BlockHashes { hashes: None }
    }

    fn has(&self, id: &Blake2bHash) -> bool {
        self.elections.contains(id) || self.batches.contains(id)
    }

    /// Commits the batch set of one epoch or checkpoint.
    fn push(&mut self, id: Blake2bHash, epoch_number: usize) -> SyncClusterResult {
        if epoch_number != self.elections.len() + 1 {
            return SyncClusterResult::Error;
        }
        if id.as_bytes()[9] == 0 {
            self.elections.push(id);
            self.batches.clear();
        } else {
            self.batches.push(id);
        }
        SyncClusterResult::EpochSuccessful
    }
}

/// Drives a sync against peers with the given chains until it has something
/// to tell, or until nothing is left to do.
struct Driver {
    sync: HistorySync,
    chain: Chain,
    peers: Vec<(PeerId, Chain)>,
    to_probe: Vec<PeerId>,
    commits: Vec<(u64, usize)>,
}

impl Driver {
    fn new(peers: Vec<(PeerId, Chain)>) -> Driver {
        let to_probe = peers.iter().map(|(id, _)| *id).collect();
        Driver { sync: HistorySync::new(), chain: Chain::new(), peers, to_probe, commits: vec![] }
    }

    fn chain_of(&self, peer: PeerId) -> &Chain {
        &self.peers.iter().find(|(id, _)| *id == peer).unwrap().1
    }

    fn next(&mut self) -> Option<HistorySyncReturn> {
        for _ in 0..10_000 {
            let mut progress = false;
            // Probe results.
            while self.sync.wants_epoch_ids() && !self.to_probe.is_empty() {
                progress = true;
                let peer = self.to_probe.remove(0);
                let head = self.chain.election_head();
                let request = epoch_ids_request(&head.hash, &self.chain.macro_head());
                let response = self.chain_of(peer).answer(&request);
                let epoch_ids = epoch_ids_from_response(&response, head.epoch_number, peer);
                assert!(self.sync.has_id_headroom());
                if let Some(event) = self.sync.handle_epoch_ids(epoch_ids, &head) {
                    return Some(event);
                }
            }
            // The cluster to pull.
            let current_epoch = self.chain.election_head().epoch_number as usize;
            while let Some(BatchSetRequest { epoch_id, peer, .. }) =
                self.sync.poll_cluster(current_epoch)
            {
                progress = true;
                if self.chain_of(peer).has(&epoch_id) {
                    self.sync.batch_set_received();
                } else {
                    self.sync.request_failed();
                }
            }
            // The queue.
            loop {
                if let Some(probe) = self.sync.finish_cluster_completed() {
                    progress = true;
                    self.to_probe.extend(probe);
                    continue;
                }
                let (cluster_id, id, epoch) = match self.sync.job_queue.front() {
                    Some(Job::PushBatchSet(cluster_id, id, epoch)) => (*cluster_id, *id, *epoch),
                    _ => break,
                };
                progress = true;
                let result = self.chain.push(id, epoch);
                if result == SyncClusterResult::EpochSuccessful {
                    self.commits.push((cluster_id, epoch));
                }
                let probe = self.sync.push_batch_set_completed(result);
                self.to_probe.extend(probe);
            }
            if !progress {
                return None;
            }
        }
        panic!("the sync does not come to rest");
    }
}

#[test]
fn it_terminates_if_there_is_nothing_to_sync() {
    let mut driver = Driver::new(vec![(2, Chain::new())]);
    match driver.next() {
        Some(HistorySyncReturn::Good(_)) => {
            assert_eq!(driver.chain.elections.len(), 0);
        }
        _ => assert!(false, "Unexpected HistorySyncReturn"),
    }
}

#[test]
fn it_can_sync_a_single_finalized_epoch() {
    let chain2 = Chain::with(1, 0);
    let mut driver = Driver::new(vec![(2, chain2.clone())]);
    match driver.next() {
        Some(HistorySyncReturn::Good(_)) => {
            assert_eq!(driver.chain.macro_head(), chain2.macro_head());
        }
        _ => panic!("Unexpected HistorySyncReturn"),
    }
}

#[test]
fn it_can_sync_multiple_finalized_epochs() {
    let chain2 = Chain::with(2, 0);
    let mut driver = Driver::new(vec![(2, chain2.clone())]);
    match driver.next() {
        Some(HistorySyncReturn::Good(_)) => {
            assert_eq!(driver.chain.macro_head(), chain2.macro_head());
        }
        _ => panic!("Unexpected HistorySyncReturn"),
    }
}

#[test]
fn it_can_sync_a_single_batch() {
    let chain2 = Chain::with(0, 1);
    let mut driver = Driver::new(vec![(2, chain2.clone())]);
    match driver.next() {
        Some(HistorySyncReturn::Good(_)) => {
            assert_eq!(driver.chain.macro_head(), chain2.macro_head());
        }
        _ => panic!("Unexpected HistorySyncReturn"),
    }
}

#[test]
fn it_can_sync_multiple_batches() {
    let chain2 = Chain::with(0, 3);
    let mut driver = Driver::new(vec![(2, chain2.clone())]);
    match driver.next() {
        Some(HistorySyncReturn::Good(_)) => {
            assert_eq!(driver.chain.macro_head(), chain2.macro_head());
        }
        _ => panic!("Unexpected HistorySyncReturn"),
    }
}

#[test]
fn it_can_sync_consecutive_batches_from_different_peers() {
    let chain2 = Chain::with(0, 1);
    let chain3 = Chain::with(0, 2);
    let chain4 = Chain::with(0, 3);
    let mut driver = Driver::new(vec![(2, chain2), (3, chain3), (4, chain4)]);
    let event1 = driver.next();
    println!("Event 1: {:?}", event1);
    let event2 = driver.next();
    println!("Event 2: {:?}", event2);
    assert!(event1.is_some());
    assert!(event2.is_some());
}

#[test]
fn epochs_of_a_cluster_are_committed_in_ascending_order() {
    let mut driver = Driver::new(vec![(2, Chain::with(7, 0)), (3, Chain::with(5, 0))]);
    let mut events = vec![];
    while let Some(event) = driver.next() {
        events.push(event);
    }
    assert_eq!(driver.chain.elections, Chain::with(7, 0).elections);
    assert!(events.contains(&HistorySyncReturn::Good(2)));
    for pair in driver.commits.windows(2) {
        if pair[0].0 == pair[1].0 {
            assert!(pair[0].1 < pair[1].1);
        }
    }
    assert_eq!(driver.commits.iter().map(|c| c.1).collect::<Vec<usize>>(), vec![1, 2, 3, 4, 5, 6, 7]);
    // Everything has ended: no cluster is live, and no peer is counted.
    assert!(driver.sync.epoch_clusters.is_empty());
    assert!(driver.sync.checkpoint_clusters.is_empty());
    assert!(driver.sync.active_cluster.is_none());
    assert!(driver.sync.job_queue.is_empty());
    assert_eq!(driver.sync.cluster_count(2), 0);
    assert_eq!(driver.sync.cluster_count(3), 0);
}

#[test]
fn a_peer_on_another_chain_is_outdated() {
    // The node is at epoch 2; the peer has other blocks there.
    let mut driver = Driver::new(vec![(2, Chain::with(2, 0))]);
    while driver.next().is_some() {}
    assert_eq!(driver.chain.elections.len(), 2);
    let mut fork = Chain::new();
    fork.elections = vec![block(1, 0), block(2, 0), block(3, 0)];
    let mut other = Chain::new();
    other.elections = vec![block(1, 7), block(2, 7)];
    driver.peers = vec![(5, other), (6, fork)];
    driver.to_probe = vec![5, 6];
    // The peer knows the genesis block only, and answers from there: its ids
    // disagree with the node at the node's head.
    assert_eq!(driver.next(), Some(HistorySyncReturn::Outdated(5)));
    assert_eq!(driver.next(), Some(HistorySyncReturn::Good(6)));
    assert_eq!(driver.chain.elections.len(), 3);
}

#[test]
fn a_failed_commit_ends_the_cluster_and_drops_its_peers() {
    let mut sync = HistorySync::new();
    let head = ElectionHead { hash: genesis(), epoch_number: 0 };
    let response = Chain::with(3, 0).answer(&epoch_ids_request(&genesis(), &genesis()));
    sync.handle_epoch_ids(epoch_ids_from_response(&response, 0, 8), &head);
    sync.handle_epoch_ids(epoch_ids_from_response(&response, 0, 9), &head);
    assert!(sync.poll_cluster(0).is_some());
    sync.batch_set_received();
    assert!(sync.poll_cluster(0).is_some());
    sync.batch_set_received();
    assert_eq!(sync.job_queue.len(), 2);
    let probe = sync.push_batch_set_completed(SyncClusterResult::Error);
    assert!(probe.is_empty());
    assert!(sync.job_queue.is_empty());
    assert!(sync.active_cluster.is_none());
    assert_eq!(sync.cluster_count(8), 0);
    assert_eq!(sync.cluster_count(9), 0);
    assert!(sync.peers.is_empty());
}

#[test]
fn a_failed_commit_evicts_up_to_the_end_of_its_cluster() {
    let mut sync = HistorySync::new();
    let head = ElectionHead { hash: genesis(), epoch_number: 0 };
    let response = Chain::with(2, 0).answer(&epoch_ids_request(&genesis(), &genesis()));
    sync.handle_epoch_ids(epoch_ids_from_response(&response, 0, 8), &head);
    let mut other = Chain::new();
    other.elections = vec![block(1, 0), block(2, 0), block(3, 0)];
    let response = other.answer(&epoch_ids_request(&genesis(), &genesis()));
    sync.handle_epoch_ids(epoch_ids_from_response(&response, 0, 9), &head);
    // The longer cluster is pulled first; it holds one epoch.
    assert_eq!(sync.poll_cluster(0).map(|r| (r.epoch_number, r.peer)), Some((3, 9)));
    sync.batch_set_received();
    assert!(sync.poll_cluster(0).is_none());
    // Then the cluster of the first two epochs.
    assert_eq!(sync.poll_cluster(0).map(|r| (r.epoch_number, r.peer)), Some((1, 8)));
    sync.batch_set_received();
    assert_eq!(sync.job_queue.len(), 3);
    // The commit of epoch 3 fails: the end of its cluster goes with it, and
    // the peer that also is in the other cluster stays.
    let probe = sync.push_batch_set_completed(SyncClusterResult::Error);
    assert!(probe.is_empty());
    assert_eq!(sync.job_queue.len(), 1);
    assert!(matches!(sync.job_queue[0], Job::PushBatchSet(_, _, 1)));
    assert_eq!(sync.cluster_count(9), 1);
    assert_eq!(sync.cluster_count(8), 1);
}

#[test]
fn a_peer_that_leaves_is_in_no_cluster() {
    let mut sync = HistorySync::new();
    let head = ElectionHead { hash: genesis(), epoch_number: 0 };
    let response = Chain::with(3, 1).answer(&epoch_ids_request(&genesis(), &genesis()));
    sync.handle_epoch_ids(epoch_ids_from_response(&response, 0, 8), &head);
    sync.handle_epoch_ids(epoch_ids_from_response(&response, 0, 9), &head);
    assert_eq!(sync.cluster_count(8), 2);
    sync.peer_left(8);
    assert_eq!(sync.cluster_count(8), 0);
    assert_eq!(sync.epoch_clusters[0].peers(), &vec![9]);
    assert_eq!(sync.checkpoint_clusters[0].peers(), &vec![9]);
    assert_eq!(sync.cluster_count(9), 2);
    // A cluster without peers ends with an error on its next turn.
    sync.peer_left(9);
    assert!(sync.poll_cluster(0).is_none());
    match sync.job_queue.front() {
        Some(Job::FinishCluster(_, result)) => assert_eq!(*result, SyncClusterResult::Error),
        _ => panic!("the end of the cluster should be queued"),
    }
}

#[test]
fn the_queue_holds_at_most_four_jobs() {
    let mut sync = HistorySync::new();
    let head = ElectionHead { hash: genesis(), epoch_number: 0 };
    let response = Chain::with(9, 0).answer(&epoch_ids_request(&genesis(), &genesis()));
    sync.handle_epoch_ids(epoch_ids_from_response(&response, 0, 8), &head);
    let mut asked = 0;
    while sync.poll_cluster(0).is_some() {
        sync.batch_set_received();
        asked += 1;
    }
    assert_eq!(asked, HistorySync::MAX_QUEUED_JOBS);
    assert_eq!(sync.job_queue.len(), 4);
    sync.push_batch_set_completed(SyncClusterResult::EpochSuccessful);
    assert_eq!(sync.poll_cluster(1).map(|r| r.epoch_number), Some(5));
}

#[test]
fn a_request_that_fails_goes_to_the_next_peer() {
    let mut sync = HistorySync::new();
    let head = ElectionHead { hash: genesis(), epoch_number: 0 };
    let response = Chain::with(2, 0).answer(&epoch_ids_request(&genesis(), &genesis()));
    sync.handle_epoch_ids(epoch_ids_from_response(&response, 0, 8), &head);
    sync.handle_epoch_ids(epoch_ids_from_response(&response, 0, 9), &head);
    assert_eq!(sync.poll_cluster(0).map(|r| (r.epoch_number, r.peer)), Some((1, 8)));
    sync.request_failed();
    assert_eq!(sync.poll_cluster(0).map(|r| (r.epoch_number, r.peer)), Some((1, 9)));
    sync.request_failed();
    // Every peer has failed: the cluster ends with an error.
    assert!(sync.poll_cluster(0).is_none());
    assert!(matches!(
        sync.job_queue.front(),
        Some(Job::FinishCluster(_, SyncClusterResult::Error))
    ));
    let probe = sync.finish_cluster_completed();
    assert_eq!(probe, Some(vec![]));
    assert!(sync.peers.is_empty());
}
