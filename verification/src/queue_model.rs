//! What scheduling and the queue do to the sync state, as functions on the
//! mathematical content of the state.
use crate::cluster::{
    ranks_above, BatchSetRequest, ClusterPoll, ClusterView, PeerId, SyncClusterResult,
};
use crate::sync::{count_of, JobView, SyncView};
use vstd::prelude::*;

verus! {

/// The position of the cluster that the scheduler takes from a pool that is
/// not empty: the clusters are held against each other front to back, and the
/// one that comes later wins unless the one before it ranks above it.
pub open spec fn best_index(clusters: Seq<ClusterView>) -> int
    decreases clusters.len(),
{
    if clusters.len() <= 1 {
        0
    } else {
        let best = best_index(clusters.drop_last());
        if ranks_above(clusters[best], clusters.last()) {
            best
        } else {
            clusters.len() - 1
        }
    }
}

/// The pool after the cluster at `index` was taken out and the cluster at the
/// front was put in its place.
pub open spec fn swap_removed(clusters: Seq<ClusterView>, index: int) -> Seq<ClusterView> {
    if index == 0 {
        clusters.skip(1)
    } else {
        clusters.subrange(1, index).push(clusters[0]) + clusters.skip(index + 1)
    }
}

/// How many epochs the scheduler drops from the front of a cluster: those at
/// or before `current_epoch`, all of them where the whole cluster lies there.
pub open spec fn stale_epochs(c: ClusterView, current_epoch: usize) -> int {
    if c.first_epoch_number <= current_epoch {
        if current_epoch - c.first_epoch_number + 1 <= c.epoch_ids.len() {
            current_epoch - c.first_epoch_number + 1
        } else {
            c.epoch_ids.len() as int
        }
    } else {
        0
    }
}

/// The cluster as the scheduler hands it out: without the epochs at or before
/// `current_epoch`.
pub open spec fn trimmed(c: ClusterView, current_epoch: usize) -> ClusterView {
    if c.first_epoch_number <= current_epoch {
        c.remove_front(stale_epochs(c, current_epoch))
    } else {
        c
    }
}

/// What the scheduler takes from a pool: the pool afterwards and the cluster,
/// trimmed; nothing where the pool is empty.
pub open spec fn best_taken(clusters: Seq<ClusterView>, current_epoch: usize) -> (
    Seq<ClusterView>,
    Option<ClusterView>,
) {
    if clusters.len() == 0 {
        (clusters, None)
    } else {
        let best = best_index(clusters);
        (swap_removed(clusters, best), Some(trimmed(clusters[best], current_epoch)))
    }
}

/// What the scheduler takes next: the best cluster of epochs, or, where none
/// waits, the best cluster of a checkpoint.
pub open spec fn popped(s: SyncView, current_epoch: usize) -> (SyncView, Option<ClusterView>) {
    if s.epoch_clusters.len() > 0 {
        let taken = best_taken(s.epoch_clusters, current_epoch);
        (SyncView { epoch_clusters: taken.0, ..s }, taken.1)
    } else {
        let taken = best_taken(s.checkpoint_clusters, current_epoch);
        (SyncView { checkpoint_clusters: taken.0, ..s }, taken.1)
    }
}

/// The bookkeeping after `peer` left one cluster: one less, and no entry at
/// all once it is in no cluster.
pub open spec fn released(peers: Map<PeerId, u32>, peer: PeerId) -> Map<PeerId, u32> {
    if count_of(peers, peer) <= 1 {
        peers.remove(peer)
    } else {
        peers.insert(peer, (count_of(peers, peer) - 1) as u32)
    }
}

/// The bookkeeping after each of `leaving` left one cluster, in turn, and
/// those of them that were left in no cluster, in the same order.
pub open spec fn released_all(peers: Map<PeerId, u32>, leaving: Seq<PeerId>) -> (
    Map<PeerId, u32>,
    Seq<PeerId>,
)
    decreases leaving.len(),
{
    if leaving.len() == 0 {
        (peers, Seq::empty())
    } else {
        let before = released_all(peers, leaving.drop_last());
        let peer = leaving.last();
        (
            released(before.0, peer),
            if count_of(before.0, peer) <= 1 {
                before.1.push(peer)
            } else {
                before.1
            },
        )
    }
}

/// The end of a cluster: the state afterwards, and the peers to probe again.
/// Each peer of the cluster is in one cluster less. Those that are in none
/// any more leave the bookkeeping and, unless the cluster failed, are probed
/// again.
pub open spec fn finished(s: SyncView, cluster: ClusterView, result: SyncClusterResult) -> (
    SyncView,
    Seq<PeerId>,
) {
    let done = released_all(s.peers, cluster.peers);
    (
        SyncView { peers: done.0, ..s },
        if result != SyncClusterResult::Error {
            done.1
        } else {
            Seq::empty()
        },
    )
}

/// The queue without the jobs of the cluster `cluster_id` at its head, up to
/// and with the end of that cluster, and the cluster if its end was there.
pub open spec fn evicted(jobs: Seq<JobView>, cluster_id: u64) -> (Seq<JobView>, Option<ClusterView>)
    decreases jobs.len(),
{
    if jobs.len() == 0 || jobs[0].cluster_id() != cluster_id {
        (jobs, None)
    } else {
        match jobs[0] {
            JobView::FinishCluster(c, _) => (jobs.skip(1), Some(c)),
            JobView::PushBatchSet(_, _, _) => evicted(jobs.skip(1), cluster_id),
        }
    }
}

/// The state after the commit at the head of the queue came back with
/// `result`, and the peers to probe again. A commit that went well just
/// leaves the queue. One that did not takes its cluster with it: the jobs of
/// that cluster leave the head of the queue, and the cluster ends with
/// `result`, be it waiting for its end in the queue or still being pulled.
/// Where the head of the queue is no commit, nothing happens.
pub open spec fn push_completed(s: SyncView, result: SyncClusterResult) -> (SyncView, Seq<PeerId>) {
    if s.job_queue.len() == 0 || s.job_queue[0] is FinishCluster {
        (s, Seq::empty())
    } else {
        let rest = s.job_queue.skip(1);
        if result == SyncClusterResult::EpochSuccessful {
            (SyncView { job_queue: rest, ..s }, Seq::empty())
        } else {
            let gone = evicted(rest, s.job_queue[0].cluster_id());
            match gone.1 {
                Some(c) => finished(SyncView { job_queue: gone.0, ..s }, c, result),
                None => match s.active_cluster {
                    Some(c) => finished(
                        SyncView { job_queue: gone.0, active_cluster: None, ..s },
                        c,
                        result,
                    ),
                    None => (SyncView { job_queue: gone.0, ..s }, Seq::empty()),
                },
            }
        }
    }
}

/// Whether the end of a cluster is at the head of the queue.
pub open spec fn finish_is_next(s: SyncView) -> bool {
    s.job_queue.len() > 0 && s.job_queue[0] is FinishCluster
}

/// The state after the end of a cluster at the head of the queue was
/// processed, and the peers to probe again.
pub open spec fn finish_completed(s: SyncView) -> (SyncView, Seq<PeerId>) {
    if s.job_queue.len() == 0 {
        (s, Seq::empty())
    } else {
        match s.job_queue[0] {
            JobView::FinishCluster(c, result) => finished(
                SyncView { job_queue: s.job_queue.skip(1), ..s },
                c,
                result,
            ),
            JobView::PushBatchSet(_, _, _) => (s, Seq::empty()),
        }
    }
}

/// The state with a cluster to pull, where one can be had.
pub open spec fn activated(s: SyncView, current_epoch: usize) -> SyncView {
    if s.active_cluster is Some {
        s
    } else {
        let next = popped(s, current_epoch);
        SyncView { active_cluster: next.1, ..next.0 }
    }
}

/// The state after the cluster that is being pulled delivered its next epoch:
/// the commit of that epoch is queued.
pub open spec fn batch_set_queued(s: SyncView) -> SyncView {
    match s.active_cluster {
        Some(c) => match c.next_step() {
            ClusterPoll::Request(request) => SyncView {
                active_cluster: Some(c.delivered()),
                job_queue: s.job_queue.push(
                    JobView::PushBatchSet(c.id, request.epoch_id, request.epoch_number),
                ),
                ..s
            },
            ClusterPoll::Finished(_) => s,
        },
        None => s,
    }
}

/// The state after the pending request of the cluster that is being pulled
/// failed: the cluster turns to its next peer.
pub open spec fn request_failed(s: SyncView) -> SyncView {
    match s.active_cluster {
        Some(c) => match c.next_step() {
            ClusterPoll::Request(_) => SyncView { active_cluster: Some(c.failed()), ..s },
            ClusterPoll::Finished(_) => s,
        },
        None => s,
    }
}

/// What the sync does about the cluster to pull while at most `max_jobs` jobs
/// may wait: it takes a cluster to pull where it has none; then, while there
/// is room in the queue, it asks for the next batch set of that cluster, or,
/// where the cluster has ended, queues its end.
pub open spec fn cluster_polled(s: SyncView, current_epoch: usize, max_jobs: usize) -> (
    SyncView,
    Option<BatchSetRequest>,
) {
    let a = activated(s, current_epoch);
    match a.active_cluster {
        Some(c) => if a.job_queue.len() < max_jobs {
            match c.next_step() {
                ClusterPoll::Request(request) => (a, Some(request)),
                ClusterPoll::Finished(result) => (active_ended(a, result), None),
            }
        } else {
            (a, None)
        },
        None => (a, None),
    }
}

/// The state after the cluster that is being pulled ended with `result`: its
/// end is queued, and no cluster is being pulled.
pub open spec fn active_ended(s: SyncView, result: SyncClusterResult) -> SyncView {
    match s.active_cluster {
        Some(c) => SyncView {
            active_cluster: None,
            job_queue: s.job_queue.push(JobView::FinishCluster(c, result)),
            ..s
        },
        None => s,
    }
}

/// The clusters without `peer` in any of them.
pub open spec fn without_peer(clusters: Seq<ClusterView>, peer: PeerId) -> Seq<ClusterView> {
    Seq::new(clusters.len(), |i: int| clusters[i].remove_peer(peer))
}

/// The jobs without `peer` in any cluster that waits for its end.
pub open spec fn jobs_without_peer(jobs: Seq<JobView>, peer: PeerId) -> Seq<JobView> {
    Seq::new(
        jobs.len(),
        |i: int|
            match jobs[i] {
                JobView::FinishCluster(c, result) => JobView::FinishCluster(
                    c.remove_peer(peer),
                    result,
                ),
                job => job,
            },
    )
}

/// The state after `peer` left the network: it is in no cluster and not in
/// the bookkeeping.
pub open spec fn peer_gone(s: SyncView, peer: PeerId) -> SyncView {
    SyncView {
        epoch_clusters: without_peer(s.epoch_clusters, peer),
        checkpoint_clusters: without_peer(s.checkpoint_clusters, peer),
        active_cluster: match s.active_cluster {
            Some(c) => Some(c.remove_peer(peer)),
            None => None,
        },
        job_queue: jobs_without_peer(s.job_queue, peer),
        peers: s.peers.remove(peer),
        next_cluster_id: s.next_cluster_id,
    }
}

} // verus!
