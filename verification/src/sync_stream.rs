//! The turns of the sync: what it does about the cluster to pull, about the
//! queue of commits, about the ids that peers send and about peers that leave.
use crate::cluster::{BatchSetRequest, ClusterPoll, PeerId, SyncCluster, SyncClusterResult};
use crate::clustering_model::clustered;
use crate::queue_laws::{
    lemma_activated, lemma_active_ended, lemma_batch_set_queued, lemma_cluster_polled,
    lemma_evicted_wf, lemma_finish_completed, lemma_peer_gone, lemma_push_completed,
    lemma_request_failed, lemma_wf_ignores_peers,
};
use crate::epoch_ids::{ElectionHead, EpochIds};
use crate::queue_model::{
    activated, active_ended, batch_set_queued, cluster_polled, evicted, finish_completed,
    jobs_without_peer, peer_gone, push_completed, request_failed, without_peer,
};
use crate::sync::{
    cluster_views, job_views, option_view, HistorySync, HistorySyncReturn, Job, JobView, SyncView,
};
use vstd::prelude::*;

verus! {

/// What the sync tells the node about the ids `e` that a peer sent while the
/// node's election head was `head`, if anything, and the state afterwards. A
/// peer that knew none of the locators is outdated; one that has nothing to
/// offer is good; the ids of any other are clustered, and the peer is
/// outdated where clustering gives it up.
pub open spec fn epoch_ids_handled(
    s: SyncView,
    e: crate::epoch_ids::EpochIdsView,
    head: ElectionHead,
) -> (SyncView, Option<HistorySyncReturn>) {
    if !e.locator_found {
        (s, Some(HistorySyncReturn::Outdated(e.sender)))
    } else if e.is_synced() {
        (s, Some(HistorySyncReturn::Good(e.sender)))
    } else {
        let done = clustered(s, e, head);
        (
            done.0,
            match done.1 {
                Some(peer) => Some(HistorySyncReturn::Outdated(peer)),
                None => None,
            },
        )
    }
}

impl HistorySync {
    /// Whether further peers may be probed: not while `MAX_CLUSTERS` clusters
    /// of epochs wait already.
    pub fn wants_epoch_ids(&self) -> (wanted: bool)
        ensures
            wanted == (self@.epoch_clusters.len() < Self::MAX_CLUSTERS),
    {
        self.epoch_clusters.len() < Self::MAX_CLUSTERS
    }

    /// Takes in the answer of a peer to a probe, sent while the node's
    /// election head was `head`, and says what to tell the node about the peer.
    pub fn handle_epoch_ids(&mut self, epoch_ids: EpochIds, head: &ElectionHead) -> (event: Option<
        HistorySyncReturn,
    >)
        requires
            old(self).wf(),
            epoch_ids.wf(),
            old(self)@.has_id_headroom(),
        ensures
            (final(self)@, event) == epoch_ids_handled(old(self)@, epoch_ids@, *head),
            final(self).wf(),
            old(self)@.counts_exact() && old(self)@.occurrences(epoch_ids.sender) == 0
                && final(self)@.num_live() <= u32::MAX ==> final(self)@.counts_exact(),
    {
        if !epoch_ids.locator_found {
            return Some(HistorySyncReturn::Outdated(epoch_ids.sender));
        } else if epoch_ids.ids.is_empty() && epoch_ids.checkpoint_id.is_none() {
            return Some(HistorySyncReturn::Good(epoch_ids.sender));
        }
        match self.cluster_epoch_ids(epoch_ids, head) {
            Some(peer) => Some(HistorySyncReturn::Outdated(peer)),
            None => None,
        }
    }

    /// Removes the jobs of the cluster `cluster_id` from the head of the
    /// queue, up to and with the end of that cluster. Returns the cluster if
    /// its end was there.
    pub fn evict_jobs_by_cluster(&mut self, cluster_id: u64) -> (cluster: Option<SyncCluster>)
        ensures
            final(self)@ == (SyncView {
                job_queue: evicted(old(self)@.job_queue, cluster_id).0,
                ..old(self)@
            }),
            option_view(cluster) == evicted(old(self)@.job_queue, cluster_id).1,
            cluster matches Some(c) ==> c.id == cluster_id,
            old(self).wf() ==> final(self).wf() && (cluster matches Some(c) ==> c.wf()),
    {
        proof {
            if self.wf() {
                lemma_evicted_wf(self@, cluster_id);
            }
        }
        loop
            invariant
                self.epoch_clusters == old(self).epoch_clusters,
                self.checkpoint_clusters == old(self).checkpoint_clusters,
                self.active_cluster == old(self).active_cluster,
                self.peers == old(self).peers,
                self.next_cluster_id == old(self).next_cluster_id,
                evicted(old(self)@.job_queue, cluster_id) == evicted(self@.job_queue, cluster_id),
                old(self).wf() ==> (SyncView {
                    job_queue: evicted(old(self)@.job_queue, cluster_id).0,
                    ..old(self)@
                }).wf() && (evicted(old(self)@.job_queue, cluster_id).1 matches Some(c) ==> c.wf()),
            decreases self.job_queue.len(),
        {
            if self.job_queue.len() == 0 {
                return None;
            }
            let id = match &self.job_queue[0] {
                Job::PushBatchSet(id, _, _) => *id,
                Job::FinishCluster(cluster, _) => cluster.id,
            };
            if id != cluster_id {
                return None;
            }
            let ghost before = self.job_queue@;
            let job = self.job_queue.pop_front();
            proof {
                assert(job_views(self.job_queue@) =~= job_views(before).skip(1));
            }
            match job {
                Some(Job::FinishCluster(cluster, _)) => {
                    return Some(cluster);
                },
                _ => {},
            }
        }
    }

    /// Takes a cluster to pull where none is being pulled.
    pub fn activate_next_cluster(&mut self, current_epoch: usize)
        requires
            old(self).wf(),
        ensures
            final(self)@ == activated(old(self)@, current_epoch),
            final(self).wf(),
            old(self)@.counts_exact() ==> final(self)@.counts_exact(),
    {
        proof {
            lemma_activated(self@, current_epoch);
        }
        if self.active_cluster.is_none() {
            self.active_cluster = self.pop_next_cluster(current_epoch);
        }
    }

    /// Queues the end of the cluster that is being pulled.
    pub fn end_active_cluster(&mut self, result: SyncClusterResult)
        requires
            old(self).wf(),
        ensures
            final(self)@ == active_ended(old(self)@, result),
            final(self).wf(),
            old(self)@.counts_exact() ==> final(self)@.counts_exact(),
    {
        proof {
            lemma_active_ended(self@, result);
        }
        let ghost before = self.job_queue@;
        match self.active_cluster.take() {
            Some(cluster) => {
                self.job_queue.push_back(Job::FinishCluster(cluster, result));
                proof {
                    assert(job_views(self.job_queue@) =~= job_views(before).push(
                        JobView::FinishCluster(cluster@, result),
                    ));
                }
            },
            None => {},
        }
    }

    /// One turn for the cluster to pull while the node's election head is in
    /// epoch `current_epoch`. Returns the request to make next, if any. The
    /// answer is reported with `batch_set_received` or `request_failed`.
    pub fn poll_cluster(&mut self, current_epoch: usize) -> (request: Option<BatchSetRequest>)
        requires
            old(self).wf(),
        ensures
            (final(self)@, request) == cluster_polled(
                old(self)@,
                current_epoch,
                Self::MAX_QUEUED_JOBS,
            ),
            final(self).wf(),
            old(self)@.counts_exact() ==> final(self)@.counts_exact(),
    {
        proof {
            lemma_cluster_polled(self@, current_epoch, Self::MAX_QUEUED_JOBS);
        }
        self.activate_next_cluster(current_epoch);
        if self.job_queue.len() >= Self::MAX_QUEUED_JOBS {
            return None;
        }
        let step = match &self.active_cluster {
            Some(cluster) => cluster.poll_next(),
            None => {
                return None;
            },
        };
        match step {
            ClusterPoll::Request(request) => Some(request),
            ClusterPoll::Finished(result) => {
                self.end_active_cluster(result);
                None
            },
        }
    }

    /// The pending request of the cluster that is being pulled was answered:
    /// the commit of its batch set is queued.
    pub fn batch_set_received(&mut self)
        requires
            old(self).wf(),
        ensures
            final(self)@ == batch_set_queued(old(self)@),
            final(self).wf(),
            old(self)@.counts_exact() ==> final(self)@.counts_exact(),
    {
        proof {
            lemma_batch_set_queued(self@);
        }
        let ghost before = self.job_queue@;
        let ghost s = self@;
        match &mut self.active_cluster {
            Some(cluster) => {
                match cluster.poll_next() {
                    ClusterPoll::Request(_) => {
                        let id = cluster.id;
                        let answered = cluster.batch_set_received();
                        self.job_queue.push_back(
                            Job::PushBatchSet(id, answered.epoch_id, answered.epoch_number),
                        );
                        proof {
                            assert(job_views(self.job_queue@) =~= job_views(before).push(
                                JobView::PushBatchSet(
                                    id,
                                    answered.epoch_id,
                                    answered.epoch_number,
                                ),
                            ));
                        }
                    },
                    ClusterPoll::Finished(_) => {},
                }
            },
            None => {},
        }
    }

    /// The pending request of the cluster that is being pulled failed.
    pub fn request_failed(&mut self)
        requires
            old(self).wf(),
        ensures
            final(self)@ == request_failed(old(self)@),
            final(self).wf(),
            old(self)@.counts_exact() ==> final(self)@.counts_exact(),
    {
        proof {
            lemma_request_failed(self@);
        }
        match &mut self.active_cluster {
            Some(cluster) => {
                match cluster.poll_next() {
                    ClusterPoll::Request(_) => {
                        cluster.request_failed();
                    },
                    ClusterPoll::Finished(_) => {},
                }
            },
            None => {},
        }
    }

    /// The commit at the head of the queue came back with `result`. Returns
    /// the peers to probe again.
    pub fn push_batch_set_completed(&mut self, result: SyncClusterResult) -> (probe: Vec<PeerId>)
        ensures
            (final(self)@, probe@) == push_completed(old(self)@, result),
            old(self).wf() ==> final(self).wf(),
            old(self).wf() && old(self)@.counts_exact() ==> final(self)@.counts_exact(),
    {
        proof {
            if self.wf() {
                lemma_push_completed(self@, result);
            }
        }
        if self.job_queue.len() == 0 {
            return Vec::new();
        }
        let cluster_id = match &self.job_queue[0] {
            Job::PushBatchSet(id, _, _) => *id,
            Job::FinishCluster(_, _) => {
                return Vec::new();
            },
        };
        let ghost before = self.job_queue@;
        self.job_queue.pop_front();
        proof {
            assert(job_views(self.job_queue@) =~= job_views(before).skip(1));
        }
        if result == SyncClusterResult::EpochSuccessful {
            return Vec::new();
        }
        let cluster = match self.evict_jobs_by_cluster(cluster_id) {
            Some(cluster) => Some(cluster),
            None => self.active_cluster.take(),
        };
        match cluster {
            Some(cluster) => self.finish_cluster(cluster, result),
            None => Vec::new(),
        }
    }

    /// Processes the end of a cluster where one is at the head of the queue.
    /// Returns the peers to probe again, or `None` where the head of the queue
    /// is no such job.
    pub fn finish_cluster_completed(&mut self) -> (probe: Option<Vec<PeerId>>)
        ensures
            old(self).wf() ==> final(self).wf(),
            old(self).wf() && old(self)@.counts_exact() ==> final(self)@.counts_exact(),
            match probe {
                Some(peers) => crate::queue_model::finish_is_next(old(self)@) && (
                    final(self)@,
                    peers@,
                ) == finish_completed(old(self)@),
                None => !crate::queue_model::finish_is_next(old(self)@) && final(self)@ == old(
                    self,
                )@,
            },
    {
        proof {
            if self.wf() {
                lemma_finish_completed(self@);
            }
        }
        if self.job_queue.len() == 0 {
            return None;
        }
        match &self.job_queue[0] {
            Job::PushBatchSet(_, _, _) => {
                return None;
            },
            Job::FinishCluster(_, _) => {},
        }
        let ghost before = self.job_queue@;
        let job = self.job_queue.pop_front();
        proof {
            assert(job_views(self.job_queue@) =~= job_views(before).skip(1));
        }
        match job {
            Some(Job::FinishCluster(cluster, result)) => Some(self.finish_cluster(cluster, result)),
            _ => None,
        }
    }
}

/// Removes `peer` from each of `clusters`.
pub fn remove_peer_from(clusters: &mut Vec<SyncCluster>, peer: PeerId)
    requires
        forall|k: int| 0 <= k < old(clusters)@.len() ==> (#[trigger] old(clusters)@[k]).wf(),
    ensures
        cluster_views(final(clusters)@) == without_peer(cluster_views(old(clusters)@), peer),
{
    let n = clusters.len();
    let mut i: usize = 0;
    while i < n
        invariant
            i <= n,
            n == clusters@.len(),
            n == old(clusters)@.len(),
            forall|k: int| 0 <= k < i ==> (#[trigger] clusters@[k])@ == old(clusters)@[k]@.remove_peer(peer),
            forall|k: int| i <= k < n ==> (#[trigger] clusters@[k]) == old(clusters)@[k],
            forall|k: int| 0 <= k < n ==> (#[trigger] old(clusters)@[k]).wf(),
        decreases n - i,
    {
        clusters[i].remove_peer(peer);
        i += 1;
    }
    proof {
        assert(cluster_views(clusters@) =~= without_peer(cluster_views(old(clusters)@), peer));
    }
}

impl HistorySync {
    /// Removes `peer` from every cluster. The bookkeeping stays as it is.
    pub fn remove_peer(&mut self, peer: PeerId)
        requires
            old(self).wf(),
        ensures
            final(self)@ == (SyncView { peers: old(self)@.peers, ..peer_gone(old(self)@, peer) }),
            final(self).wf(),
    {
        let ghost s = self@;
        proof {
            lemma_peer_gone(s, peer);
            lemma_wf_ignores_peers(peer_gone(s, peer), s.peers);
            assert forall|k: int| 0 <= k < self.epoch_clusters@.len() implies (
            #[trigger] self.epoch_clusters@[k]).wf() by {
                assert(s.epoch_clusters[k].wf());
            }
            assert forall|k: int| 0 <= k < self.checkpoint_clusters@.len() implies (
            #[trigger] self.checkpoint_clusters@[k]).wf() by {
                assert(s.checkpoint_clusters[k].wf());
            }
        }
        remove_peer_from(&mut self.epoch_clusters, peer);
        remove_peer_from(&mut self.checkpoint_clusters, peer);
        match &mut self.active_cluster {
            Some(cluster) => {
                cluster.remove_peer(peer);
            },
            None => {},
        }
        let n = self.job_queue.len();
        let ghost jobs = self.job_queue@;
        let mut i: usize = 0;
        while i < n
            invariant
                i <= n,
                n == jobs.len(),
                jobs == old(self).job_queue@,
                s == old(self)@,
                s.clusters_wf(),
                self.job_queue@.len() == n,
                self@.epoch_clusters == without_peer(s.epoch_clusters, peer),
                self@.checkpoint_clusters == without_peer(s.checkpoint_clusters, peer),
                self@.active_cluster == peer_gone(s, peer).active_cluster,
                self.peers == old(self).peers,
                self.next_cluster_id == old(self).next_cluster_id,
                job_views(self.job_queue@) == job_views(jobs).skip(i as int) + jobs_without_peer(
                    job_views(jobs),
                    peer,
                ).take(i as int),
            decreases n - i,
        {
            let ghost before = self.job_queue@;
            assert(job_views(before)[0] == job_views(jobs)[i as int]);
            assert(s.job_queue[i as int] == job_views(jobs)[i as int]);
            let job = self.job_queue.pop_front();
            let ghost mid = self.job_queue@;
            match job {
                Some(Job::FinishCluster(cluster, result)) => {
                    let mut cluster = cluster;
                    cluster.remove_peer(peer);
                    self.job_queue.push_back(Job::FinishCluster(cluster, result));
                },
                Some(job) => {
                    self.job_queue.push_back(job);
                },
                None => {},
            }
            proof {
                let cleaned = jobs_without_peer(job_views(jobs), peer);
                let after = job_views(self.job_queue@);
                assert(mid =~= before.skip(1));
                assert(self.job_queue@.len() == n);
                assert(after[n - 1] == cleaned[i as int]);
                assert forall|k: int| 0 <= k < n implies after[k] == (job_views(jobs).skip(i + 1)
                    + cleaned.take(i + 1))[k] by {
                    if k < n - 1 {
                        assert(after[k] == job_views(before)[k + 1]);
                    }
                }
                assert(after =~= job_views(jobs).skip(i + 1) + cleaned.take(i + 1));
            }
            i += 1;
        }
        proof {
            assert(job_views(self.job_queue@) =~= jobs_without_peer(job_views(jobs), peer));
        }
    }

    /// A peer has left the network: it leaves every cluster and the
    /// bookkeeping.
    pub fn peer_left(&mut self, peer: PeerId)
        requires
            old(self).wf(),
        ensures
            final(self)@ == peer_gone(old(self)@, peer),
            final(self).wf(),
            final(self)@.occurrences(peer) == 0,
            old(self)@.counts_exact() ==> final(self)@.counts_exact(),
    {
        proof {
            lemma_peer_gone(self@, peer);
        }
        broadcast use vstd::std_specs::hash::group_hash_axioms;

        self.remove_peer(peer);
        self.peers.remove(&peer);
    }
}

} // verus!
