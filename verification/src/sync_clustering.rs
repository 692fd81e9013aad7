//! Clustering: the ids of one peer are reconciled with the node's head, with
//! the queue of commits and with the clusters at hand.
use crate::cluster::{ClusterView, PeerId, SyncCluster, SyncClusterResult};
use crate::clustering_laws::{
    keeps_exact, lemma_checkpoint_cluster_stays, lemma_clustered_counts,
    lemma_clustered_counts_rejoined, lemma_clustered_wf, lemma_merge_all_exhausted,
    lemma_merge_all_len,
};
use crate::clustering_model::{
    all_ids, checkpoint_cluster, clustered, common_prefix, finishing_job, is_checkpoint_cluster,
    match_queue, merge_all, merge_one, merge_start, merge_step, merged, merged_epochs,
    truncated_to_head,
};
use crate::epoch_ids::{ElectionHead, EpochIds};
use crate::hash::Blake2bHash;
use crate::queue_laws::{counts_exact_but, lemma_finished, lemma_finished_wf, lemma_popped_wf};
use crate::queue_model::{
    best_index, best_taken, finished, popped, released, released_all, swap_removed,
};
use crate::sync::{
    bumped, bumped_all, bumped_for, cluster_views, count_of, job_views, option_view, HistorySync,
    Job, JobView, SyncView,
};
use std::collections::HashMap;
use vstd::prelude::*;

verus! {

/// How far a walk along a peer's ids and the queue got.
struct QueuedIds {
    /// The number of the peer's ids found in the queue.
    pub num_ids: usize,
    /// Whether the peer's checkpoint was found after them.
    pub checkpoint: bool,
    /// The cluster of the commit that matched last.
    pub cluster_id: u64,
    /// The position in the queue after the commit that matched last.
    pub next_job: usize,
}

/// Cuts the ids down to those beyond the node's election head. Says `false`
/// where the peer has nothing beyond the head or disagrees about it.
pub fn truncate_to_head(epoch_ids: &mut EpochIds, head: &ElectionHead) -> (ahead: bool)
    requires
        old(epoch_ids).wf(),
    ensures
        final(epoch_ids).wf(),
        match truncated_to_head(old(epoch_ids)@, *head) {
            Some(rest) => ahead && final(epoch_ids)@ == rest,
            None => !ahead && final(epoch_ids)@ == old(epoch_ids)@,
        },
{
    let our_epoch = head.epoch_number as usize;
    if !epoch_ids.ids.is_empty() && epoch_ids.first_epoch_number <= our_epoch {
        let at = our_epoch - epoch_ids.first_epoch_number;
        if at >= epoch_ids.ids.len() {
            return false;
        }
        if epoch_ids.ids[at] != head.hash {
            return false;
        }
        let rest = epoch_ids.ids.split_off(at + 1);
        epoch_ids.ids = rest;
        epoch_ids.first_epoch_number = our_epoch + 1;
        proof {
            assert(epoch_ids.ids@ =~= old(epoch_ids).ids@.skip(at + 1));
        }
    }
    true
}

/// The length of the longest common prefix of `a` from `a_from` on and `b`
/// from `b_from` on.
pub fn common_prefix_len(a: &Vec<Blake2bHash>, a_from: usize, b: &Vec<Blake2bHash>, b_from: usize) -> (len:
    usize)
    requires
        a_from <= a.len(),
        b_from <= b.len(),
    ensures
        len == common_prefix(a@.skip(a_from as int), b@.skip(b_from as int)),
        len <= a.len() - a_from,
        len <= b.len() - b_from,
{
    let mut k: usize = 0;
    while a_from + k < a.len() && b_from + k < b.len() && a[a_from + k] == b[b_from + k]
        invariant
            a_from + k <= a.len(),
            b_from + k <= b.len(),
            common_prefix(a@.skip(a_from as int), b@.skip(b_from as int)) == k + common_prefix(
                a@.skip(a_from + k),
                b@.skip(b_from + k),
            ),
        decreases a.len() - a_from - k,
    {
        proof {
            assert(a@.skip(a_from + k).skip(1) =~= a@.skip(a_from + k + 1));
            assert(b@.skip(b_from + k).skip(1) =~= b@.skip(b_from + k + 1));
        }
        k += 1;
    }
    k
}

impl HistorySync {
    /// Walks along the peer's ids, its checkpoint last, and along the queue at
    /// once, and says how many of them are queued for commit already.
    fn match_job_queue(&self, epoch_ids: &EpochIds) -> (queued: QueuedIds)
        ensures
            queued.num_ids <= epoch_ids@.ids.len(),
            queued.checkpoint ==> queued.num_ids == epoch_ids@.ids.len()
                && epoch_ids@.checkpoint_id is Some,
            queued.next_job <= self@.job_queue.len(),
            ({
                let q = match_queue(all_ids(epoch_ids@), self@.job_queue, 0, 0, 0);
                &&& q.matched == queued.num_ids + if queued.checkpoint {
                    1nat
                } else {
                    0nat
                }
                &&& q.cluster_id == queued.cluster_id
                &&& q.next_job == queued.next_job
            }),
    {
        let ghost ids = all_ids(epoch_ids@);
        let ghost jobs = self@.job_queue;
        let num = epoch_ids.ids.len();
        let mut i: usize = 0;
        let mut checkpoint = false;
        let mut cluster_id: u64 = 0;
        let mut j: usize = 0;
        while j < self.job_queue.len()
            invariant
                ids == all_ids(epoch_ids@),
                jobs == self@.job_queue,
                num == epoch_ids.ids.len(),
                i <= num,
                checkpoint ==> i == num && epoch_ids.checkpoint_id is Some,
                j <= self.job_queue.len(),
                match_queue(ids, jobs, 0, 0, 0) == match_queue(
                    ids,
                    jobs,
                    i as nat + if checkpoint {
                        1nat
                    } else {
                        0nat
                    },
                    j as nat,
                    cluster_id,
                ),
            ensures
                j >= self.job_queue.len() || i + if checkpoint {
                    1nat
                } else {
                    0nat
                } >= ids.len(),
            decreases self.job_queue.len() - j,
        {
            let id = if i < num {
                epoch_ids.ids[i]
            } else if !checkpoint {
                match epoch_ids.checkpoint_id {
                    Some(id) => id,
                    None => {
                        break ;
                    },
                }
            } else {
                break ;
            };
            assert(id == ids[i as int]);
            match &self.job_queue[j] {
                Job::PushBatchSet(cid, hash, _) => {
                    if *hash == id {
                        if i < num {
                            i += 1;
                        } else {
                            checkpoint = true;
                        }
                        cluster_id = *cid;
                    }
                },
                Job::FinishCluster(_, _) => {},
            }
            j += 1;
        }
        QueuedIds { num_ids: i, checkpoint, cluster_id, next_job: j }
    }

    /// The position of the first job at or after `from` that ends the cluster
    /// `cluster_id`.
    fn find_finishing_job(&self, from: usize, cluster_id: u64) -> (found: Option<usize>)
        ensures
            match found {
                Some(k) => finishing_job(self@.job_queue, from as nat, cluster_id) == Some(
                    k as nat,
                ) && k < self@.job_queue.len() && self@.job_queue[k as int] is FinishCluster,
                None => finishing_job(self@.job_queue, from as nat, cluster_id) is None,
            },
    {
        let mut j: usize = from;
        while j < self.job_queue.len()
            invariant
                from <= j,
                finishing_job(self@.job_queue, from as nat, cluster_id) == finishing_job(
                    self@.job_queue,
                    j as nat,
                    cluster_id,
                ),
            decreases self.job_queue.len() - j,
        {
            match &self.job_queue[j] {
                Job::FinishCluster(cluster, _) => {
                    if cluster.id == cluster_id {
                        return Some(j);
                    }
                },
                Job::PushBatchSet(_, _, _) => {},
            }
            j += 1;
        }
        None
    }
}

/// Holds the peer's ids from `id_index` on against one cluster: the peer
/// joins the cluster where they agree, and what disagrees or goes further is
/// split off under the id `new_id`.
pub fn merge_with_cluster(
    cluster: &mut SyncCluster,
    epoch_ids: &EpochIds,
    id_index: usize,
    new_id: u64,
) -> (done: (Option<SyncCluster>, usize, bool))
    requires
        old(cluster).wf(),
        id_index <= epoch_ids@.ids.len(),
    ensures
        final(cluster).wf(),
        done.0 matches Some(tail) ==> tail.wf(),
        id_index + done.1 <= epoch_ids@.ids.len(),
        ({
            let step = merge_step(old(cluster)@, epoch_ids@, id_index as nat, new_id);
            &&& final(cluster)@ == step.cluster
            &&& option_view(done.0) == step.split
            &&& done.1 == step.matched
            &&& done.2 == step.joined
        }),
{
    if cluster.first_epoch_number <= epoch_ids.first_epoch_number && cluster.first_epoch_number
        + cluster.epoch_ids.len() > epoch_ids.first_epoch_number {
        let start_offset = epoch_ids.first_epoch_number - cluster.first_epoch_number;
        let match_until = common_prefix_len(
            &cluster.epoch_ids,
            start_offset,
            &epoch_ids.ids,
            id_index,
        );
        if match_until > 0 {
            let mut split: Option<SyncCluster> = None;
            if match_until < cluster.epoch_ids.len() - start_offset {
                let split_at = start_offset + match_until;
                if cluster.num_epochs_finished() > split_at {
                    return (None, match_until, false);
                }
                proof {
                    crate::cluster::lemma_split_preserves_history(
                        cluster@,
                        split_at as int,
                        new_id,
                    );
                }
                split = Some(cluster.split_off(split_at, new_id));
            }
            cluster.add_peer(epoch_ids.sender);
            return (split, match_until, true);
        }
    }
    (None, 0, false)
}

/// One more peer's cluster in the bookkeeping.
fn bump_peer(peers: &mut HashMap<PeerId, u32>, peer: PeerId)
    ensures
        final(peers)@ == bumped(old(peers)@, peer),
{
    broadcast use vstd::std_specs::hash::group_hash_axioms;

    let count = match peers.get(&peer) {
        Some(count) => *count,
        None => 0,
    };
    peers.insert(peer, count.saturating_add(1));
}

/// One more cluster in the bookkeeping for each peer of each of `clusters`.
fn bump_peers_of(peers: &mut HashMap<PeerId, u32>, clusters: &Vec<SyncCluster>)
    ensures
        final(peers)@ == bumped_for(old(peers)@, cluster_views(clusters@)),
{
    let ghost views = cluster_views(clusters@);
    let mut i: usize = 0;
    while i < clusters.len()
        invariant
            i <= clusters.len(),
            views == cluster_views(clusters@),
            peers@ == bumped_for(old(peers)@, views.take(i as int)),
        decreases clusters.len() - i,
    {
        let ghost before = peers@;
        let cluster = &clusters[i];
        let mut j: usize = 0;
        while j < cluster.peers.len()
            invariant
                j <= cluster.peers.len(),
                peers@ == bumped_all(before, cluster.peers@.take(j as int)),
            decreases cluster.peers.len() - j,
        {
            bump_peer(peers, cluster.peers[j]);
            proof {
                assert(cluster.peers@.take(j + 1).drop_last() =~= cluster.peers@.take(j as int));
            }
            j += 1;
        }
        proof {
            assert(cluster.peers@.take(cluster.peers@.len() as int) =~= cluster.peers@);
            assert(views.take(i + 1).drop_last() =~= views.take(i as int));
            assert(views.take(i + 1).last() == cluster@);
        }
        i += 1;
    }
    proof {
        assert(views.take(views.len() as int) =~= views);
    }
}

/// The position of the first of `clusters` that is the cluster of the
/// checkpoint `hash` of epoch `epoch`.
fn find_checkpoint_cluster(clusters: &Vec<SyncCluster>, epoch: usize, hash: &Blake2bHash) -> (found:
    Option<usize>)
    ensures
        match found {
            Some(k) => checkpoint_cluster(cluster_views(clusters@), epoch as int, *hash) == Some(
                k as int,
            ) && k < clusters@.len(),
            None => checkpoint_cluster(cluster_views(clusters@), epoch as int, *hash) is None,
        },
{
    let ghost views = cluster_views(clusters@);
    let mut i: usize = 0;
    while i < clusters.len()
        invariant
            i <= clusters.len(),
            views == cluster_views(clusters@),
            checkpoint_cluster(views.take(i as int), epoch as int, *hash) is None,
        decreases clusters.len() - i,
    {
        proof {
            assert(views.take(i + 1).drop_last() =~= views.take(i as int));
            assert(views.take(i + 1).last() == clusters@[i as int]@);
        }
        if is_cluster_of_checkpoint(&clusters[i], epoch, hash) {
            proof {
                lemma_checkpoint_cluster_stays(views, epoch as int, *hash, i + 1);
            }
            return Some(i);
        }
        i += 1;
    }
    proof {
        assert(views.take(views.len() as int) =~= views);
    }
    None
}

/// Whether the cluster is the cluster of the checkpoint `hash` of epoch
/// `epoch`.
fn is_cluster_of_checkpoint(cluster: &SyncCluster, epoch: usize, hash: &Blake2bHash) -> (yes:
    bool)
    ensures
        yes == is_checkpoint_cluster(cluster@, epoch as int, *hash),
{
    cluster.first_epoch_number == epoch && cluster.epoch_ids.len() == 1 && cluster.epoch_ids[0]
        == *hash
}

impl HistorySync {
    /// Walks over the clusters of epochs with the peer's ids. The clusters
    /// that are split off on the way are added to `new_clusters`. Returns the
    /// number of ids accounted for and the number of clusters joined.
    fn merge_into_pool(&mut self, epoch_ids: &EpochIds, new_clusters: &mut Vec<SyncCluster>) -> (done:
        (usize, u32))
        requires
            old(self)@.clusters_wf(),
            old(new_clusters)@.len() == 0,
            old(self).next_cluster_id + old(self).epoch_clusters@.len() <= u64::MAX,
        ensures
            ({
                let m = merge_all(
                    old(self)@.epoch_clusters,
                    epoch_ids@,
                    merge_start(old(self).next_cluster_id),
                );
                &&& final(self)@ == (SyncView {
                    epoch_clusters: m.clusters,
                    next_cluster_id: m.next_id,
                    ..old(self)@
                })
                &&& cluster_views(final(new_clusters)@) == m.new_clusters
                &&& done.0 == m.id_index
                &&& done.1 == m.num_clusters
                &&& m.next_id <= old(self).next_cluster_id + old(self).epoch_clusters@.len()
            }),
            done.0 <= epoch_ids@.ids.len(),
            forall|k: int|
                0 <= k < final(self).epoch_clusters@.len() ==> (
                #[trigger] final(self).epoch_clusters@[k]).wf(),
            forall|k: int|
                0 <= k < final(new_clusters)@.len() ==> (#[trigger] final(new_clusters)@[k]).wf(),
    {
        let ghost pool = self@.epoch_clusters;
        let ghost start = merge_start(self.next_cluster_id);
        let ghost e = epoch_ids@;
        let n = self.epoch_clusters.len();
        let num_ids = epoch_ids.ids.len();
        let mut id_index: usize = 0;
        let mut num_clusters: u32 = 0;
        let mut i: usize = 0;
        proof {
            assert forall|k: int| 0 <= k < n implies (#[trigger] self.epoch_clusters@[k]).wf() by {
                assert(pool[k].wf());
            }
            assert(pool.take(0) =~= Seq::<ClusterView>::empty());
            assert(cluster_views(self.epoch_clusters@).take(0) =~= start.clusters);
            assert(cluster_views(new_clusters@) =~= start.new_clusters);
        }
        while i < n
            invariant
                i <= n,
                n == self.epoch_clusters@.len(),
                n == pool.len(),
                pool == old(self)@.epoch_clusters,
                start == merge_start(old(self).next_cluster_id),
                e == epoch_ids@,
                self.checkpoint_clusters == old(self).checkpoint_clusters,
                self.active_cluster == old(self).active_cluster,
                self.job_queue == old(self).job_queue,
                self.peers == old(self).peers,
                forall|k: int| 0 <= k < n ==> (#[trigger] self.epoch_clusters@[k]).wf(),
                forall|k: int| i <= k < n ==> (#[trigger] self.epoch_clusters@[k])@ == pool[k],
                forall|k: int| 0 <= k < new_clusters@.len() ==> (#[trigger] new_clusters@[k]).wf(),
                num_ids == e.ids.len(),
                id_index <= num_ids,
                ({
                    let m = merge_all(pool.take(i as int), e, start);
                    &&& cluster_views(self.epoch_clusters@).take(i as int) == m.clusters
                    &&& cluster_views(new_clusters@) == m.new_clusters
                    &&& id_index == m.id_index
                    &&& num_clusters == m.num_clusters
                    &&& self.next_cluster_id == m.next_id
                    &&& m.next_id <= old(self).next_cluster_id + i
                }),
                old(self).next_cluster_id + n <= u64::MAX,
            ensures
                i <= n,
                i == n || id_index == e.ids.len(),
            decreases n - i,
        {
            let ghost m = merge_all(pool.take(i as int), e, start);
            let ghost before = self.epoch_clusters@;
            let ghost new_before = new_clusters@;
            let new_id = self.next_cluster_id;
            let (split, matched, joined) = merge_with_cluster(
                &mut self.epoch_clusters[i],
                epoch_ids,
                id_index,
                new_id,
            );
            let ghost step = merge_step(pool[i as int], e, m.id_index, m.next_id);
            match split {
                Some(tail) => {
                    new_clusters.push(tail);
                    self.next_cluster_id = self.next_cluster_id + 1;
                },
                None => {},
            }
            if joined {
                num_clusters = num_clusters.saturating_add(1);
            }
            id_index = id_index + matched;
            proof {
                assert(pool.take(i + 1).drop_last() =~= pool.take(i as int));
                assert(pool.take(i + 1).last() == pool[i as int]);
                let m1 = merge_all(pool.take(i + 1), e, start);
                assert(m1 == merge_one(m, pool[i as int], e));
                assert(cluster_views(self.epoch_clusters@).take(i + 1) =~= cluster_views(
                    before,
                ).take(i as int).push(step.cluster));
                assert(cluster_views(new_clusters@) =~= m1.new_clusters);
            }
            i += 1;
            if matched > 0 && id_index >= num_ids {
                break ;
            }
        }
        proof {
            let m = merge_all(pool.take(i as int), e, start);
            if i < n {
                lemma_merge_all_exhausted(pool, e, start, i as int);
            } else {
                assert(pool.take(i as int) =~= pool);
            }
            lemma_merge_all_len(pool.take(i as int), e, start);
            assert(cluster_views(self.epoch_clusters@) =~= m.clusters + pool.skip(i as int));
            assert(m.clusters + pool.skip(n as int) =~= m.clusters);
        }
        (id_index, num_clusters)
    }
}

impl HistorySync {
    /// Merges the ids of a peer, all of which lie beyond the head and beyond
    /// the queue, into the clusters.
    fn merge_epoch_ids(&mut self, epoch_ids: EpochIds)
        requires
            old(self)@.clusters_wf(),
            epoch_ids.wf(),
            old(self).next_cluster_id + old(self).epoch_clusters@.len() + 3 <= u64::MAX,
        ensures
            final(self)@ == merged(old(self)@, epoch_ids@),
    {
        broadcast use vstd::std_specs::hash::group_hash_axioms;

        let ghost s = self@;
        let ghost e = epoch_ids@;
        let ghost n = s.epoch_clusters.len() as int;
        let ghost pool = merge_all(s.epoch_clusters, e, merge_start(s.next_cluster_id));
        let mut epoch_ids = epoch_ids;
        let sender = epoch_ids.sender;
        let checkpoint_epoch = epoch_ids.get_checkpoint_epoch();
        let mut new_clusters: Vec<SyncCluster> = Vec::new();
        let (pool_index, pool_clusters) = self.merge_into_pool(&epoch_ids, &mut new_clusters);
        let mut id_index = pool_index;
        let mut num_clusters = pool_clusters;
        proof {
            lemma_merge_all_len(s.epoch_clusters, e, merge_start(s.next_cluster_id));
        }

        // The cluster that is being pulled comes after those of the pool.
        let new_id = self.next_cluster_id;
        let mut active_split: Option<SyncCluster> = None;
        match &mut self.active_cluster {
            Some(cluster) => {
                let (split, matched, joined) = merge_with_cluster(
                    cluster,
                    &epoch_ids,
                    id_index,
                    new_id,
                );
                active_split = split;
                if joined {
                    num_clusters = num_clusters.saturating_add(1);
                }
                id_index = id_index + matched;
            },
            None => {},
        }
        match active_split {
            Some(tail) => {
                new_clusters.push(tail);
                self.next_cluster_id = self.next_cluster_id + 1;
            },
            None => {},
        }
        let ghost all = match s.active_cluster {
            Some(c) => merge_one(pool, c, e),
            None => pool,
        };
        proof {
            assert(cluster_views(new_clusters@) =~= all.new_clusters);
            assert(id_index == all.id_index);
            assert(num_clusters == all.num_clusters);
            assert(self.next_cluster_id == all.next_id);
        }

        // What no cluster accounts for gets a cluster of its own.
        if id_index < epoch_ids.ids.len() {
            let first = epoch_ids.first_epoch_number + id_index;
            let tail_ids = epoch_ids.ids.split_off(id_index);
            let mut tail_peers: Vec<PeerId> = Vec::new();
            tail_peers.push(sender);
            proof {
                assert(tail_peers@ =~= seq![sender]);
                assert(tail_ids@ =~= e.ids.skip(id_index as int));
            }
            new_clusters.push(SyncCluster::new(self.next_cluster_id, tail_ids, first, tail_peers));
            self.next_cluster_id = self.next_cluster_id + 1;
        }
        let ghost m = merged_epochs(s, e);
        proof {
            assert(cluster_views(new_clusters@) =~= m.new_clusters);
            assert(num_clusters == m.num_clusters);
            assert(self.next_cluster_id == m.next_id);
            assert(self@.epoch_clusters =~= m.clusters.take(n));
            assert(self@.active_cluster == match s.active_cluster {
                Some(_) => Some(m.clusters.last()),
                None => None,
            });
            assert(self@.checkpoint_clusters == s.checkpoint_clusters);
            assert(forall|k: int|
                0 <= k < s.checkpoint_clusters.len() ==> (#[trigger] self.checkpoint_clusters@[k])@
                    == s.checkpoint_clusters[k]);
            assert forall|k: int| 0 <= k < self.checkpoint_clusters@.len() implies (
            #[trigger] self.checkpoint_clusters@[k]).wf() by {
                assert(s.checkpoint_clusters[k].wf());
            }
        }

        // The checkpoint joins the cluster of the same checkpoint, or gets one.
        match epoch_ids.checkpoint_id {
            Some(checkpoint_id) => {
                let ghost before = self.checkpoint_clusters@;
                match find_checkpoint_cluster(
                    &self.checkpoint_clusters,
                    checkpoint_epoch,
                    &checkpoint_id,
                ) {
                    Some(k) => {
                        self.checkpoint_clusters[k].add_peer(sender);
                        proof {
                            assert(cluster_views(self.checkpoint_clusters@) =~= cluster_views(
                                before,
                            ).update(k as int, before[k as int]@.add_peer(sender)));
                        }
                    },
                    None => {
                        let mut found = false;
                        match &mut self.active_cluster {
                            Some(cluster) => {
                                if is_cluster_of_checkpoint(
                                    cluster,
                                    checkpoint_epoch,
                                    &checkpoint_id,
                                ) {
                                    cluster.add_peer(sender);
                                    found = true;
                                }
                            },
                            None => {},
                        }
                        if !found {
                            let mut ids: Vec<Blake2bHash> = Vec::new();
                            ids.push(checkpoint_id);
                            let mut peers: Vec<PeerId> = Vec::new();
                            peers.push(sender);
                            proof {
                                assert(ids@ =~= seq![checkpoint_id]);
                                assert(peers@ =~= seq![sender]);
                            }
                            self.checkpoint_clusters.push(
                                SyncCluster::new(
                                    self.next_cluster_id,
                                    ids,
                                    checkpoint_epoch,
                                    peers,
                                ),
                            );
                            self.next_cluster_id = self.next_cluster_id + 1;
                            proof {
                                assert(cluster_views(self.checkpoint_clusters@) =~= cluster_views(
                                    before,
                                ).push(
                                    ClusterView::fresh(
                                        m.next_id,
                                        seq![checkpoint_id],
                                        checkpoint_epoch,
                                        seq![sender],
                                    ),
                                ));
                            }
                        }
                    },
                }
                num_clusters = num_clusters.saturating_add(1);
            },
            None => {},
        }

        // The bookkeeping: the peer's own clusters, then one more for every
        // peer of a new cluster.
        self.peers.insert(sender, num_clusters);
        bump_peers_of(&mut self.peers, &new_clusters);
        let ghost pool_before = self.epoch_clusters@;
        let ghost new_before = new_clusters@;
        self.epoch_clusters.append(&mut new_clusters);
        proof {
            assert(cluster_views(self.epoch_clusters@) =~= cluster_views(pool_before)
                + cluster_views(new_before));
            let t = merged(s, e);
            assert(self@.epoch_clusters == t.epoch_clusters);
            assert(self@.checkpoint_clusters == t.checkpoint_clusters);
            assert(self@.active_cluster == t.active_cluster);
            assert(self@.job_queue == t.job_queue);
            assert(self@.next_cluster_id == t.next_cluster_id);
            assert(self@.peers == t.peers);
        }
    }

    /// The peer joins the cluster that waits for its end at position `k` of
    /// the queue.
    fn join_finishing_cluster(&mut self, k: usize, peer: PeerId)
        requires
            old(self)@.clusters_wf(),
            k < old(self)@.job_queue.len(),
        ensures
            final(self)@ == (SyncView {
                job_queue: old(self)@.job_queue.update(
                    k as int,
                    match old(self)@.job_queue[k as int] {
                        JobView::FinishCluster(c, result) => JobView::FinishCluster(
                            c.add_peer(peer),
                            result,
                        ),
                        job => job,
                    },
                ),
                ..old(self)@
            }),
    {
        let ghost before = self.job_queue@;
        assert(self@.job_queue[k as int] == before[k as int]@);
        let job = self.job_queue.remove(k);
        match job {
            Some(Job::FinishCluster(cluster, result)) => {
                let mut cluster = cluster;
                cluster.add_peer(peer);
                self.job_queue.insert(k, Job::FinishCluster(cluster, result));
            },
            Some(job) => {
                self.job_queue.insert(k, job);
            },
            None => {},
        }
        proof {
            assert(job_views(self.job_queue@) =~= job_views(before).update(
                k as int,
                match job_views(before)[k as int] {
                    JobView::FinishCluster(c, result) => JobView::FinishCluster(
                        c.add_peer(peer),
                        result,
                    ),
                    job => job,
                },
            ));
        }
    }

    /// Takes in the ids that a peer offers while the node's election head is
    /// `head`. Returns the peer where it is to be given up for now.
    pub fn cluster_epoch_ids(&mut self, epoch_ids: EpochIds, head: &ElectionHead) -> (useless:
        Option<PeerId>)
        requires
            old(self).wf(),
            epoch_ids.wf(),
            old(self)@.has_id_headroom(),
        ensures
            (final(self)@, useless) == clustered(old(self)@, epoch_ids@, *head),
            final(self).wf(),
            old(self)@.counts_exact() && old(self)@.occurrences(epoch_ids.sender) == 0
                && final(self)@.num_live() <= u32::MAX ==> final(self)@.counts_exact(),
            old(self)@.counts_exact() && keeps_exact(old(self)@, epoch_ids@, *head)
                && final(self)@.num_live() <= u32::MAX ==> final(self)@.counts_exact(),
    {
        broadcast use vstd::std_specs::hash::group_hash_axioms;

        let ghost given = epoch_ids@;
        proof {
            lemma_clustered_wf(self@, given, *head);
            if self@.counts_exact() && clustered(self@, given, *head).0.num_live() <= u32::MAX {
                if self@.occurrences(given.sender) == 0 {
                    lemma_clustered_counts(self@, given, *head);
                }
                if keeps_exact(self@, given, *head) {
                    lemma_clustered_counts_rejoined(self@, given, *head);
                }
            }
        }
        let mut epoch_ids = epoch_ids;
        let sender = epoch_ids.sender;
        if !truncate_to_head(&mut epoch_ids, head) {
            return Some(sender);
        }
        let queued = self.match_job_queue(&epoch_ids);
        if queued.checkpoint || (queued.num_ids == epoch_ids.ids.len()
            && epoch_ids.checkpoint_id.is_none()) {
            match self.find_finishing_job(queued.next_job, queued.cluster_id) {
                Some(k) => {
                    let ghost s = self@;
                    self.join_finishing_cluster(k, sender);
                    let ghost joined = self@;
                    self.peers.insert(sender, 1);
                    proof {
                        let q = match_queue(all_ids(epoch_ids@), s.job_queue, 0, 0, 0);
                        assert(truncated_to_head(given, *head) == Some(epoch_ids@));
                        assert(q.matched > epoch_ids@.ids.len() || (q.matched
                            == epoch_ids@.ids.len() && epoch_ids@.checkpoint_id is None));
                        assert(finishing_job(s.job_queue, q.next_job, q.cluster_id) == Some(
                            k as nat,
                        ));
                        assert(self@ == SyncView { peers: s.peers.insert(sender, 1), ..joined });
                        assert(clustered(s, given, *head).0 == self@);
                    }
                    return None;
                },
                None => {
                    return Some(sender);
                },
            }
        }
        let ghost ahead = epoch_ids@;
        let rest = epoch_ids.ids.split_off(queued.num_ids);
        epoch_ids.ids = rest;
        epoch_ids.first_epoch_number = epoch_ids.first_epoch_number + queued.num_ids;
        proof {
            assert(epoch_ids.ids@ =~= ahead.ids.skip(queued.num_ids as int));
        }
        self.merge_epoch_ids(epoch_ids);
        None
    }
}

/// One cluster less in the bookkeeping for `peer`. Says whether the peer is
/// in no cluster any more, in which case it has left the bookkeeping.
fn release_peer(peers: &mut HashMap<PeerId, u32>, peer: PeerId) -> (last: bool)
    ensures
        final(peers)@ == released(old(peers)@, peer),
        last == (count_of(old(peers)@, peer) <= 1),
{
    broadcast use vstd::std_specs::hash::group_hash_axioms;

    let count = match peers.get(&peer) {
        Some(count) => *count,
        None => 0,
    };
    if count <= 1 {
        peers.remove(&peer);
        true
    } else {
        peers.insert(peer, count - 1);
        false
    }
}

impl HistorySync {
    /// Takes the best cluster out of `clusters` and trims it to the epochs
    /// after `current_epoch`.
    pub fn find_best_cluster(clusters: &mut Vec<SyncCluster>, current_epoch: usize) -> (best: Option<
        SyncCluster,
    >)
        requires
            forall|k: int|
                0 <= k < old(clusters)@.len() ==> (#[trigger] old(clusters)@[k]).wf() && old(
                    clusters,
                )@[k].num_epochs_finished == 0,
        ensures
            (cluster_views(final(clusters)@), option_view(best)) == best_taken(
                cluster_views(old(clusters)@),
                current_epoch,
            ),
            best matches Some(c) ==> c.wf(),
    {
        if clusters.is_empty() {
            proof {
                assert(cluster_views(clusters@) =~= Seq::empty());
            }
            return None;
        }
        let ghost views = cluster_views(clusters@);
        let mut best_idx: usize = 0;
        let mut i: usize = 1;
        proof {
            assert(views.take(1).len() == 1);
        }
        while i < clusters.len()
            invariant
                1 <= i <= clusters.len(),
                best_idx < i,
                views == cluster_views(clusters@),
                clusters@ == old(clusters)@,
                forall|k: int| 0 <= k < clusters@.len() ==> (#[trigger] clusters@[k]).wf(),
                best_idx == best_index(views.take(i as int)),
            decreases clusters.len() - i,
        {
            proof {
                assert(views.take(i + 1).drop_last() =~= views.take(i as int));
                assert(views.take(i + 1).last() == clusters@[i as int]@);
                assert(views.take(i + 1)[best_idx as int] == clusters@[best_idx as int]@);
            }
            if !clusters[best_idx].is_better_than(&clusters[i]) {
                best_idx = i;
            }
            i += 1;
        }
        proof {
            assert(views.take(views.len() as int) =~= views);
        }
        let ghost before = clusters@;
        let mut best = clusters.remove(best_idx);
        if best_idx > 0 {
            let front = clusters.remove(0);
            clusters.insert(best_idx - 1, front);
        }
        proof {
            assert(cluster_views(clusters@) =~= swap_removed(views, best_idx as int));
        }
        if best.first_epoch_number <= current_epoch {
            let stale = current_epoch - best.first_epoch_number;
            if stale < best.epoch_ids.len() {
                best.remove_front(stale + 1);
            } else {
                let all = best.epoch_ids.len();
                best.remove_front(all);
            }
        }
        Some(best)
    }

    /// Takes the cluster to pull next out of its pool: the best cluster of
    /// epochs, or, where none waits, the best cluster of a checkpoint.
    pub fn pop_next_cluster(&mut self, current_epoch: usize) -> (next: Option<SyncCluster>)
        requires
            old(self).wf(),
        ensures
            (final(self)@, option_view(next)) == popped(old(self)@, current_epoch),
            final(self).wf(),
            next matches Some(c) ==> c.wf(),
    {
        proof {
            let s = self@;
            lemma_popped_wf(s, current_epoch);
            assert forall|k: int| 0 <= k < self.epoch_clusters@.len() implies (
            #[trigger] self.epoch_clusters@[k]).wf() && self.epoch_clusters@[k].num_epochs_finished
                == 0 by {
                assert(s.epoch_clusters[k].wf());
            }
            assert forall|k: int| 0 <= k < self.checkpoint_clusters@.len() implies (
            #[trigger] self.checkpoint_clusters@[k]).wf()
                && self.checkpoint_clusters@[k].num_epochs_finished == 0 by {
                assert(s.checkpoint_clusters[k].wf());
            }
        }
        if !self.epoch_clusters.is_empty() {
            return Self::find_best_cluster(&mut self.epoch_clusters, current_epoch);
        }
        Self::find_best_cluster(&mut self.checkpoint_clusters, current_epoch)
    }

    /// Ends a cluster: each of its peers is in one cluster less. Returns the
    /// peers to probe again: those that are in no cluster any more, unless the
    /// cluster failed.
    pub fn finish_cluster(&mut self, cluster: SyncCluster, result: SyncClusterResult) -> (probe:
        Vec<PeerId>)
        ensures
            (final(self)@, probe@) == finished(old(self)@, cluster@, result),
            old(self).wf() ==> final(self).wf(),
            old(self).wf() && cluster.wf() && counts_exact_but(old(self)@, cluster@) ==> final(self)@.counts_exact(),
    {
        proof {
            if self.wf() {
                lemma_finished_wf(self@, cluster@, result);
                if cluster.wf() {
                    lemma_finished(self@, cluster@, result);
                }
            }
        }
        let mut probe: Vec<PeerId> = Vec::new();
        let ghost before = self.peers@;
        let mut i: usize = 0;
        while i < cluster.peers.len()
            invariant
                i <= cluster.peers.len(),
                self.epoch_clusters == old(self).epoch_clusters,
                self.checkpoint_clusters == old(self).checkpoint_clusters,
                self.active_cluster == old(self).active_cluster,
                self.job_queue == old(self).job_queue,
                self.next_cluster_id == old(self).next_cluster_id,
                before == old(self).peers@,
                self.peers@ == released_all(before, cluster.peers@.take(i as int)).0,
                probe@ == if result != SyncClusterResult::Error {
                    released_all(before, cluster.peers@.take(i as int)).1
                } else {
                    Seq::empty()
                },
            decreases cluster.peers.len() - i,
        {
            let peer = cluster.peers[i];
            proof {
                assert(cluster.peers@.take(i + 1).drop_last() =~= cluster.peers@.take(i as int));
            }
            let last = release_peer(&mut self.peers, peer);
            if last && result != SyncClusterResult::Error {
                probe.push(peer);
            }
            i += 1;
        }
        proof {
            assert(cluster.peers@.take(cluster.peers@.len() as int) =~= cluster.peers@);
        }
        probe
    }
}

} // verus!
