//! What clustering does to the sync state, as functions on the mathematical
//! content of the state: the reconciliation of one peer's epoch ids with the
//! node's head, with the queue of commits and with the clusters at hand.
use crate::cluster::{ClusterView, PeerId};
use crate::epoch_ids::{ElectionHead, EpochIdsView};
use crate::hash::Blake2bHash;
use crate::sync::{bumped_for, saturating_inc, JobView, SyncView};
use vstd::prelude::*;

verus! {

/// The ids that lie after the node's election head, or `None` where the peer
/// has nothing beyond the head or disagrees with the node about the head.
pub open spec fn truncated_to_head(e: EpochIdsView, head: ElectionHead) -> Option<EpochIdsView> {
    let our_epoch = head.epoch_number as int;
    if e.ids.len() > 0 && e.first_epoch_number <= our_epoch {
        let at = our_epoch - e.first_epoch_number;
        if at >= e.ids.len() {
            None
        } else if e.ids[at] != head.hash {
            None
        } else {
            Some(
                EpochIdsView {
                    ids: e.ids.skip(at + 1),
                    first_epoch_number: (our_epoch + 1) as usize,
                    ..e
                },
            )
        }
    } else {
        Some(e)
    }
}

/// The ids of the peer with its checkpoint, if it sent one, at the end.
pub open spec fn all_ids(e: EpochIdsView) -> Seq<Blake2bHash> {
    match e.checkpoint_id {
        Some(checkpoint) => e.ids.push(checkpoint),
        None => e.ids,
    }
}

/// How far a walk along the ids and the queue got.
pub struct QueueMatch {
    /// The number of ids found in the queue.
    pub matched: nat,
    /// The cluster of the commit that matched last.
    pub cluster_id: u64,
    /// The position in the queue after the commit that matched last.
    pub next_job: nat,
}

/// Walks along `ids` from `i` and along `jobs` from `j` at once: each id is
/// looked for among the commits that follow the commit of the id before it.
/// The walk ends when the ids or the jobs run out.
pub open spec fn match_queue(
    ids: Seq<Blake2bHash>,
    jobs: Seq<JobView>,
    i: nat,
    j: nat,
    cluster_id: u64,
) -> QueueMatch
    decreases jobs.len() - j,
{
    if i >= ids.len() || j >= jobs.len() {
        QueueMatch { matched: i, cluster_id, next_job: j }
    } else {
        match jobs[j as int] {
            JobView::PushBatchSet(id, hash, _) => if hash == ids[i as int] {
                match_queue(ids, jobs, i + 1, j + 1, id)
            } else {
                match_queue(ids, jobs, i, j + 1, cluster_id)
            },
            JobView::FinishCluster(_, _) => match_queue(ids, jobs, i, j + 1, cluster_id),
        }
    }
}

/// The position of the first job at or after `from` that ends the cluster
/// `cluster_id`.
pub open spec fn finishing_job(jobs: Seq<JobView>, from: nat, cluster_id: u64) -> Option<nat>
    decreases jobs.len() - from,
{
    if from >= jobs.len() {
        None
    } else if jobs[from as int] matches JobView::FinishCluster(c, _) && c.id == cluster_id {
        Some(from)
    } else {
        finishing_job(jobs, from + 1, cluster_id)
    }
}

/// The length of the longest common prefix of `a` and `b`.
pub open spec fn common_prefix(a: Seq<Blake2bHash>, b: Seq<Blake2bHash>) -> nat
    decreases a.len(),
{
    if a.len() == 0 || b.len() == 0 || a[0] != b[0] {
        0
    } else {
        1 + common_prefix(a.skip(1), b.skip(1))
    }
}

/// What the ids of a peer do to one cluster.
pub struct MergeStep {
    /// The cluster afterwards.
    pub cluster: ClusterView,
    /// What was split off it.
    pub split: Option<ClusterView>,
    /// The number of ids that the cluster accounts for.
    pub matched: nat,
    /// Whether the peer joined the cluster.
    pub joined: bool,
}

/// Holds the ids of `e` from `id_index` on against the cluster `c`. Where the
/// cluster covers the peer's first epoch and agrees with the ids for a while,
/// the peer joins it, after the part of the cluster that disagrees or goes
/// further was split off under the id `new_id`. Where the cluster has
/// delivered epochs beyond the place of the split, it stays as it is, and the
/// ids that agree count as seen.
pub open spec fn merge_step(c: ClusterView, e: EpochIdsView, id_index: nat, new_id: u64) -> MergeStep {
    let untouched = MergeStep { cluster: c, split: None, matched: 0, joined: false };
    if c.first_epoch_number <= e.first_epoch_number && e.first_epoch_number < c.end_epoch() {
        let offset = e.first_epoch_number - c.first_epoch_number;
        let matched = common_prefix(c.epoch_ids.skip(offset), e.ids.skip(id_index as int));
        if matched == 0 {
            untouched
        } else if matched < c.epoch_ids.len() - offset {
            let at = offset + matched;
            if c.num_epochs_finished > at {
                MergeStep { cluster: c, split: None, matched, joined: false }
            } else {
                MergeStep {
                    cluster: c.split_head(at).add_peer(e.sender),
                    split: Some(c.split_tail(at, new_id)),
                    matched,
                    joined: true,
                }
            }
        } else {
            MergeStep { cluster: c.add_peer(e.sender), split: None, matched, joined: true }
        }
    } else {
        untouched
    }
}

/// The state of a walk over clusters with the ids of one peer.
pub struct Merge {
    /// The clusters walked over, as they are afterwards.
    pub clusters: Seq<ClusterView>,
    /// The clusters made on the way.
    pub new_clusters: Seq<ClusterView>,
    /// The number of ids accounted for.
    pub id_index: nat,
    /// The number of clusters that the peer joined.
    pub num_clusters: u32,
    /// The id that the next new cluster gets.
    pub next_id: u64,
}

/// The state in which a walk over clusters begins.
pub open spec fn merge_start(next_id: u64) -> Merge {
    Merge {
        clusters: Seq::empty(),
        new_clusters: Seq::empty(),
        id_index: 0,
        num_clusters: 0,
        next_id,
    }
}

/// The walk one cluster further.
pub open spec fn merge_one(m: Merge, c: ClusterView, e: EpochIdsView) -> Merge {
    let step = merge_step(c, e, m.id_index, m.next_id);
    Merge {
        clusters: m.clusters.push(step.cluster),
        new_clusters: match step.split {
            Some(tail) => m.new_clusters.push(tail),
            None => m.new_clusters,
        },
        id_index: m.id_index + step.matched,
        num_clusters: if step.joined {
            saturating_inc(m.num_clusters)
        } else {
            m.num_clusters
        },
        next_id: if step.split is Some {
            (m.next_id + 1) as u64
        } else {
            m.next_id
        },
    }
}

/// The walk over `clusters`, front to back, from the state `start`.
pub open spec fn merge_all(clusters: Seq<ClusterView>, e: EpochIdsView, start: Merge) -> Merge
    decreases clusters.len(),
{
    if clusters.len() == 0 {
        start
    } else {
        merge_one(merge_all(clusters.drop_last(), e, start), clusters.last(), e)
    }
}

/// The cluster is the cluster of the checkpoint `hash` of epoch `epoch`.
pub open spec fn is_checkpoint_cluster(c: ClusterView, epoch: int, hash: Blake2bHash) -> bool {
    c.first_epoch_number == epoch && c.epoch_ids.len() == 1 && c.epoch_ids[0] == hash
}

/// The position of the first of `clusters` that is the cluster of the
/// checkpoint `hash` of epoch `epoch`.
pub open spec fn checkpoint_cluster(clusters: Seq<ClusterView>, epoch: int, hash: Blake2bHash) -> Option<
    int,
>
    decreases clusters.len(),
{
    if clusters.len() == 0 {
        None
    } else {
        match checkpoint_cluster(clusters.drop_last(), epoch, hash) {
            Some(k) => Some(k),
            None => if is_checkpoint_cluster(clusters.last(), epoch, hash) {
                Some(clusters.len() - 1)
            } else {
                None
            },
        }
    }
}

/// The walk over the clusters of epochs and then over the cluster that is
/// being pulled, and a new cluster for the ids that no cluster accounts for.
pub open spec fn merged_epochs(s: SyncView, e: EpochIdsView) -> Merge {
    let start = Merge {
        clusters: Seq::empty(),
        new_clusters: Seq::empty(),
        id_index: 0,
        num_clusters: 0,
        next_id: s.next_cluster_id,
    };
    let pool = merge_all(s.epoch_clusters, e, start);
    let all = match s.active_cluster {
        Some(c) => merge_one(pool, c, e),
        None => pool,
    };
    if all.id_index < e.ids.len() {
        Merge {
            new_clusters: all.new_clusters.push(
                ClusterView::fresh(
                    all.next_id,
                    e.ids.skip(all.id_index as int),
                    (e.first_epoch_number + all.id_index) as usize,
                    seq![e.sender],
                ),
            ),
            next_id: (all.next_id + 1) as u64,
            ..all
        }
    } else {
        all
    }
}

/// The state after the peer's ids, all of which lie beyond the head and
/// beyond the queue, were merged into the clusters: the peer has joined the
/// clusters that agree with its ids, clusters were split where it stops
/// agreeing, the rest of its ids and its checkpoint have clusters of their
/// own where none was there, and the bookkeeping counts the peer's clusters
/// and one more for every peer of a new cluster.
pub open spec fn merged(s: SyncView, e: EpochIdsView) -> SyncView {
    let m = merged_epochs(s, e);
    let pool = m.clusters.take(s.epoch_clusters.len() as int);
    let active = match s.active_cluster {
        Some(_) => Some(m.clusters.last()),
        None => None,
    };
    let placed = match e.checkpoint_id {
        None => SyncView {
            epoch_clusters: pool,
            active_cluster: active,
            peers: s.peers.insert(e.sender, m.num_clusters),
            next_cluster_id: m.next_id,
            ..s
        },
        Some(hash) => {
            let epoch = e.checkpoint_epoch();
            let count = saturating_inc(m.num_clusters);
            match checkpoint_cluster(s.checkpoint_clusters, epoch, hash) {
                Some(k) => SyncView {
                    epoch_clusters: pool,
                    checkpoint_clusters: s.checkpoint_clusters.update(
                        k,
                        s.checkpoint_clusters[k].add_peer(e.sender),
                    ),
                    active_cluster: active,
                    peers: s.peers.insert(e.sender, count),
                    next_cluster_id: m.next_id,
                    ..s
                },
                None => if active is Some && is_checkpoint_cluster(active.unwrap(), epoch, hash) {
                    SyncView {
                        epoch_clusters: pool,
                        active_cluster: Some(active.unwrap().add_peer(e.sender)),
                        peers: s.peers.insert(e.sender, count),
                        next_cluster_id: m.next_id,
                        ..s
                    }
                } else {
                    SyncView {
                        epoch_clusters: pool,
                        checkpoint_clusters: s.checkpoint_clusters.push(
                            ClusterView::fresh(m.next_id, seq![hash], epoch as usize, seq![e.sender]),
                        ),
                        active_cluster: active,
                        peers: s.peers.insert(e.sender, count),
                        next_cluster_id: (m.next_id + 1) as u64,
                        ..s
                    }
                },
            }
        },
    };
    SyncView {
        epoch_clusters: placed.epoch_clusters + m.new_clusters,
        peers: bumped_for(placed.peers, m.new_clusters),
        ..placed
    }
}

/// What clustering makes of the ids `e` of a peer while the node's election
/// head is `head`: the state afterwards, and the peer where it is to be given
/// up for now: because it has nothing beyond the head, because it disagrees
/// with the node about the head, or because all that it has is in the queue
/// already and belongs to the cluster that is still being pulled. Where all
/// that it has is in the queue and belongs to a cluster that waits for its
/// end, the peer joins that cluster.
pub open spec fn clustered(s: SyncView, e: EpochIdsView, head: ElectionHead) -> (
    SyncView,
    Option<PeerId>,
) {
    match truncated_to_head(e, head) {
        None => (s, Some(e.sender)),
        Some(ahead) => {
            let queued = match_queue(all_ids(ahead), s.job_queue, 0, 0, 0);
            if queued.matched > ahead.ids.len() || (queued.matched == ahead.ids.len()
                && ahead.checkpoint_id is None) {
                match finishing_job(s.job_queue, queued.next_job, queued.cluster_id) {
                    Some(k) => (
                        SyncView {
                            job_queue: s.job_queue.update(
                                k as int,
                                match s.job_queue[k as int] {
                                    JobView::FinishCluster(c, result) => JobView::FinishCluster(
                                        c.add_peer(e.sender),
                                        result,
                                    ),
                                    job => job,
                                },
                            ),
                            peers: s.peers.insert(e.sender, 1),
                            ..s
                        },
                        None,
                    ),
                    None => (s, Some(e.sender)),
                }
            } else {
                (
                    merged(
                        s,
                        EpochIdsView {
                            ids: ahead.ids.skip(queued.matched as int),
                            first_epoch_number: (ahead.first_epoch_number + queued.matched) as usize,
                            ..ahead
                        },
                    ),
                    None,
                )
            }
        },
    }
}

} // verus!
