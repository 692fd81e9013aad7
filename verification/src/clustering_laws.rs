//! What holds of clustering: the shape of the clusters is kept, ids stay
//! unique, and the bookkeeping stays exact.
use crate::cluster::{
    lemma_add_peer, lemma_fresh_single, lemma_split_preserves_history, ClusterView, PeerId,
};
use crate::clustering_model::{
    all_ids, checkpoint_cluster, clustered, common_prefix, finishing_job, is_checkpoint_cluster,
    match_queue, merge_all, merge_one, merge_start, merge_step, merged, merged_epochs,
    truncated_to_head, Merge, MergeStep,
};
use crate::counting::{
    job_counts, lemma_bumped_for, lemma_count_add, lemma_count_bounds, lemma_count_pointwise,
    lemma_count_push, lemma_count_update, lemma_finishing_bounds, lemma_finishing_pointwise,
    lemma_finishing_update, lemma_occurrences_bounded, raised,
};
use crate::epoch_ids::{ElectionHead, EpochIdsView};
use crate::hash::Blake2bHash;
use crate::sync::{
    bumped, bumped_all, bumped_for, count_active, count_clusters, count_finishing, count_of,
    has_id, holds_peer, saturating_inc, JobView, SyncView,
};
use vstd::prelude::*;

verus! {

/// A common prefix is no longer than either sequence, the sequences agree
/// along it, and they differ right after it where both go on.
pub proof fn lemma_common_prefix(a: Seq<Blake2bHash>, b: Seq<Blake2bHash>)
    ensures
        common_prefix(a, b) <= a.len(),
        common_prefix(a, b) <= b.len(),
        forall|k: int| 0 <= k < common_prefix(a, b) ==> a[k] == b[k],
        common_prefix(a, b) < a.len() && common_prefix(a, b) < b.len() ==> a[common_prefix(
            a,
            b,
        ) as int] != b[common_prefix(a, b) as int],
    decreases a.len(),
{
    if a.len() == 0 || b.len() == 0 || a[0] != b[0] {
    } else {
        lemma_common_prefix(a.skip(1), b.skip(1));
        let n = common_prefix(a.skip(1), b.skip(1));
        assert forall|k: int| 0 <= k < n + 1 implies a[k] == b[k] by {
            if k > 0 {
                assert(a.skip(1)[k - 1] == b.skip(1)[k - 1]);
            }
        }
        if n + 1 < a.len() && n + 1 < b.len() {
            assert(a.skip(1)[n as int] != b.skip(1)[n as int]);
        }
    }
}

/// What one step of a walk keeps of a cluster.
pub open spec fn step_keeps(c: ClusterView, after: ClusterView, sender: PeerId) -> bool {
    &&& after.wf()
    &&& after.id == c.id
    &&& after.first_epoch_number == c.first_epoch_number
    &&& after.num_epochs_finished == c.num_epochs_finished
    &&& after.epoch_ids.len() <= c.epoch_ids.len()
    &&& c.epoch_ids.len() > 0 ==> after.epoch_ids.len() > 0
    &&& after.epoch_ids == c.epoch_ids.take(after.epoch_ids.len() as int)
    &&& forall|p: PeerId| p != sender ==> (after.peers.contains(p) <==> c.peers.contains(p))
}

/// One step of a walk keeps the cluster well formed, with its id, its first
/// epoch and what it has delivered, and with the peers it had; what is split
/// off is a well-formed cluster of which nothing is delivered, under the new
/// id.
pub proof fn lemma_merge_step(c: ClusterView, e: EpochIdsView, id_index: nat, new_id: u64)
    requires
        c.wf(),
        id_index <= e.ids.len(),
    ensures
        ({
            let step = merge_step(c, e, id_index, new_id);
            &&& step_keeps(c, step.cluster, e.sender)
            &&& id_index + step.matched <= e.ids.len()
            &&& step.joined ==> step.cluster.peers.contains(e.sender)
            &&& step.joined ==> c.first_epoch_number <= e.first_epoch_number && step.matched > 0
            &&& !step.joined ==> step.cluster == c
            &&& step.split matches Some(tail) ==> {
                &&& tail.wf()
                &&& tail.num_epochs_finished == 0
                &&& tail.id == new_id
                &&& tail.peers == c.peers
                &&& step.joined
                &&& tail.epoch_ids.len() > 0
                &&& step.cluster.epoch_ids.len() > 0
                &&& step.cluster.epoch_ids + tail.epoch_ids == c.epoch_ids
                &&& tail.first_epoch_number == step.cluster.end_epoch()
            }
            &&& step.split is None ==> step.cluster.epoch_ids == c.epoch_ids
        }),
{
    let step = merge_step(c, e, id_index, new_id);
    assert(c.epoch_ids.take(c.epoch_ids.len() as int) =~= c.epoch_ids);
    if c.first_epoch_number <= e.first_epoch_number && e.first_epoch_number < c.end_epoch() {
        let offset = e.first_epoch_number - c.first_epoch_number;
        lemma_common_prefix(c.epoch_ids.skip(offset), e.ids.skip(id_index as int));
        let matched = common_prefix(c.epoch_ids.skip(offset), e.ids.skip(id_index as int));
        if matched == 0 {
        } else if matched < c.epoch_ids.len() - offset {
            let at = offset + matched;
            if c.num_epochs_finished > at {
            } else {
                lemma_split_preserves_history(c, at, new_id);
                lemma_add_peer(c.split_head(at), e.sender);
                assert(c.split_head(at).add_peer(e.sender).epoch_ids == c.epoch_ids.take(at));
            }
        } else {
            lemma_add_peer(c, e.sender);
        }
    }
}

/// What a walk from the beginning keeps of the clusters it is given.
pub open spec fn walk_keeps(clusters: Seq<ClusterView>, e: EpochIdsView, next: u64, m: Merge) -> bool {
    &&& m.clusters.len() == clusters.len()
    &&& m.id_index <= e.ids.len()
    &&& m.new_clusters.len() <= clusters.len()
    &&& m.next_id == next + m.new_clusters.len()
    &&& forall|k: int|
        0 <= k < clusters.len() ==> step_keeps(clusters[k], #[trigger] m.clusters[k], e.sender)
    &&& forall|j: int|
        0 <= j < m.new_clusters.len() ==> {
            &&& (#[trigger] m.new_clusters[j]).wf()
            &&& m.new_clusters[j].num_epochs_finished == 0
            &&& m.new_clusters[j].id == next + j
            &&& m.new_clusters[j].epoch_ids.len() > 0
        }
}

/// A walk keeps every cluster well formed, with its id, its first epoch, what
/// it has delivered and the peers it had. The clusters it makes are well
/// formed, have delivered nothing, and have the ids from `next` on, one after
/// the other.
pub proof fn lemma_walk_keeps(clusters: Seq<ClusterView>, e: EpochIdsView, next: u64)
    requires
        forall|k: int| 0 <= k < clusters.len() ==> (#[trigger] clusters[k]).wf(),
        next + clusters.len() <= u64::MAX,
    ensures
        walk_keeps(clusters, e, next, merge_all(clusters, e, merge_start(next))),
    decreases clusters.len(),
{
    let m = merge_all(clusters, e, merge_start(next));
    if clusters.len() > 0 {
        let rest = clusters.drop_last();
        let before = merge_all(rest, e, merge_start(next));
        assert forall|k: int| 0 <= k < rest.len() implies (#[trigger] rest[k]).wf() by {
            assert(rest[k] == clusters[k]);
        }
        lemma_walk_keeps(rest, e, next);
        lemma_merge_step(clusters.last(), e, before.id_index, before.next_id);
        assert forall|k: int| 0 <= k < clusters.len() implies step_keeps(
            clusters[k],
            #[trigger] m.clusters[k],
            e.sender,
        ) by {
            if k < rest.len() {
                assert(m.clusters[k] == before.clusters[k]);
                assert(rest[k] == clusters[k]);
            }
        }
        assert forall|j: int| 0 <= j < m.new_clusters.len() implies {
            &&& (#[trigger] m.new_clusters[j]).wf()
            &&& m.new_clusters[j].num_epochs_finished == 0
            &&& m.new_clusters[j].id == next + j
            &&& m.new_clusters[j].epoch_ids.len() > 0
        } by {
            if j < before.new_clusters.len() {
                assert(m.new_clusters[j] == before.new_clusters[j]);
            }
        }
    }
}

/// The clusters that the walk of `merged_epochs` goes over: those of the pool
/// and then the one that is being pulled.
pub open spec fn walked(s: SyncView) -> Seq<ClusterView> {
    match s.active_cluster {
        Some(c) => s.epoch_clusters.push(c),
        None => s.epoch_clusters,
    }
}

/// The walk of `merged_epochs` is one walk over the pool and the cluster that
/// is being pulled, and keeps them as every walk does; the cluster for the
/// rest of the ids, if there is one, is well formed and comes last.
pub proof fn lemma_merged_epochs(s: SyncView, e: EpochIdsView)
    requires
        s.clusters_wf(),
        e.wf(),
        s.has_id_headroom(),
    ensures
        ({
            let m = merged_epochs(s, e);
            let all = merge_all(walked(s), e, merge_start(s.next_cluster_id));
            &&& walk_keeps(walked(s), e, s.next_cluster_id, all)
            &&& m.clusters == all.clusters
            &&& m.num_clusters == all.num_clusters
            &&& m.id_index == all.id_index
            &&& m.clusters.len() == walked(s).len()
            &&& m.next_id == s.next_cluster_id + m.new_clusters.len()
            &&& m.new_clusters.len() <= s.epoch_clusters.len() + 2
            &&& forall|j: int|
                0 <= j < m.new_clusters.len() ==> {
                    &&& (#[trigger] m.new_clusters[j]).wf()
                    &&& m.new_clusters[j].num_epochs_finished == 0
                    &&& m.new_clusters[j].id == s.next_cluster_id + j
                    &&& m.new_clusters[j].epoch_ids.len() > 0
                }
            &&& if all.id_index < e.ids.len() {
                m.new_clusters == all.new_clusters.push(
                    ClusterView::fresh(
                        all.next_id,
                        e.ids.skip(all.id_index as int),
                        (e.first_epoch_number + all.id_index) as usize,
                        seq![e.sender],
                    ),
                )
            } else {
                m.new_clusters == all.new_clusters
            }
        }),
{
    let next = s.next_cluster_id;
    let cs = walked(s);
    let m = merged_epochs(s, e);
    let all = merge_all(cs, e, merge_start(next));
    assert forall|k: int| 0 <= k < cs.len() implies (#[trigger] cs[k]).wf() by {
        if k < s.epoch_clusters.len() {
            assert(s.epoch_clusters[k].wf());
        }
    }
    if s.active_cluster is Some {
        assert(cs.drop_last() =~= s.epoch_clusters);
    }
    lemma_walk_keeps(cs, e, next);
    if all.id_index < e.ids.len() {
        lemma_fresh_single(
            all.next_id,
            e.ids.skip(all.id_index as int),
            (e.first_epoch_number + all.id_index) as usize,
            e.sender,
        );
    }
    assert forall|j: int| 0 <= j < m.new_clusters.len() implies {
        &&& (#[trigger] m.new_clusters[j]).wf()
        &&& m.new_clusters[j].num_epochs_finished == 0
        &&& m.new_clusters[j].id == next + j
        &&& m.new_clusters[j].epoch_ids.len() > 0
    } by {
        if j < all.new_clusters.len() {
            assert(m.new_clusters[j] == all.new_clusters[j]);
        }
    }
}

/// Clusters whose ids count up from `next` hold each of those ids once and no
/// other id.
pub proof fn lemma_count_sequential_ids(clusters: Seq<ClusterView>, next: int, id: u64)
    requires
        forall|j: int| 0 <= j < clusters.len() ==> (#[trigger] clusters[j]).id == next + j,
    ensures
        count_clusters(clusters, has_id(id)) == if next <= id < next + clusters.len() {
            1nat
        } else {
            0nat
        },
    decreases clusters.len(),
{
    if clusters.len() > 0 {
        let rest = clusters.drop_last();
        assert forall|j: int| 0 <= j < rest.len() implies (#[trigger] rest[j]).id == next + j by {
            assert(rest[j] == clusters[j]);
        }
        lemma_count_sequential_ids(rest, next, id);
        assert(clusters.last() == clusters[clusters.len() - 1]);
    }
}

/// Clusters whose ids are all below `next` hold no id from `next` on.
pub proof fn lemma_count_old_ids(clusters: Seq<ClusterView>, next: u64, id: u64)
    requires
        forall|k: int| 0 <= k < clusters.len() ==> (#[trigger] clusters[k]).id < next,
        id >= next,
    ensures
        count_clusters(clusters, has_id(id)) == 0,
{
    lemma_count_bounds(clusters, has_id(id));
}

/// A queue whose jobs all belong to clusters below `next` ends no cluster
/// with an id from `next` on.
pub proof fn lemma_finishing_old_ids(jobs: Seq<JobView>, next: u64, id: u64)
    requires
        forall|k: int| 0 <= k < jobs.len() ==> (#[trigger] jobs[k]).cluster_id() < next,
        id >= next,
    ensures
        count_finishing(jobs, has_id(id)) == 0,
{
    lemma_finishing_bounds(jobs, has_id(id));
    assert forall|k: int| 0 <= k < jobs.len() implies job_counts(#[trigger] jobs[k], has_id(id))
        == 0 by {
        assert(jobs[k].cluster_id() < next);
    }
}

/// Merging keeps the state well formed: every cluster stays well formed, the
/// clusters of the pools have delivered nothing, ids stay unique and below
/// the next id, and the queue stays in order.
pub proof fn lemma_merged_wf(s: SyncView, e: EpochIdsView)
    requires
        s.wf(),
        e.wf(),
        s.has_id_headroom(),
    ensures
        merged(s, e).wf(),
        merged(s, e).job_queue == s.job_queue,
        merged(s, e).next_cluster_id >= s.next_cluster_id,
        merged(s, e).next_cluster_id <= s.next_cluster_id + s.epoch_clusters.len() + 3,
{
    let t = merged(s, e);
    let m = merged_epochs(s, e);
    let next = s.next_cluster_id;
    let n = s.epoch_clusters.len() as int;
    let cs = walked(s);
    lemma_merged_epochs(s, e);
    let pool = m.clusters.take(n);
    assert forall|k: int| 0 <= k < n implies step_keeps(
        s.epoch_clusters[k],
        #[trigger] pool[k],
        e.sender,
    ) by {
        assert(pool[k] == m.clusters[k]);
        assert(cs[k] == s.epoch_clusters[k]);
    }
    let active = match s.active_cluster {
        Some(_) => Some(m.clusters.last()),
        None => None,
    };
    if s.active_cluster is Some {
        assert(m.clusters.last() == m.clusters[n]);
        assert(cs[n] == s.active_cluster.unwrap());
        assert(step_keeps(s.active_cluster.unwrap(), m.clusters[n], e.sender));
    }
    // The checkpoint.
    if e.checkpoint_id is Some {
        let hash = e.checkpoint_id.unwrap();
        let epoch = e.checkpoint_epoch();
        lemma_fresh_single(m.next_id, seq![hash], epoch as usize, e.sender);
        match checkpoint_cluster(s.checkpoint_clusters, epoch, hash) {
            Some(k) => {
                lemma_checkpoint_cluster_found(s.checkpoint_clusters, epoch, hash);
                lemma_add_peer(s.checkpoint_clusters[k], e.sender);
            },
            None => {
                if active is Some {
                    lemma_add_peer(active.unwrap(), e.sender);
                }
            },
        }
    }
    // Every cluster is well formed.
    assert(t.epoch_clusters == pool + m.new_clusters);
    assert forall|i: int| 0 <= i < t.epoch_clusters.len() implies (#[trigger] t.epoch_clusters[i]).wf()
        && t.epoch_clusters[i].num_epochs_finished == 0 && t.epoch_clusters[i].epoch_ids.len() > 0
        && t.epoch_clusters[i].id < t.next_cluster_id by {
        if i < n {
            assert(t.epoch_clusters[i] == pool[i]);
            assert(s.epoch_clusters[i].wf());
            assert(s.epoch_clusters[i].id < next);
        } else {
            assert(t.epoch_clusters[i] == m.new_clusters[i - n]);
        }
    }
    assert forall|i: int| 0 <= i < t.checkpoint_clusters.len() implies (
    #[trigger] t.checkpoint_clusters[i]).wf() && t.checkpoint_clusters[i].num_epochs_finished == 0
        && t.checkpoint_clusters[i].epoch_ids.len() == 1 && t.checkpoint_clusters[i].id
        < t.next_cluster_id by {
        if i < s.checkpoint_clusters.len() {
            assert(s.checkpoint_clusters[i].wf());
            assert(s.checkpoint_clusters[i].id < next);
        }
    }
    assert(t.job_queue == s.job_queue);
    assert forall|i: int| 0 <= i < t.job_queue.len() implies (
    #[trigger] t.job_queue[i] matches JobView::FinishCluster(c, _) ==> c.wf()) by {
        assert(s.job_queue[i] matches JobView::FinishCluster(c, _) ==> c.wf());
    }
    assert(t.clusters_wf());
    assert forall|i: int| 0 <= i < t.job_queue.len() implies (#[trigger] t.job_queue[i]).cluster_id()
        < t.next_cluster_id by {
        assert(s.job_queue[i].cluster_id() < next);
    }
    assert(t.ids_below_next());
    // The queue.
    assert forall|i: int| 0 <= i < t.job_queue.len() implies #[trigger] t.job_in_order(i) by {
        assert(s.job_in_order(i));
        assert(s.job_queue[i] == t.job_queue[i]);
    }
    assert(t.queue_ordered());
    // The ids.
    assert forall|id: u64| #[trigger] t.count_live(has_id(id)) <= 1 by {
        lemma_merged_ids(s, e, id);
    }
}

/// The first cluster of a checkpoint, where there is one, is a cluster of
/// that checkpoint.
pub proof fn lemma_checkpoint_cluster_found(clusters: Seq<ClusterView>, epoch: int, hash: Blake2bHash)
    ensures
        match checkpoint_cluster(clusters, epoch, hash) {
            Some(k) => 0 <= k < clusters.len() && is_checkpoint_cluster(clusters[k], epoch, hash),
            None => forall|k: int|
                0 <= k < clusters.len() ==> !is_checkpoint_cluster(
                    #[trigger] clusters[k],
                    epoch,
                    hash,
                ),
        },
    decreases clusters.len(),
{
    if clusters.len() > 0 {
        lemma_checkpoint_cluster_found(clusters.drop_last(), epoch, hash);
        if checkpoint_cluster(clusters, epoch, hash) is None {
            assert forall|k: int| 0 <= k < clusters.len() implies !is_checkpoint_cluster(
                #[trigger] clusters[k],
                epoch,
                hash,
            ) by {
                if k < clusters.len() - 1 {
                    assert(clusters.drop_last()[k] == clusters[k]);
                }
            }
        }
    }
}

/// After merging, no id is held by more live clusters than one.
pub proof fn lemma_merged_ids(s: SyncView, e: EpochIdsView, id: u64)
    requires
        s.wf(),
        e.wf(),
        s.has_id_headroom(),
    ensures
        merged(s, e).count_live(has_id(id)) <= 1,
{
    let t = merged(s, e);
    let m = merged_epochs(s, e);
    let next = s.next_cluster_id;
    let n = s.epoch_clusters.len() as int;
    let cs = walked(s);
    let pred = has_id(id);
    lemma_merged_epochs(s, e);
    let pool = m.clusters.take(n);
    assert forall|k: int| 0 <= k < n implies pred(#[trigger] pool[k]) == pred(s.epoch_clusters[k]) by {
        assert(pool[k] == m.clusters[k]);
        assert(cs[k] == s.epoch_clusters[k]);
        assert(step_keeps(cs[k], m.clusters[k], e.sender));
    }
    lemma_count_pointwise(pool, pred, s.epoch_clusters, pred);
    lemma_count_add(pool, m.new_clusters, pred);
    lemma_count_sequential_ids(m.new_clusters, next as int, id);
    assert(t.epoch_clusters == pool + m.new_clusters);
    if s.active_cluster is Some {
        assert(m.clusters.last() == m.clusters[n]);
        assert(cs[n] == s.active_cluster.unwrap());
        assert(step_keeps(cs[n], m.clusters[n], e.sender));
    }
    assert(count_active(t.active_cluster, pred) == count_active(s.active_cluster, pred));
    assert(t.job_queue == s.job_queue);
    // The pool of checkpoints holds what it held, and the new cluster if one
    // was made.
    let made: nat = if t.checkpoint_clusters.len() > s.checkpoint_clusters.len() && m.next_id
        == id {
        1
    } else {
        0
    };
    if e.checkpoint_id is Some {
        let hash = e.checkpoint_id.unwrap();
        let epoch = e.checkpoint_epoch();
        lemma_fresh_single(m.next_id, seq![hash], epoch as usize, e.sender);
        match checkpoint_cluster(s.checkpoint_clusters, epoch, hash) {
            Some(k) => {
                lemma_checkpoint_cluster_found(s.checkpoint_clusters, epoch, hash);
                lemma_count_update(
                    s.checkpoint_clusters,
                    k,
                    s.checkpoint_clusters[k].add_peer(e.sender),
                    pred,
                );
            },
            None => {
                if t.checkpoint_clusters.len() > s.checkpoint_clusters.len() {
                    lemma_count_push(
                        s.checkpoint_clusters,
                        ClusterView::fresh(m.next_id, seq![hash], epoch as usize, seq![e.sender]),
                        pred,
                    );
                }
            },
        }
    }
    assert(count_clusters(t.checkpoint_clusters, pred) == count_clusters(
        s.checkpoint_clusters,
        pred,
    ) + made);
    if id < next {
        assert(s.count_live(pred) <= 1);
    } else {
        lemma_count_old_ids(s.epoch_clusters, next, id);
        lemma_count_old_ids(s.checkpoint_clusters, next, id);
        lemma_finishing_old_ids(s.job_queue, next, id);
    }
}

/// A peer that is in no live cluster is in none of the pools, not in the
/// cluster that is being pulled and in no cluster that waits for its end.
pub proof fn lemma_absent_everywhere(s: SyncView, peer: PeerId)
    requires
        s.occurrences(peer) == 0,
    ensures
        forall|k: int|
            0 <= k < s.epoch_clusters.len() ==> !(#[trigger] s.epoch_clusters[k]).peers.contains(
                peer,
            ),
        forall|k: int|
            0 <= k < s.checkpoint_clusters.len() ==> !(
            #[trigger] s.checkpoint_clusters[k]).peers.contains(peer),
        s.active_cluster matches Some(c) ==> !c.peers.contains(peer),
        forall|k: int|
            0 <= k < s.job_queue.len() ==> (#[trigger] s.job_queue[k] matches JobView::FinishCluster(
                c,
                _,
            ) ==> !c.peers.contains(peer)),
{
    let pred = holds_peer(peer);
    lemma_count_bounds(s.epoch_clusters, pred);
    lemma_count_bounds(s.checkpoint_clusters, pred);
    lemma_finishing_bounds(s.job_queue, pred);
    assert forall|k: int| 0 <= k < s.epoch_clusters.len() implies !(
    #[trigger] s.epoch_clusters[k]).peers.contains(peer) by {
        assert(!pred(s.epoch_clusters[k]));
    }
    assert forall|k: int| 0 <= k < s.checkpoint_clusters.len() implies !(
    #[trigger] s.checkpoint_clusters[k]).peers.contains(peer) by {
        assert(!pred(s.checkpoint_clusters[k]));
    }
    assert forall|k: int| 0 <= k < s.job_queue.len() implies (
    #[trigger] s.job_queue[k] matches JobView::FinishCluster(c, _) ==> !c.peers.contains(peer)) by {
        assert(job_counts(s.job_queue[k], pred) == 0);
    }
}

/// What the walk over `clusters` does to the cluster at position `k`.
pub open spec fn walk_step(clusters: Seq<ClusterView>, e: EpochIdsView, next: u64, k: int) -> MergeStep {
    let before = merge_all(clusters.take(k), e, merge_start(next));
    merge_step(clusters[k], e, before.id_index, before.next_id)
}

/// Every cluster of the walk that holds the peer already is joined again.
pub open spec fn walk_rejoins(clusters: Seq<ClusterView>, e: EpochIdsView, next: u64) -> bool {
    forall|k: int|
        0 <= k < clusters.len() && (#[trigger] clusters[k]).peers.contains(e.sender) ==> walk_step(
            clusters,
            e,
            next,
            k,
        ).joined
}

/// Where every cluster that holds the peer already is joined again, a walk
/// counts the clusters that hold the peer afterwards, as far as the type
/// goes.
pub proof fn lemma_walk_counts_rejoined(clusters: Seq<ClusterView>, e: EpochIdsView, next: u64)
    requires
        forall|k: int| 0 <= k < clusters.len() ==> (#[trigger] clusters[k]).wf(),
        walk_rejoins(clusters, e, next),
        next + clusters.len() <= u64::MAX,
    ensures
        merge_all(clusters, e, merge_start(next)).num_clusters == raised(
            0,
            count_clusters(
                merge_all(clusters, e, merge_start(next)).clusters,
                holds_peer(e.sender),
            ),
        ),
    decreases clusters.len(),
{
    let m = merge_all(clusters, e, merge_start(next));
    if clusters.len() > 0 {
        let rest = clusters.drop_last();
        let last = clusters.len() - 1;
        let before = merge_all(rest, e, merge_start(next));
        assert forall|k: int| 0 <= k < rest.len() implies (#[trigger] rest[k]).wf() by {
            assert(rest[k] == clusters[k]);
        }
        assert forall|k: int|
            0 <= k < rest.len() && (#[trigger] rest[k]).peers.contains(e.sender) implies walk_step(
            rest,
            e,
            next,
            k,
        ).joined by {
            assert(rest[k] == clusters[k]);
            assert(rest.take(k) =~= clusters.take(k));
            assert(walk_step(clusters, e, next, k).joined);
        }
        lemma_walk_counts_rejoined(rest, e, next);
        lemma_walk_keeps(rest, e, next);
        assert(clusters.take(last) =~= rest);
        assert(clusters[last] == clusters.last());
        lemma_merge_step(clusters.last(), e, before.id_index, before.next_id);
        let step = merge_step(clusters.last(), e, before.id_index, before.next_id);
        assert(step == walk_step(clusters, e, next, last));
        lemma_count_push(before.clusters, step.cluster, holds_peer(e.sender));
        lemma_count_bounds(before.clusters, holds_peer(e.sender));
    }
}

/// Every live cluster that holds the peer already is one that merging the
/// peer's ids joins again: a cluster of epochs or the cluster being pulled
/// that the walk joins, or the cluster of the peer's checkpoint.
pub open spec fn rejoins(s: SyncView, e: EpochIdsView) -> bool {
    let next = s.next_cluster_id;
    let walk = merge_all(s.epoch_clusters, e, merge_start(next));
    let epoch = e.checkpoint_epoch();
    &&& walk_rejoins(s.epoch_clusters, e, next)
    &&& forall|k: int|
        0 <= k < s.checkpoint_clusters.len() && (#[trigger] s.checkpoint_clusters[k]).peers.contains(
            e.sender,
        ) ==> e.checkpoint_id is Some && checkpoint_cluster(
            s.checkpoint_clusters,
            epoch,
            e.checkpoint_id.unwrap(),
        ) == Some(k)
    &&& forall|j: int|
        0 <= j < s.job_queue.len() ==> (#[trigger] s.job_queue[j] matches JobView::FinishCluster(
            c,
            _,
        ) ==> !c.peers.contains(e.sender))
    &&& s.active_cluster matches Some(c) ==> (c.peers.contains(e.sender) ==> {
        ||| merge_step(c, e, walk.id_index, walk.next_id).joined
        ||| (e.checkpoint_id is Some && checkpoint_cluster(
            s.checkpoint_clusters,
            epoch,
            e.checkpoint_id.unwrap(),
        ) is None && is_checkpoint_cluster(c, epoch, e.checkpoint_id.unwrap()))
    })
}

/// A peer that is in no live cluster is in none that would have to be joined
/// again.
pub proof fn lemma_absent_rejoins(s: SyncView, e: EpochIdsView)
    requires
        s.occurrences(e.sender) == 0,
    ensures
        rejoins(s, e),
{
    lemma_absent_everywhere(s, e.sender);
}

/// Where only the cluster at `at` may count, the pool counts what it counts.
pub proof fn lemma_count_only_at(
    clusters: Seq<ClusterView>,
    at: int,
    pred: spec_fn(ClusterView) -> bool,
)
    requires
        0 <= at < clusters.len(),
        forall|k: int| 0 <= k < clusters.len() && k != at ==> !pred(#[trigger] clusters[k]),
    ensures
        count_clusters(clusters, pred) == if pred(clusters[at]) {
            1nat
        } else {
            0nat
        },
{
    crate::counting::lemma_count_split(clusters, at, pred);
    lemma_count_bounds(clusters.take(at), pred);
    lemma_count_bounds(clusters.skip(at + 1), pred);
    assert forall|k: int| 0 <= k < at implies !pred(#[trigger] clusters.take(at)[k]) by {
        assert(clusters.take(at)[k] == clusters[k]);
    }
    assert forall|k: int| 0 <= k < clusters.len() - at - 1 implies !pred(
        #[trigger] clusters.skip(at + 1)[k],
    ) by {
        assert(clusters.skip(at + 1)[k] == clusters[k + at + 1]);
    }
}

/// Merging keeps the bookkeeping exact where every live cluster that holds
/// the peer already is joined again, as long as the counts fit their type:
/// afterwards every peer's entry is again the number of live clusters that
/// hold the peer.
pub proof fn lemma_merged_counts_rejoined(s: SyncView, e: EpochIdsView, peer: PeerId)
    requires
        s.wf(),
        e.wf(),
        s.has_id_headroom(),
        s.counts_exact(),
        rejoins(s, e),
        merged(s, e).num_live() <= u32::MAX,
    ensures
        count_of(merged(s, e).peers, peer) == merged(s, e).occurrences(peer),
{
    let t = merged(s, e);
    let m = merged_epochs(s, e);
    let next = s.next_cluster_id;
    let n = s.epoch_clusters.len() as int;
    let cs = walked(s);
    let pred = holds_peer(peer);
    let sender = e.sender;
    lemma_merged_epochs(s, e);
    lemma_occurrences_bounded(t, peer);
    let pool = m.clusters.take(n);
    assert(t.epoch_clusters == pool + m.new_clusters);
    lemma_count_add(pool, m.new_clusters, pred);
    assert(t.job_queue == s.job_queue);
    let base: u32 = if e.checkpoint_id is Some {
        saturating_inc(m.num_clusters)
    } else {
        m.num_clusters
    };
    let placed = s.peers.insert(sender, base);
    assert(t.peers == bumped_for(placed, m.new_clusters));
    assert forall|k: int| 0 <= k < m.new_clusters.len() implies (
    #[trigger] m.new_clusters[k]).peers.no_duplicates() by {
        assert(m.new_clusters[k].wf());
    }
    lemma_bumped_for(placed, m.new_clusters, peer);
    let kept = count_clusters(pool, pred) + count_clusters(t.checkpoint_clusters, pred)
        + count_active(t.active_cluster, pred) + count_finishing(t.job_queue, pred);
    assert(t.occurrences(peer) == kept + count_clusters(m.new_clusters, pred));
    assert forall|k: int| 0 <= k < n implies step_keeps(
        s.epoch_clusters[k],
        #[trigger] pool[k],
        sender,
    ) by {
        assert(pool[k] == m.clusters[k]);
        assert(cs[k] == s.epoch_clusters[k]);
    }
    let merged_active = match s.active_cluster {
        Some(_) => Some(m.clusters.last()),
        None => None,
    };
    if s.active_cluster is Some {
        assert(m.clusters.last() == m.clusters[n]);
        assert(cs[n] == s.active_cluster.unwrap());
        assert(step_keeps(s.active_cluster.unwrap(), m.clusters[n], sender));
    }
    let epoch = e.checkpoint_epoch();
    if e.checkpoint_id is Some {
        let hash = e.checkpoint_id.unwrap();
        lemma_fresh_single(m.next_id, seq![hash], epoch as usize, sender);
        lemma_checkpoint_cluster_found(s.checkpoint_clusters, epoch, hash);
        match checkpoint_cluster(s.checkpoint_clusters, epoch, hash) {
            Some(k) => {
                lemma_add_peer(s.checkpoint_clusters[k], sender);
                lemma_count_update(
                    s.checkpoint_clusters,
                    k,
                    s.checkpoint_clusters[k].add_peer(sender),
                    pred,
                );
            },
            None => {
                if merged_active is Some && is_checkpoint_cluster(
                    merged_active.unwrap(),
                    epoch,
                    hash,
                ) {
                    lemma_add_peer(merged_active.unwrap(), sender);
                } else {
                    lemma_count_push(
                        s.checkpoint_clusters,
                        ClusterView::fresh(m.next_id, seq![hash], epoch as usize, seq![sender]),
                        pred,
                    );
                }
            },
        }
    }
    if peer != sender {
        assert forall|k: int| 0 <= k < n implies pred(#[trigger] pool[k]) == pred(
            s.epoch_clusters[k],
        ) by {
            assert(step_keeps(s.epoch_clusters[k], pool[k], sender));
        }
        lemma_count_pointwise(pool, pred, s.epoch_clusters, pred);
        assert(count_clusters(t.checkpoint_clusters, pred) == count_clusters(
            s.checkpoint_clusters,
            pred,
        ));
        assert(count_active(t.active_cluster, pred) == count_active(s.active_cluster, pred));
        assert(kept == s.occurrences(peer));
        assert(count_of(placed, peer) == count_of(s.peers, peer));
    } else {
        // The walk over the pool has counted the clusters of the pool that
        // hold the peer afterwards.
        assert forall|k: int| 0 <= k < n implies (#[trigger] s.epoch_clusters[k]).wf() by {}
        lemma_walk_counts_rejoined(s.epoch_clusters, e, next);
        lemma_walk_keeps(s.epoch_clusters, e, next);
        let walk = merge_all(s.epoch_clusters, e, merge_start(next));
        let in_pool = count_clusters(walk.clusters, pred);
        assert(walk.num_clusters == raised(0, in_pool));
        // The cluster that is being pulled holds the peer afterwards if the
        // walk joins it, or if it takes in the checkpoint.
        let joined_active: nat = if s.active_cluster is Some && merge_step(
            s.active_cluster.unwrap(),
            e,
            walk.id_index,
            walk.next_id,
        ).joined {
            1
        } else {
            0
        };
        if s.active_cluster is Some {
            let c = s.active_cluster.unwrap();
            assert(cs.drop_last() =~= s.epoch_clusters);
            assert(m.clusters =~= pool.push(m.clusters.last()));
            assert(pool =~= walk.clusters);
            lemma_merge_step(c, e, walk.id_index, walk.next_id);
            assert(m.clusters.last() == merge_step(c, e, walk.id_index, walk.next_id).cluster);
        } else {
            assert(pool =~= walk.clusters);
        }
        assert(m.num_clusters == raised(0, in_pool + joined_active));
        // The clusters of checkpoints hold the peer in the cluster of its
        // checkpoint only.
        lemma_finishing_bounds(s.job_queue, pred);
        assert forall|j: int| 0 <= j < s.job_queue.len() implies job_counts(
            #[trigger] s.job_queue[j],
            pred,
        ) == 0 by {}
        assert(count_finishing(s.job_queue, pred) == 0);
        let found = if e.checkpoint_id is Some {
            checkpoint_cluster(s.checkpoint_clusters, epoch, e.checkpoint_id.unwrap())
        } else {
            None
        };
        match found {
            Some(k) => {
                assert forall|i: int|
                    0 <= i < s.checkpoint_clusters.len() && i != k implies !pred(
                    #[trigger] s.checkpoint_clusters[i],
                ) by {}
                lemma_count_only_at(s.checkpoint_clusters, k, pred);
            },
            None => {
                lemma_count_bounds(s.checkpoint_clusters, pred);
                assert forall|i: int| 0 <= i < s.checkpoint_clusters.len() implies !pred(
                    #[trigger] s.checkpoint_clusters[i],
                ) by {}
                assert(count_clusters(s.checkpoint_clusters, pred) == 0);
            },
        }
        let for_checkpoint: nat = if e.checkpoint_id is Some {
            1
        } else {
            0
        };
        assert(kept == in_pool + joined_active + for_checkpoint);
        assert(count_of(placed, peer) == base);
        assert(kept == base);
    }
}

/// Cutting the ids down to those beyond the head keeps them well formed and
/// from the same sender, with the same checkpoint, and every id that stays
/// keeps its epoch.
pub proof fn lemma_truncated_to_head(e: EpochIdsView, head: ElectionHead)
    requires
        e.wf(),
    ensures
        truncated_to_head(e, head) matches Some(ahead) ==> {
            &&& ahead.wf()
            &&& ahead.sender == e.sender
            &&& ahead.checkpoint_id == e.checkpoint_id
            &&& ahead.checkpoint_epoch() == e.checkpoint_epoch()
            &&& (ahead.ids.len() > 0 ==> ahead.first_epoch_number > head.epoch_number)
        },
{
}

/// A walk along ids and queue never finds more ids than there are, and ends
/// within the queue.
pub proof fn lemma_match_queue(
    ids: Seq<Blake2bHash>,
    jobs: Seq<JobView>,
    i: nat,
    j: nat,
    cluster_id: u64,
)
    requires
        i <= ids.len(),
        j <= jobs.len(),
    ensures
        i <= match_queue(ids, jobs, i, j, cluster_id).matched <= ids.len(),
        j <= match_queue(ids, jobs, i, j, cluster_id).next_job <= jobs.len(),
    decreases jobs.len() - j,
{
    if i >= ids.len() || j >= jobs.len() {
    } else {
        match jobs[j as int] {
            JobView::PushBatchSet(id, hash, _) => {
                if hash == ids[i as int] {
                    lemma_match_queue(ids, jobs, i + 1, j + 1, id);
                } else {
                    lemma_match_queue(ids, jobs, i, j + 1, cluster_id);
                }
            },
            JobView::FinishCluster(_, _) => {
                lemma_match_queue(ids, jobs, i, j + 1, cluster_id);
            },
        }
    }
}

/// The job that `finishing_job` finds is the end of the cluster asked for.
pub proof fn lemma_finishing_job(jobs: Seq<JobView>, from: nat, cluster_id: u64)
    ensures
        finishing_job(jobs, from, cluster_id) matches Some(k) ==> from <= k < jobs.len()
            && jobs[k as int] is FinishCluster && jobs[k as int].cluster_id() == cluster_id,
    decreases jobs.len() - from,
{
    if from < jobs.len() {
        lemma_finishing_job(jobs, from + 1, cluster_id);
    }
}

/// The state after `peer` joined the cluster that waits for its end at
/// position `k` of the queue, and entered the bookkeeping with one cluster.
pub open spec fn joined_finishing(s: SyncView, k: int, peer: PeerId) -> SyncView {
    SyncView {
        job_queue: s.job_queue.update(
            k,
            match s.job_queue[k] {
                JobView::FinishCluster(c, result) => JobView::FinishCluster(
                    c.add_peer(peer),
                    result,
                ),
                job => job,
            },
        ),
        peers: s.peers.insert(peer, 1),
        ..s
    }
}

/// Joining a cluster that waits for its end keeps the state well formed.
pub proof fn lemma_joined_finishing_wf(s: SyncView, k: int, peer: PeerId)
    requires
        s.wf(),
        0 <= k < s.job_queue.len(),
        s.job_queue[k] is FinishCluster,
    ensures
        joined_finishing(s, k, peer).wf(),
{
    let t = joined_finishing(s, k, peer);
    let c = s.job_queue[k]->FinishCluster_0;
    lemma_add_peer(c, peer);
    assert forall|i: int| 0 <= i < t.job_queue.len() implies (
    #[trigger] t.job_queue[i] matches JobView::FinishCluster(c, _) ==> c.wf()) by {
        if i != k {
            assert(s.job_queue[i] matches JobView::FinishCluster(c, _) ==> c.wf());
        }
    }
    assert forall|i: int| 0 <= i < t.job_queue.len() implies (#[trigger] t.job_queue[i]).cluster_id()
        < t.next_cluster_id by {
        assert(s.job_queue[i].cluster_id() < s.next_cluster_id);
    }
    assert forall|i: int| 0 <= i < t.job_queue.len() implies #[trigger] t.job_in_order(i) by {
        assert(s.job_in_order(i));
        assert(s.job_queue[i] == t.job_queue[i] || i == k);
    }
    assert forall|id: u64| #[trigger] t.count_live(has_id(id)) <= 1 by {
        assert forall|i: int| 0 <= i < s.job_queue.len() implies job_counts(
            #[trigger] t.job_queue[i],
            has_id(id),
        ) == job_counts(s.job_queue[i], has_id(id)) by {}
        lemma_finishing_pointwise(t.job_queue, has_id(id), s.job_queue, has_id(id));
        assert(s.count_live(has_id(id)) <= 1);
    }
}

/// Clustering keeps the state well formed.
pub proof fn lemma_clustered_wf(s: SyncView, e: EpochIdsView, head: ElectionHead)
    requires
        s.wf(),
        e.wf(),
        s.has_id_headroom(),
    ensures
        clustered(s, e, head).0.wf(),
        clustered(s, e, head).0.next_cluster_id >= s.next_cluster_id,
        clustered(s, e, head).0.next_cluster_id <= s.next_cluster_id + s.epoch_clusters.len() + 3,
        clustered(s, e, head).0.job_queue.len() == s.job_queue.len(),
{
    lemma_truncated_to_head(e, head);
    match truncated_to_head(e, head) {
        None => {},
        Some(ahead) => {
            let queued = match_queue(all_ids(ahead), s.job_queue, 0, 0, 0);
            lemma_match_queue(all_ids(ahead), s.job_queue, 0, 0, 0);
            if queued.matched > ahead.ids.len() || (queued.matched == ahead.ids.len()
                && ahead.checkpoint_id is None) {
                lemma_finishing_job(s.job_queue, queued.next_job, queued.cluster_id);
                match finishing_job(s.job_queue, queued.next_job, queued.cluster_id) {
                    Some(k) => {
                        lemma_joined_finishing_wf(s, k as int, e.sender);
                        assert(clustered(s, e, head).0 == joined_finishing(s, k as int, e.sender));
                    },
                    None => {},
                }
            } else {
                let rest = EpochIdsView {
                    ids: ahead.ids.skip(queued.matched as int),
                    first_epoch_number: (ahead.first_epoch_number + queued.matched) as usize,
                    ..ahead
                };
                lemma_merged_wf(s, rest);
            }
        },
    }
}

/// The bookkeeping stays exact under clustering. For all states that are
/// well formed and whose bookkeeping is exact, and all ids of a peer that is
/// in no live cluster: after clustering, the entry of every peer is the
/// number of live clusters that hold the peer, provided that there are no
/// more live clusters than an entry can count.
pub proof fn lemma_clustered_counts(s: SyncView, e: EpochIdsView, head: ElectionHead)
    requires
        s.wf(),
        e.wf(),
        s.has_id_headroom(),
        s.counts_exact(),
        s.occurrences(e.sender) == 0,
        clustered(s, e, head).0.num_live() <= u32::MAX,
    ensures
        clustered(s, e, head).0.counts_exact(),
{
    lemma_absent_keeps_exact(s, e, head);
    lemma_clustered_counts_rejoined(s, e, head);
}

/// Once every id is accounted for, a cluster is left as it is.
pub proof fn lemma_merge_step_exhausted(c: ClusterView, e: EpochIdsView, id_index: nat, new_id: u64)
    requires
        id_index == e.ids.len(),
    ensures
        merge_step(c, e, id_index, new_id) == (MergeStep {
            cluster: c,
            split: None,
            matched: 0,
            joined: false,
        }),
{
    assert(e.ids.skip(id_index as int).len() == 0);
}

/// Once every id is accounted for, the rest of a walk changes nothing.
pub proof fn lemma_merge_all_exhausted(
    clusters: Seq<ClusterView>,
    e: EpochIdsView,
    start: Merge,
    i: int,
)
    requires
        0 <= i <= clusters.len(),
        merge_all(clusters.take(i), e, start).id_index == e.ids.len(),
    ensures
        merge_all(clusters, e, start) == (Merge {
            clusters: merge_all(clusters.take(i), e, start).clusters + clusters.skip(i),
            ..merge_all(clusters.take(i), e, start)
        }),
    decreases clusters.len() - i,
{
    let m = merge_all(clusters.take(i), e, start);
    if i == clusters.len() {
        assert(clusters.take(i) =~= clusters);
        assert(m.clusters + clusters.skip(i) =~= m.clusters);
    } else {
        assert(clusters.take(i + 1).drop_last() =~= clusters.take(i));
        lemma_merge_step_exhausted(clusters[i], e, m.id_index, m.next_id);
        let m1 = merge_all(clusters.take(i + 1), e, start);
        assert(m1 == merge_one(m, clusters[i], e));
        lemma_merge_all_exhausted(clusters, e, start, i + 1);
        assert(m1.clusters + clusters.skip(i + 1) =~= m.clusters + clusters.skip(i));
    }
}

/// A walk leaves as many clusters as it was given, on top of those it began
/// with.
pub proof fn lemma_merge_all_len(clusters: Seq<ClusterView>, e: EpochIdsView, start: Merge)
    ensures
        merge_all(clusters, e, start).clusters.len() == start.clusters.len() + clusters.len(),
    decreases clusters.len(),
{
    if clusters.len() > 0 {
        lemma_merge_all_len(clusters.drop_last(), e, start);
    }
}

/// The first cluster of a checkpoint among the first `n` clusters is the
/// first among all of them.
pub proof fn lemma_checkpoint_cluster_stays(
    clusters: Seq<ClusterView>,
    epoch: int,
    hash: Blake2bHash,
    n: int,
)
    requires
        0 <= n <= clusters.len(),
        checkpoint_cluster(clusters.take(n), epoch, hash) is Some,
    ensures
        checkpoint_cluster(clusters, epoch, hash) == checkpoint_cluster(
            clusters.take(n),
            epoch,
            hash,
        ),
    decreases clusters.len() - n,
{
    if n == clusters.len() {
        assert(clusters.take(n) =~= clusters);
    } else {
        assert(clusters.take(n + 1).drop_last() =~= clusters.take(n));
        lemma_checkpoint_cluster_stays(clusters, epoch, hash, n + 1);
    }
}

/// No live cluster holds the peer but, perhaps, the cluster that waits for
/// its end at position `k` of the queue.
pub open spec fn only_in_job(s: SyncView, k: int, peer: PeerId) -> bool {
    &&& forall|i: int|
        0 <= i < s.epoch_clusters.len() ==> !(#[trigger] s.epoch_clusters[i]).peers.contains(peer)
    &&& forall|i: int|
        0 <= i < s.checkpoint_clusters.len() ==> !(
        #[trigger] s.checkpoint_clusters[i]).peers.contains(peer)
    &&& s.active_cluster matches Some(c) ==> !c.peers.contains(peer)
    &&& forall|j: int|
        0 <= j < s.job_queue.len() && j != k ==> (
        #[trigger] s.job_queue[j] matches JobView::FinishCluster(c, _) ==> !c.peers.contains(peer))
}

/// Joining a cluster that waits for its end keeps the bookkeeping exact
/// where no other live cluster holds the peer.
pub proof fn lemma_joined_finishing_counts_only(s: SyncView, k: int, peer: PeerId, other: PeerId)
    requires
        s.wf(),
        0 <= k < s.job_queue.len(),
        s.job_queue[k] is FinishCluster,
        s.counts_exact(),
        only_in_job(s, k, peer),
    ensures
        count_of(joined_finishing(s, k, peer).peers, other) == joined_finishing(
            s,
            k,
            peer,
        ).occurrences(other),
{
    let t = joined_finishing(s, k, peer);
    let c = s.job_queue[k]->FinishCluster_0;
    let pred = holds_peer(other);
    lemma_add_peer(c, peer);
    assert(count_of(s.peers, other) == s.occurrences(other));
    if other == peer {
        lemma_count_bounds(s.epoch_clusters, pred);
        lemma_count_bounds(s.checkpoint_clusters, pred);
        assert forall|i: int| 0 <= i < s.epoch_clusters.len() implies !pred(
            #[trigger] s.epoch_clusters[i],
        ) by {}
        assert forall|i: int| 0 <= i < s.checkpoint_clusters.len() implies !pred(
            #[trigger] s.checkpoint_clusters[i],
        ) by {}
        let q = t.job_queue;
        crate::counting::lemma_finishing_split(q, k, pred);
        lemma_finishing_bounds(q.take(k), pred);
        lemma_finishing_bounds(q.skip(k + 1), pred);
        assert forall|j: int| 0 <= j < k implies job_counts(#[trigger] q.take(k)[j], pred) == 0 by {
            assert(q.take(k)[j] == s.job_queue[j]);
        }
        assert forall|j: int| 0 <= j < q.len() - k - 1 implies job_counts(
            #[trigger] q.skip(k + 1)[j],
            pred,
        ) == 0 by {
            assert(q.skip(k + 1)[j] == s.job_queue[j + k + 1]);
        }
        assert(job_counts(q[k], pred) == 1);
    } else {
        lemma_finishing_update(s.job_queue, k, t.job_queue[k], pred);
    }
}

/// What makes clustering keep the bookkeeping exact: every live cluster that
/// holds the peer already is one that the peer joins again. Where the peer's
/// ids are merged into the clusters, these are the clusters that the merge
/// joins; where the peer joins a cluster that waits for its end, it is that
/// cluster; where nothing is changed, nothing is asked.
pub open spec fn keeps_exact(s: SyncView, e: EpochIdsView, head: ElectionHead) -> bool {
    match truncated_to_head(e, head) {
        None => true,
        Some(ahead) => {
            let queued = match_queue(all_ids(ahead), s.job_queue, 0, 0, 0);
            if queued.matched > ahead.ids.len() || (queued.matched == ahead.ids.len()
                && ahead.checkpoint_id is None) {
                match finishing_job(s.job_queue, queued.next_job, queued.cluster_id) {
                    Some(k) => only_in_job(s, k as int, e.sender),
                    None => true,
                }
            } else {
                rejoins(
                    s,
                    EpochIdsView {
                        ids: ahead.ids.skip(queued.matched as int),
                        first_epoch_number: (ahead.first_epoch_number + queued.matched) as usize,
                        ..ahead
                    },
                )
            }
        },
    }
}

/// A peer that is in no live cluster is in none that it would have to join
/// again.
pub proof fn lemma_absent_keeps_exact(s: SyncView, e: EpochIdsView, head: ElectionHead)
    requires
        e.wf(),
        s.occurrences(e.sender) == 0,
    ensures
        keeps_exact(s, e, head),
{
    lemma_absent_everywhere(s, e.sender);
    lemma_truncated_to_head(e, head);
    match truncated_to_head(e, head) {
        None => {},
        Some(ahead) => {
            let queued = match_queue(all_ids(ahead), s.job_queue, 0, 0, 0);
            if queued.matched > ahead.ids.len() || (queued.matched == ahead.ids.len()
                && ahead.checkpoint_id is None) {
            } else {
                let rest = EpochIdsView {
                    ids: ahead.ids.skip(queued.matched as int),
                    first_epoch_number: (ahead.first_epoch_number + queued.matched) as usize,
                    ..ahead
                };
                lemma_absent_rejoins(s, rest);
            }
        },
    }
}

/// The bookkeeping stays exact under clustering wherever every live cluster
/// that holds the peer already is joined again. For all states that are well
/// formed and whose bookkeeping is exact, and all ids of such a peer: after
/// clustering, the entry of every peer is the number of live clusters that
/// hold the peer, provided that there are no more live clusters than an
/// entry can count.
pub proof fn lemma_clustered_counts_rejoined(s: SyncView, e: EpochIdsView, head: ElectionHead)
    requires
        s.wf(),
        e.wf(),
        s.has_id_headroom(),
        s.counts_exact(),
        keeps_exact(s, e, head),
        clustered(s, e, head).0.num_live() <= u32::MAX,
    ensures
        clustered(s, e, head).0.counts_exact(),
{
    let t = clustered(s, e, head).0;
    lemma_truncated_to_head(e, head);
    assert forall|peer: PeerId| count_of(t.peers, peer) == #[trigger] t.occurrences(peer) by {
        assert(count_of(s.peers, peer) == s.occurrences(peer));
        match truncated_to_head(e, head) {
            None => {},
            Some(ahead) => {
                let queued = match_queue(all_ids(ahead), s.job_queue, 0, 0, 0);
                lemma_match_queue(all_ids(ahead), s.job_queue, 0, 0, 0);
                if queued.matched > ahead.ids.len() || (queued.matched == ahead.ids.len()
                    && ahead.checkpoint_id is None) {
                    lemma_finishing_job(s.job_queue, queued.next_job, queued.cluster_id);
                    match finishing_job(s.job_queue, queued.next_job, queued.cluster_id) {
                        Some(k) => {
                            assert(t == joined_finishing(s, k as int, e.sender));
                            lemma_joined_finishing_counts_only(s, k as int, e.sender, peer);
                        },
                        None => {},
                    }
                } else {
                    let rest = EpochIdsView {
                        ids: ahead.ids.skip(queued.matched as int),
                        first_epoch_number: (ahead.first_epoch_number + queued.matched) as usize,
                        ..ahead
                    };
                    lemma_merged_counts_rejoined(s, rest, peer);
                }
            },
        }
    }
}

/// A sequence of hashes is its own longest common prefix with itself.
pub proof fn lemma_common_prefix_self(a: Seq<Blake2bHash>)
    ensures
        common_prefix(a, a) == a.len(),
    decreases a.len(),
{
    if a.len() > 0 {
        lemma_common_prefix_self(a.skip(1));
    }
}

/// The state in which nothing has happened yet.
pub open spec fn empty_sync() -> SyncView {
    SyncView {
        epoch_clusters: Seq::empty(),
        checkpoint_clusters: Seq::empty(),
        active_cluster: None,
        job_queue: Seq::empty(),
        peers: Map::empty(),
        next_cluster_id: 0,
    }
}

/// Merging the same ids a second time into the state that merging them into
/// the empty state has left changes nothing.
pub proof fn lemma_merging_twice_changes_nothing(e: EpochIdsView)
    requires
        e.wf(),
        !e.is_synced(),
    ensures
        merged(merged(empty_sync(), e), e) == merged(empty_sync(), e),
{
    let s0 = empty_sync();
    let s1 = merged(s0, e);
    let sender = e.sender;
    let start0 = merge_start(0);
    assert(merge_all(s0.epoch_clusters, e, start0) == start0);
    assert(e.ids.skip(0) =~= e.ids);
    let made = ClusterView::fresh(0, e.ids, e.first_epoch_number, seq![sender]);
    lemma_fresh_single(0, e.ids, e.first_epoch_number, sender);
    let m0 = merged_epochs(s0, e);
    let has_ids = e.ids.len() > 0;
    let pool1: Seq<ClusterView> = if has_ids {
        seq![made]
    } else {
        Seq::empty()
    };
    assert(m0.new_clusters =~= pool1);
    assert(m0.clusters.take(0) =~= Seq::<ClusterView>::empty());
    assert(s1.epoch_clusters =~= pool1);
    assert(s1.active_cluster is None);
    assert(s1.job_queue == s0.job_queue);
    // The bookkeeping after the first time.
    let own: u32 = if e.checkpoint_id is Some {
        1
    } else {
        0
    };
    let placed = s0.peers.insert(sender, own);
    assert(s1.peers == bumped_for(placed, pool1));
    if has_ids {
        assert(pool1.drop_last() =~= Seq::<ClusterView>::empty());
        assert(pool1.last() == made);
        assert(bumped_for(placed, pool1.drop_last()) == placed);
        assert(made.peers.drop_last() =~= Seq::<PeerId>::empty());
        assert(made.peers.last() == sender);
        assert(bumped_all(placed, made.peers.drop_last()) == placed);
        assert(bumped_all(placed, made.peers) == bumped(placed, sender));
        assert(s1.peers =~= s0.peers.insert(sender, (own + 1) as u32));
    } else {
        assert(s1.peers == placed);
    }
    // The second time: the walk finds the cluster of the first time, and the
    // peer in it.
    let start1 = merge_start(s1.next_cluster_id);
    let walk = merge_all(pool1, e, start1);
    if has_ids {
        assert(pool1.drop_last() =~= Seq::<ClusterView>::empty());
        assert(merge_all(pool1.drop_last(), e, start1) == start1);
        lemma_common_prefix_self(e.ids);
        assert(made.epoch_ids.skip(0) =~= e.ids);
        let step = merge_step(made, e, 0, s1.next_cluster_id);
        assert(made.peers[0] == sender);
        assert(made.add_peer(sender) == made);
        assert(step == MergeStep { cluster: made, split: None, matched: e.ids.len(), joined: true });
        assert(walk == merge_one(start1, made, e));
        assert(walk.clusters =~= pool1);
    } else {
        assert(walk == start1);
    }
    let m1 = merged_epochs(s1, e);
    assert(m1 == walk);
    assert(m1.clusters.take(pool1.len() as int) =~= pool1);
    assert(m1.new_clusters =~= Seq::<ClusterView>::empty());
    let s2 = merged(s1, e);
    assert(s2.epoch_clusters =~= s1.epoch_clusters);
    assert(bumped_for(s1.peers.insert(sender, m1.num_clusters), m1.new_clusters)
        == s1.peers.insert(sender, m1.num_clusters));
    match e.checkpoint_id {
        None => {
            assert(s2.peers =~= s1.peers);
            assert(s2 == s1);
        },
        Some(hash) => {
            let epoch = e.checkpoint_epoch();
            let kept = ClusterView::fresh(m0.next_id, seq![hash], epoch as usize, seq![sender]);
            lemma_fresh_single(m0.next_id, seq![hash], epoch as usize, sender);
            assert(checkpoint_cluster(s0.checkpoint_clusters, epoch, hash) is None);
            assert(s1.checkpoint_clusters =~= seq![kept]);
            assert(s1.checkpoint_clusters.drop_last() =~= Seq::<ClusterView>::empty());
            assert(checkpoint_cluster(s1.checkpoint_clusters.drop_last(), epoch, hash) is None);
            assert(is_checkpoint_cluster(kept, epoch, hash));
            assert(checkpoint_cluster(s1.checkpoint_clusters, epoch, hash) == Some(0int));
            assert(kept.peers[0] == sender);
            assert(kept.add_peer(sender) == kept);
            assert(s2.checkpoint_clusters =~= s1.checkpoint_clusters);
            assert(s2.peers =~= s1.peers);
            assert(s2 == s1);
        },
    }
}

/// Clustering the same ids twice, beginning with the empty state, leaves the
/// clusters and the bookkeeping that clustering them once has left, and
/// gives the same answer.
pub proof fn lemma_clustering_twice_changes_nothing(e: EpochIdsView, head: ElectionHead)
    requires
        e.wf(),
    ensures
        clustered(clustered(empty_sync(), e, head).0, e, head) == clustered(empty_sync(), e, head),
{
    let s0 = empty_sync();
    lemma_truncated_to_head(e, head);
    match truncated_to_head(e, head) {
        None => {},
        Some(ahead) => {
            let queued = match_queue(all_ids(ahead), s0.job_queue, 0, 0, 0);
            assert(queued.matched == 0 && queued.next_job == 0);
            if ahead.is_synced() {
                assert(finishing_job(s0.job_queue, 0, queued.cluster_id) is None);
            } else {
                let rest = EpochIdsView {
                    ids: ahead.ids.skip(0),
                    first_epoch_number: (ahead.first_epoch_number + 0) as usize,
                    ..ahead
                };
                assert(ahead.ids.skip(0) =~= ahead.ids);
                assert(rest == ahead);
                lemma_merging_twice_changes_nothing(ahead);
                let s1 = merged(s0, ahead);
                assert(s1.job_queue == s0.job_queue);
                assert(clustered(s0, e, head) == (s1, None::<PeerId>));
                let again = match_queue(all_ids(ahead), s1.job_queue, 0, 0, 0);
                assert(again == queued);
            }
        },
    }
}

} // verus!
