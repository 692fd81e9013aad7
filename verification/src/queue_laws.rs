//! What holds of scheduling and of the queue: the state stays well formed,
//! the scheduler takes a cluster that none ranks above, the bookkeeping stays
//! exact, and the commits of a cluster leave the queue in the order of their
//! epochs.
use crate::cluster::{
    lemma_not_below_is_transitive, lemma_remove_front_keeps_epochs, lemma_remove_peer, ranks_above,
    ClusterPoll, ClusterView, PeerId, SyncClusterResult,
};
use crate::counting::{
    job_counts, lemma_count_add, lemma_count_bounds, lemma_count_pointwise, lemma_count_push,
    lemma_count_split, lemma_finishing_add, lemma_finishing_bounds, lemma_finishing_pointwise,
    lemma_finishing_push, lemma_finishing_split,
};
use crate::queue_model::{
    activated, active_ended, batch_set_queued, best_index, cluster_polled, evicted,
    finish_completed, finished, peer_gone, popped, push_completed, released, released_all,
    request_failed, stale_epochs, swap_removed, trimmed,
};
use crate::sync::{count_clusters, count_finishing, count_of, has_id, holds_peer, JobView, SyncView};
use vstd::prelude::*;

verus! {

/// The scheduler takes a cluster of the pool that no cluster of the pool
/// ranks above; of those after it in the pool it ranks above each.
pub proof fn lemma_best_index(clusters: Seq<ClusterView>)
    requires
        clusters.len() > 0,
    ensures
        0 <= best_index(clusters) < clusters.len(),
        forall|k: int|
            0 <= k < clusters.len() ==> !ranks_above(
                #[trigger] clusters[k],
                clusters[best_index(clusters)],
            ),
        forall|k: int|
            best_index(clusters) < k < clusters.len() ==> ranks_above(
                clusters[best_index(clusters)],
                #[trigger] clusters[k],
            ),
    decreases clusters.len(),
{
    if clusters.len() > 1 {
        let rest = clusters.drop_last();
        lemma_best_index(rest);
        let before = best_index(rest);
        let best = best_index(clusters);
        assert(rest[before] == clusters[before]);
        assert forall|k: int| 0 <= k < clusters.len() implies !ranks_above(
            #[trigger] clusters[k],
            clusters[best],
        ) by {
            if k < rest.len() {
                assert(rest[k] == clusters[k]);
                assert(!ranks_above(rest[k], rest[before]));
                if best != before {
                    lemma_not_below_is_transitive(clusters[best], clusters[before], clusters[k]);
                }
            }
        }
        assert forall|k: int| best < k < clusters.len() implies ranks_above(
            clusters[best],
            #[trigger] clusters[k],
        ) by {
            if k < rest.len() {
                assert(rest[k] == clusters[k]);
                assert(ranks_above(rest[before], rest[k]));
            }
        }
    }
}

/// Taking a cluster out of a pool leaves the others, each once: the count of
/// the pool goes down by what the cluster counts.
pub proof fn lemma_swap_removed(
    clusters: Seq<ClusterView>,
    index: int,
    pred: spec_fn(ClusterView) -> bool,
)
    requires
        0 <= index < clusters.len(),
    ensures
        swap_removed(clusters, index).len() == clusters.len() - 1,
        count_clusters(swap_removed(clusters, index), pred) + (if pred(clusters[index]) {
            1nat
        } else {
            0nat
        }) == count_clusters(clusters, pred),
        forall|k: int|
            0 <= k < clusters.len() - 1 ==> exists|j: int|
                0 <= j < clusters.len() && j != index && #[trigger] swap_removed(clusters, index)[k]
                    == clusters[j],
{
    let after = swap_removed(clusters, index);
    lemma_count_split(clusters, index, pred);
    if index == 0 {
        assert(clusters.take(0) =~= Seq::<ClusterView>::empty());
        assert forall|k: int| 0 <= k < clusters.len() - 1 implies exists|j: int|
            0 <= j < clusters.len() && j != index && #[trigger] after[k] == clusters[j] by {
            assert(after[k] == clusters[k + 1]);
        }
    } else {
        let middle = clusters.subrange(1, index);
        lemma_count_add(middle.push(clusters[0]), clusters.skip(index + 1), pred);
        lemma_count_push(middle, clusters[0], pred);
        assert(clusters.take(index) =~= seq![clusters[0]] + middle);
        lemma_count_add(seq![clusters[0]], middle, pred);
        assert(seq![clusters[0]] =~= Seq::<ClusterView>::empty().push(clusters[0]));
        lemma_count_push(Seq::<ClusterView>::empty(), clusters[0], pred);
        assert forall|k: int| 0 <= k < clusters.len() - 1 implies exists|j: int|
            0 <= j < clusters.len() && j != index && #[trigger] after[k] == clusters[j] by {
            if k < index - 1 {
                assert(after[k] == clusters[k + 1]);
            } else if k == index - 1 {
                assert(after[k] == clusters[0]);
            } else {
                assert(after[k] == clusters[k + 1]);
            }
        }
    }
}

/// Trimming keeps a cluster of the pool well formed, with its id, its peers
/// and the hashes of the epochs that stay; afterwards it begins after
/// `current_epoch` unless all of it lay at or before that epoch.
pub proof fn lemma_trimmed(c: ClusterView, current_epoch: usize)
    requires
        c.wf(),
        c.num_epochs_finished == 0,
    ensures
        trimmed(c, current_epoch).wf(),
        trimmed(c, current_epoch).id == c.id,
        trimmed(c, current_epoch).peers == c.peers,
        trimmed(c, current_epoch).num_epochs_finished == 0,
        trimmed(c, current_epoch).end_epoch() == c.end_epoch(),
        trimmed(c, current_epoch).epoch_ids.len() > 0 ==> trimmed(
            c,
            current_epoch,
        ).first_epoch_number > current_epoch,
        forall|epoch: int| #[trigger]
            trimmed(c, current_epoch).covers(epoch) <==> c.covers(epoch) && epoch > current_epoch,
        forall|epoch: int| #[trigger]
            trimmed(c, current_epoch).covers(epoch) ==> trimmed(c, current_epoch).epoch_id_at(
                epoch,
            ) == c.epoch_id_at(epoch),
{
    if c.first_epoch_number <= current_epoch {
        lemma_remove_front_keeps_epochs(c, stale_epochs(c, current_epoch));
    }
}

/// What the scheduler takes leaves a well-formed state behind. The cluster it
/// hands out is well formed, has an id below the next id, and is gone from
/// the live clusters: every count of the live clusters goes down by what the
/// cluster counts, for every predicate that looks at the id or the peers.
pub proof fn lemma_popped(s: SyncView, current_epoch: usize, pred: spec_fn(ClusterView) -> bool)
    requires
        s.wf(),
        forall|c: ClusterView, d: ClusterView| c.id == d.id && c.peers == d.peers ==> #[trigger] pred(
            c,
        ) == #[trigger] pred(d),
    ensures
        popped(s, current_epoch).0.clusters_wf(),
        popped(s, current_epoch).0.ids_below_next(),
        popped(s, current_epoch).0.queue_ordered(),
        popped(s, current_epoch).0.active_cluster == s.active_cluster,
        popped(s, current_epoch).0.job_queue == s.job_queue,
        popped(s, current_epoch).0.peers == s.peers,
        popped(s, current_epoch).0.next_cluster_id == s.next_cluster_id,
        match popped(s, current_epoch).1 {
            Some(c) => c.wf() && c.num_epochs_finished == 0 && c.id < s.next_cluster_id && popped(
                s,
                current_epoch,
            ).0.count_live(pred) + (if pred(c) {
                1nat
            } else {
                0nat
            }) == s.count_live(pred),
            None => popped(s, current_epoch).0 == s,
        },
{
    let t = popped(s, current_epoch).0;
    if s.epoch_clusters.len() > 0 {
        let i = best_index(s.epoch_clusters);
        lemma_best_index(s.epoch_clusters);
        lemma_swap_removed(s.epoch_clusters, i, pred);
        assert(s.epoch_clusters[i].wf());
        lemma_trimmed(s.epoch_clusters[i], current_epoch);
        assert forall|k: int| 0 <= k < t.epoch_clusters.len() implies (
        #[trigger] t.epoch_clusters[k]).wf() && t.epoch_clusters[k].num_epochs_finished == 0
            && t.epoch_clusters[k].id < t.next_cluster_id by {
            let j = choose|j: int|
                0 <= j < s.epoch_clusters.len() && j != i && t.epoch_clusters[k]
                    == s.epoch_clusters[j];
            assert(s.epoch_clusters[j].wf());
        }
    } else if s.checkpoint_clusters.len() > 0 {
        let i = best_index(s.checkpoint_clusters);
        lemma_best_index(s.checkpoint_clusters);
        lemma_swap_removed(s.checkpoint_clusters, i, pred);
        assert(s.checkpoint_clusters[i].wf());
        lemma_trimmed(s.checkpoint_clusters[i], current_epoch);
        assert forall|k: int| 0 <= k < t.checkpoint_clusters.len() implies (
        #[trigger] t.checkpoint_clusters[k]).wf() && t.checkpoint_clusters[k].num_epochs_finished
            == 0 && t.checkpoint_clusters[k].id < t.next_cluster_id by {
            let j = choose|j: int|
                0 <= j < s.checkpoint_clusters.len() && j != i && t.checkpoint_clusters[k]
                    == s.checkpoint_clusters[j];
            assert(s.checkpoint_clusters[j].wf());
        }
    } else {
        assert(t.checkpoint_clusters =~= s.checkpoint_clusters);
        assert(t == s);
    }
    assert forall|k: int| 0 <= k < t.job_queue.len() implies (
    #[trigger] t.job_queue[k] matches JobView::FinishCluster(c, _) ==> c.wf()) by {
        assert(s.job_queue[k] matches JobView::FinishCluster(c, _) ==> c.wf());
    }
    assert forall|k: int| 0 <= k < t.job_queue.len() implies (#[trigger] t.job_queue[k]).cluster_id()
        < t.next_cluster_id by {
        assert(s.job_queue[k].cluster_id() < s.next_cluster_id);
    }
    assert forall|i: int| 0 <= i < t.job_queue.len() implies #[trigger] t.job_in_order(i) by {
        assert(s.job_in_order(i));
        assert(s.job_queue[i] == t.job_queue[i]);
    }
}

/// The predicates that look at the id or at the peers of a cluster only.
pub proof fn lemma_preds_look_at_id_and_peers(id: u64, peer: PeerId)
    ensures
        forall|c: ClusterView, d: ClusterView|
            c.id == d.id && c.peers == d.peers ==> #[trigger] has_id(id)(c) == #[trigger] has_id(
                id,
            )(d),
        forall|c: ClusterView, d: ClusterView|
            c.id == d.id && c.peers == d.peers ==> #[trigger] holds_peer(peer)(c)
                == #[trigger] holds_peer(peer)(d),
{
}

/// Taking a cluster to pull keeps the state well formed and the live
/// clusters the same, so that an exact bookkeeping stays exact.
pub proof fn lemma_activated(s: SyncView, current_epoch: usize)
    requires
        s.wf(),
    ensures
        activated(s, current_epoch).wf(),
        s.counts_exact() ==> activated(s, current_epoch).counts_exact(),
        activated(s, current_epoch).job_queue == s.job_queue,
        activated(s, current_epoch).peers == s.peers,
        activated(s, current_epoch).next_cluster_id == s.next_cluster_id,
{
    let t = activated(s, current_epoch);
    if s.active_cluster is None {
        lemma_popped(s, current_epoch, |c: ClusterView| true);
        let p = popped(s, current_epoch).0;
        assert forall|id: u64| #[trigger] t.count_live(has_id(id)) <= 1 by {
            lemma_preds_look_at_id_and_peers(id, 0);
            lemma_popped(s, current_epoch, has_id(id));
            assert(s.count_live(has_id(id)) <= 1);
        }
        assert forall|i: int| 0 <= i < t.job_queue.len() implies #[trigger] t.job_in_order(i) by {
            assert(s.job_in_order(i));
        }
        assert(t.clusters_wf());
        assert(t.ids_below_next());
        if s.counts_exact() {
            assert forall|peer: PeerId| count_of(t.peers, peer) == #[trigger] t.occurrences(
                peer,
            ) by {
                lemma_preds_look_at_id_and_peers(0, peer);
                lemma_popped(s, current_epoch, holds_peer(peer));
                assert(count_of(s.peers, peer) == s.occurrences(peer));
            }
        }
    }
}

/// The bookkeeping is exact but for one cluster that has left the live
/// clusters and whose peers have not been released yet.
pub open spec fn counts_exact_but(s: SyncView, gone: ClusterView) -> bool {
    forall|peer: PeerId|
        count_of(s.peers, peer) == #[trigger] s.occurrences(peer) + if gone.peers.contains(peer) {
            1nat
        } else {
            0nat
        }
}

/// Queueing the end of the cluster that is being pulled keeps the state well
/// formed and an exact bookkeeping exact.
pub proof fn lemma_active_ended(s: SyncView, result: SyncClusterResult)
    requires
        s.wf(),
    ensures
        active_ended(s, result).wf(),
        s.counts_exact() ==> active_ended(s, result).counts_exact(),
{
    let t = active_ended(s, result);
    if s.active_cluster is Some {
        let c = s.active_cluster.unwrap();
        let n = s.job_queue.len() as int;
        assert forall|i: int| 0 <= i < t.job_queue.len() implies (
        #[trigger] t.job_queue[i] matches JobView::FinishCluster(c, _) ==> c.wf()) by {
            if i < n {
                assert(s.job_queue[i] matches JobView::FinishCluster(c, _) ==> c.wf());
            }
        }
        assert forall|i: int| 0 <= i < t.job_queue.len() implies (#[trigger] t.job_queue[i]).cluster_id()
            < t.next_cluster_id by {
            if i < n {
                assert(s.job_queue[i].cluster_id() < s.next_cluster_id);
            }
        }
        assert forall|i: int| 0 <= i < t.job_queue.len() implies #[trigger] t.job_in_order(i) by {
            if i < n {
                assert(s.job_in_order(i));
            }
        }
        assert forall|id: u64| #[trigger] t.count_live(has_id(id)) <= 1 by {
            lemma_finishing_push(s.job_queue, JobView::FinishCluster(c, result), has_id(id));
            assert(s.count_live(has_id(id)) <= 1);
        }
        if s.counts_exact() {
            assert forall|peer: PeerId| count_of(t.peers, peer) == #[trigger] t.occurrences(
                peer,
            ) by {
                lemma_finishing_push(
                    s.job_queue,
                    JobView::FinishCluster(c, result),
                    holds_peer(peer),
                );
                assert(count_of(s.peers, peer) == s.occurrences(peer));
            }
        }
    }
}

/// Queueing the commit of the epoch that the cluster being pulled delivered
/// keeps the state well formed and an exact bookkeeping exact.
pub proof fn lemma_batch_set_queued(s: SyncView)
    requires
        s.wf(),
    ensures
        batch_set_queued(s).wf(),
        s.counts_exact() ==> batch_set_queued(s).counts_exact(),
{
    let t = batch_set_queued(s);
    if s.active_cluster is Some && s.active_cluster.unwrap().next_step() is Request {
        let c = s.active_cluster.unwrap();
        let request = c.next_step()->Request_0;
        let job = JobView::PushBatchSet(c.id, request.epoch_id, request.epoch_number);
        let n = s.job_queue.len() as int;
        assert(c.delivered().wf());
        assert forall|i: int| 0 <= i < t.job_queue.len() implies (
        #[trigger] t.job_queue[i] matches JobView::FinishCluster(c, _) ==> c.wf()) by {
            if i < n {
                assert(s.job_queue[i] matches JobView::FinishCluster(c, _) ==> c.wf());
            }
        }
        assert forall|i: int| 0 <= i < t.job_queue.len() implies (#[trigger] t.job_queue[i]).cluster_id()
            < t.next_cluster_id by {
            if i < n {
                assert(s.job_queue[i].cluster_id() < s.next_cluster_id);
            }
        }
        assert forall|i: int| 0 <= i < t.job_queue.len() implies #[trigger] t.job_in_order(i) by {
            if i < n {
                assert(s.job_in_order(i));
            }
        }
        assert forall|id: u64| #[trigger] t.count_live(has_id(id)) <= 1 by {
            lemma_finishing_push(s.job_queue, job, has_id(id));
            assert(s.count_live(has_id(id)) <= 1);
        }
        if s.counts_exact() {
            assert forall|peer: PeerId| count_of(t.peers, peer) == #[trigger] t.occurrences(
                peer,
            ) by {
                lemma_finishing_push(s.job_queue, job, holds_peer(peer));
                assert(count_of(s.peers, peer) == s.occurrences(peer));
            }
        }
    }
}

/// A failed request keeps the state well formed and an exact bookkeeping
/// exact.
pub proof fn lemma_request_failed(s: SyncView)
    requires
        s.wf(),
    ensures
        request_failed(s).wf(),
        s.counts_exact() ==> request_failed(s).counts_exact(),
{
    let t = request_failed(s);
    if s.active_cluster is Some && s.active_cluster.unwrap().next_step() is Request {
        let c = s.active_cluster.unwrap();
        assert(c.failed().wf());
        assert forall|i: int| 0 <= i < t.job_queue.len() implies #[trigger] t.job_in_order(i) by {
            assert(s.job_in_order(i));
        }
        assert forall|id: u64| #[trigger] t.count_live(has_id(id)) <= 1 by {
            assert(s.count_live(has_id(id)) <= 1);
        }
        if s.counts_exact() {
            assert forall|peer: PeerId| count_of(t.peers, peer) == #[trigger] t.occurrences(
                peer,
            ) by {
                assert(count_of(s.peers, peer) == s.occurrences(peer));
            }
        }
    }
}

/// One turn for the cluster to pull keeps the state well formed and an exact
/// bookkeeping exact.
pub proof fn lemma_cluster_polled(s: SyncView, current_epoch: usize, max_jobs: usize)
    requires
        s.wf(),
    ensures
        cluster_polled(s, current_epoch, max_jobs).0.wf(),
        s.counts_exact() ==> cluster_polled(s, current_epoch, max_jobs).0.counts_exact(),
{
    lemma_activated(s, current_epoch);
    let a = activated(s, current_epoch);
    if a.active_cluster is Some && a.job_queue.len() < max_jobs {
        match a.active_cluster.unwrap().next_step() {
            ClusterPoll::Request(_) => {},
            ClusterPoll::Finished(result) => {
                lemma_active_ended(a, result);
            },
        }
    }
}

/// After each of a list of peers without duplicates left one cluster, those
/// on the list have one cluster less, and the others what they had. The peers
/// to probe again are those on the list that had one cluster at most.
pub proof fn lemma_released_all(peers: Map<PeerId, u32>, leaving: Seq<PeerId>, peer: PeerId)
    requires
        leaving.no_duplicates(),
    ensures
        count_of(released_all(peers, leaving).0, peer) == if leaving.contains(peer) && count_of(
            peers,
            peer,
        ) > 0 {
            count_of(peers, peer) - 1
        } else {
            count_of(peers, peer) as int
        },
        released_all(peers, leaving).1.contains(peer) <==> leaving.contains(peer) && count_of(
            peers,
            peer,
        ) <= 1,
    decreases leaving.len(),
{
    if leaving.len() > 0 {
        let rest = leaving.drop_last();
        let last = leaving.last();
        lemma_released_all(peers, rest, peer);
        lemma_released_all(peers, rest, last);
        let before = released_all(peers, rest);
        let after = released_all(peers, leaving);
        assert(leaving[leaving.len() - 1] == last);
        if rest.contains(last) {
            let k = choose|k: int| 0 <= k < rest.len() && rest[k] == last;
            assert(leaving[k] == last);
        }
        if rest.contains(peer) {
            let k = choose|k: int| 0 <= k < rest.len() && rest[k] == peer;
            assert(leaving[k] == peer);
        }
        if leaving.contains(peer) && peer != last {
            let k = choose|k: int| 0 <= k < leaving.len() && leaving[k] == peer;
            assert(rest[k] == peer);
        }
        if before.1.contains(peer) {
            let k = choose|k: int| 0 <= k < before.1.len() && before.1[k] == peer;
            assert(before.1.push(last)[k] == peer);
        }
        if after.1.contains(peer) && after.1 != before.1 {
            let k = choose|k: int| 0 <= k < after.1.len() && after.1[k] == peer;
            if k < before.1.len() {
                assert(before.1[k] == peer);
            }
        }
        if peer == last && count_of(before.0, last) <= 1 {
            assert(before.1.push(last)[before.1.len() as int] == last);
        }
    }
}

/// The end of a cluster keeps the state well formed. Where the bookkeeping
/// was exact but for the cluster that ends, it is exact afterwards.
pub proof fn lemma_finished(s: SyncView, gone: ClusterView, result: SyncClusterResult)
    requires
        s.wf(),
        gone.wf(),
    ensures
        finished(s, gone, result).0.wf(),
        counts_exact_but(s, gone) ==> finished(s, gone, result).0.counts_exact(),
        forall|peer: PeerId|
            finished(s, gone, result).1.contains(peer) <==> result != SyncClusterResult::Error
                && gone.peers.contains(peer) && count_of(s.peers, peer) <= 1,
{
    let t = finished(s, gone, result).0;
    assert forall|i: int| 0 <= i < t.job_queue.len() implies #[trigger] t.job_in_order(i) by {
        assert(s.job_in_order(i));
    }
    assert forall|id: u64| #[trigger] t.count_live(has_id(id)) <= 1 by {
        assert(s.count_live(has_id(id)) <= 1);
    }
    assert forall|peer: PeerId|
        finished(s, gone, result).1.contains(peer) <==> result != SyncClusterResult::Error
            && gone.peers.contains(peer) && count_of(s.peers, peer) <= 1 by {
        lemma_released_all(s.peers, gone.peers, peer);
    }
    if counts_exact_but(s, gone) {
        assert forall|peer: PeerId| count_of(t.peers, peer) == #[trigger] t.occurrences(peer) by {
            lemma_released_all(s.peers, gone.peers, peer);
            assert(count_of(s.peers, peer) == s.occurrences(peer) + if gone.peers.contains(peer) {
                1nat
            } else {
                0nat
            });
        }
    }
}

/// How many jobs `evicted` takes from the head of the queue.
pub open spec fn evicted_len(jobs: Seq<JobView>, cluster_id: u64) -> nat
    decreases jobs.len(),
{
    if jobs.len() == 0 || jobs[0].cluster_id() != cluster_id {
        0
    } else {
        match jobs[0] {
            JobView::FinishCluster(_, _) => 1,
            JobView::PushBatchSet(_, _, _) => 1 + evicted_len(jobs.skip(1), cluster_id),
        }
    }
}

/// What is evicted is a run of commits of the cluster at the head of the
/// queue and, where it is there, the end of that cluster right after them.
pub proof fn lemma_evicted(jobs: Seq<JobView>, cluster_id: u64)
    ensures
        evicted_len(jobs, cluster_id) <= jobs.len(),
        evicted(jobs, cluster_id).0 == jobs.skip(evicted_len(jobs, cluster_id) as int),
        forall|k: int|
            0 <= k < evicted_len(jobs, cluster_id) ==> (#[trigger] jobs[k]).cluster_id()
                == cluster_id,
        forall|k: int|
            0 <= k < evicted_len(jobs, cluster_id) - 1 ==> #[trigger] jobs[k] is PushBatchSet,
        match evicted(jobs, cluster_id).1 {
            Some(c) => evicted_len(jobs, cluster_id) > 0 && c.id == cluster_id && (jobs[evicted_len(
                jobs,
                cluster_id,
            ) - 1] matches JobView::FinishCluster(d, _) && d == c),
            None => (forall|k: int|
                0 <= k < evicted_len(jobs, cluster_id) ==> #[trigger] jobs[k] is PushBatchSet) && (
            evicted_len(jobs, cluster_id) == jobs.len() || jobs[evicted_len(
                jobs,
                cluster_id,
            ) as int].cluster_id() != cluster_id),
        },
    decreases jobs.len(),
{
    if jobs.len() == 0 || jobs[0].cluster_id() != cluster_id {
        assert(jobs.skip(0) =~= jobs);
    } else {
        match jobs[0] {
            JobView::FinishCluster(_, _) => {},
            JobView::PushBatchSet(_, _, _) => {
                let rest = jobs.skip(1);
                lemma_evicted(rest, cluster_id);
                let n = evicted_len(rest, cluster_id) as int;
                assert(rest.skip(n) =~= jobs.skip(n + 1));
                assert forall|k: int| 0 <= k < n + 1 implies (#[trigger] jobs[k]).cluster_id()
                    == cluster_id by {
                    if k > 0 {
                        assert(rest[k - 1] == jobs[k]);
                    }
                }
                assert forall|k: int| 0 <= k < n implies #[trigger] jobs[k] is PushBatchSet by {
                    if k > 0 {
                        assert(rest[k - 1] == jobs[k]);
                    }
                }
                if evicted(jobs, cluster_id).1 is None {
                    assert forall|k: int| 0 <= k < n + 1 implies #[trigger] jobs[k] is PushBatchSet by {
                        if k > 0 {
                            assert(rest[k - 1] == jobs[k]);
                        }
                    }
                    if n < rest.len() {
                        assert(rest[n] == jobs[n + 1]);
                    }
                } else {
                    assert(rest[n - 1] == jobs[n]);
                }
            },
        }
    }
}

/// A queue without jobs at its head that are all commits counts what it
/// counted.
pub proof fn lemma_finishing_skip_commits(jobs: Seq<JobView>, n: int, pred: spec_fn(ClusterView) -> bool)
    requires
        0 <= n <= jobs.len(),
        forall|k: int| 0 <= k < n ==> #[trigger] jobs[k] is PushBatchSet,
    ensures
        count_finishing(jobs.skip(n), pred) == count_finishing(jobs, pred),
{
    assert(jobs =~= jobs.take(n) + jobs.skip(n));
    lemma_finishing_add(jobs.take(n), jobs.skip(n), pred);
    lemma_finishing_bounds(jobs.take(n), pred);
    assert forall|k: int| 0 <= k < n implies job_counts(#[trigger] jobs.take(n)[k], pred) == 0 by {
        assert(jobs[k] is PushBatchSet);
    }
}

/// The state without the first `n` jobs of its queue.
pub open spec fn without_jobs(s: SyncView, n: int) -> SyncView {
    SyncView { job_queue: s.job_queue.skip(n), ..s }
}

/// Dropping jobs from the head of the queue keeps what is well formed about
/// the clusters and the order of the queue.
pub proof fn lemma_without_jobs(s: SyncView, n: int)
    requires
        s.wf(),
        0 <= n <= s.job_queue.len(),
    ensures
        without_jobs(s, n).clusters_wf(),
        without_jobs(s, n).ids_below_next(),
        without_jobs(s, n).queue_ordered(),
{
    let t = without_jobs(s, n);
    assert forall|i: int| 0 <= i < t.job_queue.len() implies (
    #[trigger] t.job_queue[i] matches JobView::FinishCluster(c, _) ==> c.wf()) by {
        assert(s.job_queue[i + n] matches JobView::FinishCluster(c, _) ==> c.wf());
    }
    assert forall|i: int| 0 <= i < t.job_queue.len() implies (#[trigger] t.job_queue[i]).cluster_id()
        < t.next_cluster_id by {
        assert(s.job_queue[i + n].cluster_id() < s.next_cluster_id);
    }
    assert forall|i: int| 0 <= i < t.job_queue.len() implies #[trigger] t.job_in_order(i) by {
        assert(s.job_in_order(i + n));
    }
}

/// Dropping the jobs up to and with the end of a cluster takes that cluster
/// from the live clusters.
pub proof fn lemma_without_finishing(s: SyncView, n: int, pred: spec_fn(ClusterView) -> bool)
    requires
        0 <= n < s.job_queue.len(),
        forall|k: int| 0 <= k < n ==> #[trigger] s.job_queue[k] is PushBatchSet,
    ensures
        without_jobs(s, n + 1).count_live(pred) + job_counts(s.job_queue[n], pred) == s.count_live(
            pred,
        ),
{
    lemma_finishing_split(s.job_queue, n, pred);
    lemma_finishing_bounds(s.job_queue.take(n), pred);
    assert forall|k: int| 0 <= k < n implies job_counts(#[trigger] s.job_queue.take(n)[k], pred)
        == 0 by {
        assert(s.job_queue[k] is PushBatchSet);
    }
}

/// The commit at the head of the queue coming back keeps the state well
/// formed and an exact bookkeeping exact, however the commit went.
pub proof fn lemma_push_completed(s: SyncView, result: SyncClusterResult)
    requires
        s.wf(),
    ensures
        push_completed(s, result).0.wf(),
        s.counts_exact() ==> push_completed(s, result).0.counts_exact(),
{
    let t = push_completed(s, result).0;
    let q = s.job_queue;
    if q.len() == 0 || q[0] is FinishCluster {
    } else if result == SyncClusterResult::EpochSuccessful {
        lemma_without_jobs(s, 1);
        assert(t == without_jobs(s, 1));
        assert forall|id: u64| #[trigger] t.count_live(has_id(id)) <= 1 by {
            lemma_finishing_skip_commits(q, 1, has_id(id));
            assert(s.count_live(has_id(id)) <= 1);
        }
        if s.counts_exact() {
            assert forall|peer: PeerId| count_of(t.peers, peer) == #[trigger] t.occurrences(
                peer,
            ) by {
                lemma_finishing_skip_commits(q, 1, holds_peer(peer));
                assert(count_of(s.peers, peer) == s.occurrences(peer));
            }
        }
    } else {
        let cluster_id = q[0].cluster_id();
        let rest = q.skip(1);
        let gone = evicted(rest, cluster_id);
        lemma_evicted(rest, cluster_id);
        let n = evicted_len(rest, cluster_id) as int;
        assert(rest.skip(n) =~= q.skip(n + 1));
        assert forall|k: int| 0 <= k < n implies #[trigger] q[k] is PushBatchSet by {
            if k > 0 {
                assert(rest[k - 1] == q[k]);
            }
        }
        match gone.1 {
            Some(c) => {
                let u = without_jobs(s, n + 1);
                assert(rest[n - 1] == q[n]);
                assert(q[n] matches JobView::FinishCluster(d, _) ==> d.wf());
                lemma_without_jobs(s, n + 1);
                assert forall|id: u64| #[trigger] u.count_live(has_id(id)) <= 1 by {
                    lemma_without_finishing(s, n, has_id(id));
                    assert(s.count_live(has_id(id)) <= 1);
                }
                lemma_finished(u, c, result);
                if s.counts_exact() {
                    assert forall|peer: PeerId|
                        count_of(u.peers, peer) == #[trigger] u.occurrences(peer)
                            + if c.peers.contains(peer) {
                            1nat
                        } else {
                            0nat
                        } by {
                        lemma_without_finishing(s, n, holds_peer(peer));
                        assert(count_of(s.peers, peer) == s.occurrences(peer));
                    }
                }
            },
            None => {
                // All that followed the commit were commits of the same
                // cluster: the queue is empty now.
                if n < rest.len() {
                    assert(rest[n] == q[n + 1]);
                    if n > 0 {
                        assert(rest[n - 1] == q[n]);
                    }
                    assert(s.job_in_order(n));
                }
                assert(q.skip(n + 1) =~= Seq::<JobView>::empty());
                assert(rest[n - 1] == q[n] || n == 0);
                assert(s.job_in_order(n));
                let c = s.active_cluster.unwrap();
                let u = SyncView { job_queue: gone.0, active_cluster: None, ..s };
                assert(forall|k: int| 0 <= k < q.len() ==> #[trigger] q[k] is PushBatchSet) by {
                    assert forall|k: int| 0 <= k < q.len() implies #[trigger] q[k] is PushBatchSet by {
                        if k > 0 {
                            assert(rest[k - 1] == q[k]);
                        }
                    }
                }
                assert(u.clusters_wf());
                assert(u.ids_below_next());
                assert(u.queue_ordered());
                assert forall|id: u64| #[trigger] u.count_live(has_id(id)) <= 1 by {
                    lemma_finishing_skip_commits(q, q.len() as int, has_id(id));
                    assert(q.skip(q.len() as int) =~= Seq::<JobView>::empty());
                    assert(s.count_live(has_id(id)) <= 1);
                }
                lemma_finished(u, c, result);
                if s.counts_exact() {
                    assert forall|peer: PeerId|
                        count_of(u.peers, peer) == #[trigger] u.occurrences(peer)
                            + if c.peers.contains(peer) {
                            1nat
                        } else {
                            0nat
                        } by {
                        lemma_finishing_skip_commits(q, q.len() as int, holds_peer(peer));
                        assert(q.skip(q.len() as int) =~= Seq::<JobView>::empty());
                        assert(count_of(s.peers, peer) == s.occurrences(peer));
                    }
                }
            },
        }
    }
}

/// Processing the end of a cluster at the head of the queue keeps the state
/// well formed and an exact bookkeeping exact.
pub proof fn lemma_finish_completed(s: SyncView)
    requires
        s.wf(),
    ensures
        finish_completed(s).0.wf(),
        s.counts_exact() ==> finish_completed(s).0.counts_exact(),
{
    let q = s.job_queue;
    if q.len() > 0 && q[0] is FinishCluster {
        let c = q[0]->FinishCluster_0;
        let result = q[0]->FinishCluster_1;
        let u = without_jobs(s, 1);
        assert(q[0] matches JobView::FinishCluster(d, _) ==> d.wf());
        lemma_without_jobs(s, 1);
        assert forall|id: u64| #[trigger] u.count_live(has_id(id)) <= 1 by {
            lemma_without_finishing(s, 0, has_id(id));
            assert(s.count_live(has_id(id)) <= 1);
        }
        lemma_finished(u, c, result);
        if s.counts_exact() {
            assert forall|peer: PeerId|
                count_of(u.peers, peer) == #[trigger] u.occurrences(peer) + if c.peers.contains(
                    peer,
                ) {
                    1nat
                } else {
                    0nat
                } by {
                lemma_without_finishing(s, 0, holds_peer(peer));
                assert(count_of(s.peers, peer) == s.occurrences(peer));
            }
        }
    }
}

/// A peer that leaves the network leaves a well-formed state behind, in
/// which it is in no cluster; an exact bookkeeping stays exact.
pub proof fn lemma_peer_gone(s: SyncView, peer: PeerId)
    requires
        s.wf(),
    ensures
        peer_gone(s, peer).wf(),
        peer_gone(s, peer).occurrences(peer) == 0,
        s.counts_exact() ==> peer_gone(s, peer).counts_exact(),
{
    let t = peer_gone(s, peer);
    assert forall|k: int| 0 <= k < t.epoch_clusters.len() implies (#[trigger] t.epoch_clusters[k]).wf()
        && t.epoch_clusters[k].num_epochs_finished == 0 && t.epoch_clusters[k].id
        < t.next_cluster_id by {
        assert(s.epoch_clusters[k].wf());
        lemma_remove_peer(s.epoch_clusters[k], peer);
    }
    assert forall|k: int| 0 <= k < t.checkpoint_clusters.len() implies (
    #[trigger] t.checkpoint_clusters[k]).wf() && t.checkpoint_clusters[k].num_epochs_finished == 0
        && t.checkpoint_clusters[k].id < t.next_cluster_id by {
        assert(s.checkpoint_clusters[k].wf());
        lemma_remove_peer(s.checkpoint_clusters[k], peer);
    }
    if s.active_cluster is Some {
        lemma_remove_peer(s.active_cluster.unwrap(), peer);
    }
    assert forall|k: int| 0 <= k < t.job_queue.len() implies (
    #[trigger] t.job_queue[k] matches JobView::FinishCluster(c, _) ==> c.wf()) by {
        assert(s.job_queue[k] matches JobView::FinishCluster(c, _) ==> c.wf());
        if s.job_queue[k] is FinishCluster {
            lemma_remove_peer(s.job_queue[k]->FinishCluster_0, peer);
        }
    }
    assert forall|k: int| 0 <= k < t.job_queue.len() implies (#[trigger] t.job_queue[k]).cluster_id()
        < t.next_cluster_id by {
        assert(s.job_queue[k].cluster_id() < s.next_cluster_id);
    }
    assert forall|i: int| 0 <= i < t.job_queue.len() implies #[trigger] t.job_in_order(i) by {
        assert(s.job_in_order(i));
    }
    assert forall|id: u64| #[trigger] t.count_live(has_id(id)) <= 1 by {
        lemma_count_pointwise(t.epoch_clusters, has_id(id), s.epoch_clusters, has_id(id));
        lemma_count_pointwise(t.checkpoint_clusters, has_id(id), s.checkpoint_clusters, has_id(id));
        lemma_finishing_pointwise(t.job_queue, has_id(id), s.job_queue, has_id(id));
        assert(s.count_live(has_id(id)) <= 1);
    }
    assert forall|other: PeerId|
        #[trigger] t.occurrences(other) == if other == peer {
            0nat
        } else {
            s.occurrences(other)
        } by {
        let none = |c: ClusterView| false;
        let pred = holds_peer(other);
        assert forall|k: int| 0 <= k < t.epoch_clusters.len() implies pred(
            #[trigger] t.epoch_clusters[k],
        ) == (if other == peer {
            none(s.epoch_clusters[k])
        } else {
            pred(s.epoch_clusters[k])
        }) by {
            assert(s.epoch_clusters[k].wf());
            lemma_remove_peer(s.epoch_clusters[k], peer);
        }
        assert forall|k: int| 0 <= k < t.checkpoint_clusters.len() implies pred(
            #[trigger] t.checkpoint_clusters[k],
        ) == (if other == peer {
            none(s.checkpoint_clusters[k])
        } else {
            pred(s.checkpoint_clusters[k])
        }) by {
            assert(s.checkpoint_clusters[k].wf());
            lemma_remove_peer(s.checkpoint_clusters[k], peer);
        }
        assert forall|k: int| 0 <= k < t.job_queue.len() implies job_counts(
            #[trigger] t.job_queue[k],
            pred,
        ) == (if other == peer {
            job_counts(s.job_queue[k], none)
        } else {
            job_counts(s.job_queue[k], pred)
        }) by {
            assert(s.job_queue[k] matches JobView::FinishCluster(c, _) ==> c.wf());
            if s.job_queue[k] is FinishCluster {
                lemma_remove_peer(s.job_queue[k]->FinishCluster_0, peer);
            }
        }
        if other == peer {
            lemma_count_pointwise(t.epoch_clusters, pred, s.epoch_clusters, none);
            lemma_count_pointwise(t.checkpoint_clusters, pred, s.checkpoint_clusters, none);
            lemma_finishing_pointwise(t.job_queue, pred, s.job_queue, none);
            lemma_count_bounds(s.epoch_clusters, none);
            lemma_count_bounds(s.checkpoint_clusters, none);
            lemma_finishing_bounds(s.job_queue, none);
        } else {
            lemma_count_pointwise(t.epoch_clusters, pred, s.epoch_clusters, pred);
            lemma_count_pointwise(t.checkpoint_clusters, pred, s.checkpoint_clusters, pred);
            lemma_finishing_pointwise(t.job_queue, pred, s.job_queue, pred);
        }
    }
    if s.counts_exact() {
        assert forall|other: PeerId| count_of(t.peers, other) == #[trigger] t.occurrences(
            other,
        ) by {
            assert(count_of(s.peers, other) == s.occurrences(other));
        }
    }
}

/// The cluster of a commit in the queue is live: its end waits further back
/// in the queue, or it is the cluster that is being pulled.
pub proof fn lemma_commit_has_live_cluster(s: SyncView, i: int)
    requires
        s.queue_ordered(),
        0 <= i < s.job_queue.len(),
        s.job_queue[i] is PushBatchSet,
    ensures
        (exists|k: int|
            i < k < s.job_queue.len() && #[trigger] s.job_queue[k] is FinishCluster
                && s.job_queue[k].cluster_id() == s.job_queue[i].cluster_id()) || (
        s.active_cluster matches Some(c) && c.id == s.job_queue[i].cluster_id()),
    decreases s.job_queue.len() - i,
{
    assert(s.job_in_order(i));
    if i + 1 < s.job_queue.len() {
        if s.job_queue[i + 1] is PushBatchSet {
            lemma_commit_has_live_cluster(s, i + 1);
        } else {
            assert(s.job_queue[i + 1] is FinishCluster);
        }
    }
}

/// The commits of one cluster wait in the queue in the order of their
/// epochs: of two commits of the same cluster, the one further back in the
/// queue is the commit of the later epoch. As the queue is emptied from its
/// head, the epochs of a cluster are committed in ascending order.
pub proof fn lemma_commits_ascend(s: SyncView, i: int, j: int)
    requires
        s.wf(),
        0 <= i < j < s.job_queue.len(),
        s.job_queue[i] is PushBatchSet,
        s.job_queue[j] is PushBatchSet,
        s.job_queue[i].cluster_id() == s.job_queue[j].cluster_id(),
    ensures
        s.job_queue[i]->PushBatchSet_2 < s.job_queue[j]->PushBatchSet_2,
        s.job_queue[j]->PushBatchSet_2 - s.job_queue[i]->PushBatchSet_2 == j - i,
    decreases j - i,
{
    let q = s.job_queue;
    let id = q[i].cluster_id();
    assert(s.job_in_order(i));
    if q[i + 1] is PushBatchSet {
        if i + 1 < j {
            lemma_commits_ascend(s, i + 1, j);
        }
    } else {
        // The cluster has ended before the later commit, and yet is live
        // behind it: two live clusters would share an id.
        let pred = has_id(id);
        lemma_commit_has_live_cluster(s, j);
        lemma_finishing_split(q, i + 1, pred);
        lemma_finishing_bounds(q.skip(i + 2), pred);
        if s.active_cluster matches Some(c) && c.id == id {
        } else {
            let k = choose|k: int|
                j < k < q.len() && #[trigger] q[k] is FinishCluster && q[k].cluster_id() == id;
            assert(q.skip(i + 2)[k - (i + 2)] == q[k]);
            assert(job_counts(q.skip(i + 2)[k - (i + 2)], pred) == 1);
        }
        assert(s.count_live(pred) >= 2);
        assert(s.count_live(pred) <= 1);
    }
}

/// Whether a state is well formed does not depend on the bookkeeping.
pub proof fn lemma_wf_ignores_peers(s: SyncView, peers: Map<PeerId, u32>)
    requires
        s.wf(),
    ensures
        (SyncView { peers, ..s }).wf(),
{
    let t = SyncView { peers, ..s };
    assert forall|i: int| 0 <= i < t.job_queue.len() implies #[trigger] t.job_in_order(i) by {
        assert(s.job_in_order(i));
    }
    assert forall|id: u64| #[trigger] t.count_live(has_id(id)) <= 1 by {
        assert(s.count_live(has_id(id)) <= 1);
    }
}

/// What the scheduler takes leaves a well-formed state behind.
pub proof fn lemma_popped_wf(s: SyncView, current_epoch: usize)
    requires
        s.wf(),
    ensures
        popped(s, current_epoch).0.wf(),
{
    let t = popped(s, current_epoch).0;
    lemma_popped(s, current_epoch, |c: ClusterView| true);
    assert forall|id: u64| #[trigger] t.count_live(has_id(id)) <= 1 by {
        lemma_preds_look_at_id_and_peers(id, 0);
        lemma_popped(s, current_epoch, has_id(id));
        assert(s.count_live(has_id(id)) <= 1);
    }
}

/// Evicting the jobs of a cluster from the head of the queue leaves a
/// well-formed state behind.
pub proof fn lemma_evicted_wf(s: SyncView, cluster_id: u64)
    requires
        s.wf(),
    ensures
        (SyncView { job_queue: evicted(s.job_queue, cluster_id).0, ..s }).wf(),
        evicted(s.job_queue, cluster_id).1 matches Some(c) ==> c.wf(),
{
    let q = s.job_queue;
    lemma_evicted(q, cluster_id);
    let n = evicted_len(q, cluster_id) as int;
    let t = without_jobs(s, n);
    lemma_without_jobs(s, n);
    assert forall|id: u64| #[trigger] t.count_live(has_id(id)) <= 1 by {
        assert(s.count_live(has_id(id)) <= 1);
        if evicted(q, cluster_id).1 is Some {
            lemma_without_finishing(s, n - 1, has_id(id));
        } else {
            lemma_finishing_skip_commits(q, n, has_id(id));
        }
    }
    if evicted(q, cluster_id).1 is Some {
        assert(q[n - 1] matches JobView::FinishCluster(d, _) ==> d.wf());
    }
}

/// The end of a cluster leaves the state well formed, whatever the cluster.
pub proof fn lemma_finished_wf(s: SyncView, gone: ClusterView, result: SyncClusterResult)
    requires
        s.wf(),
    ensures
        finished(s, gone, result).0.wf(),
{
    lemma_wf_ignores_peers(s, finished(s, gone, result).0.peers);
}

/// No job of a cluster stands behind the end of that cluster: the cluster
/// would be live a second time.
pub proof fn lemma_nothing_follows_the_end(s: SyncView, at: int, j: int)
    requires
        s.wf(),
        0 <= at < j < s.job_queue.len(),
        s.job_queue[at] is FinishCluster,
    ensures
        s.job_queue[at].cluster_id() != s.job_queue[j].cluster_id(),
{
    let q = s.job_queue;
    let id = q[at].cluster_id();
    let pred = has_id(id);
    if q[j].cluster_id() == id {
        lemma_finishing_split(q, at, pred);
        lemma_finishing_bounds(q.skip(at + 1), pred);
        if q[j] is FinishCluster {
            assert(q.skip(at + 1)[j - (at + 1)] == q[j]);
            assert(job_counts(q.skip(at + 1)[j - (at + 1)], pred) == 1);
        } else {
            lemma_commit_has_live_cluster(s, j);
            if s.active_cluster matches Some(c) && c.id == id {
            } else {
                let later = choose|later: int|
                    j < later < q.len() && #[trigger] q[later] is FinishCluster
                        && q[later].cluster_id() == id;
                assert(q.skip(at + 1)[later - (at + 1)] == q[later]);
                assert(job_counts(q.skip(at + 1)[later - (at + 1)], pred) == 1);
            }
        }
        assert(s.count_live(pred) >= 2);
        assert(s.count_live(pred) <= 1);
    }
}

/// The jobs of one cluster stand together in the queue: between two jobs of
/// a cluster there are only jobs of that cluster, all of them commits. So the
/// end of a cluster is processed after all its commits.
pub proof fn lemma_jobs_of_a_cluster_are_contiguous(s: SyncView, i: int, j: int, k: int)
    requires
        s.wf(),
        0 <= i <= k < j < s.job_queue.len(),
        s.job_queue[i].cluster_id() == s.job_queue[j].cluster_id(),
    ensures
        s.job_queue[k] is PushBatchSet,
        s.job_queue[k].cluster_id() == s.job_queue[i].cluster_id(),
    decreases k - i,
{
    let q = s.job_queue;
    if k > i {
        lemma_jobs_of_a_cluster_are_contiguous(s, i, j, k - 1);
        assert(s.job_in_order(k - 1));
    }
    if q[k] is FinishCluster {
        lemma_nothing_follows_the_end(s, k, j);
    }
}

/// The clusters of the pools, the cluster that is being pulled and the
/// clusters that wait for their end all have different ids. In particular the
/// id of the cluster that is being pulled belongs to no cluster of a pool.
pub proof fn lemma_ids_are_distinct(s: SyncView)
    requires
        s.wf(),
    ensures
        forall|i: int, j: int|
            0 <= i < j < s.epoch_clusters.len() ==> (#[trigger] s.epoch_clusters[i]).id != (
            #[trigger] s.epoch_clusters[j]).id,
        forall|i: int, j: int|
            0 <= i < j < s.checkpoint_clusters.len() ==> (#[trigger] s.checkpoint_clusters[i]).id
                != (#[trigger] s.checkpoint_clusters[j]).id,
        forall|i: int, j: int|
            0 <= i < s.epoch_clusters.len() && 0 <= j < s.checkpoint_clusters.len() ==> (
            #[trigger] s.epoch_clusters[i]).id != (#[trigger] s.checkpoint_clusters[j]).id,
        s.active_cluster matches Some(c) ==> {
            &&& forall|i: int|
                0 <= i < s.epoch_clusters.len() ==> (#[trigger] s.epoch_clusters[i]).id != c.id
            &&& forall|i: int|
                0 <= i < s.checkpoint_clusters.len() ==> (#[trigger] s.checkpoint_clusters[i]).id
                    != c.id
        },
{
    assert forall|i: int, j: int| 0 <= i < j < s.epoch_clusters.len() implies (
    #[trigger] s.epoch_clusters[i]).id != (#[trigger] s.epoch_clusters[j]).id by {
        let pool = s.epoch_clusters;
        let pred = has_id(pool[i].id);
        if pool[j].id == pool[i].id {
            lemma_count_split(pool, i, pred);
            lemma_count_bounds(pool.skip(i + 1), pred);
            assert(pool.skip(i + 1)[j - (i + 1)] == pool[j]);
            assert(pred(pool.skip(i + 1)[j - (i + 1)]));
            assert(s.count_live(pred) >= 2);
        }
    }
    assert forall|i: int, j: int| 0 <= i < j < s.checkpoint_clusters.len() implies (
    #[trigger] s.checkpoint_clusters[i]).id != (#[trigger] s.checkpoint_clusters[j]).id by {
        let pool = s.checkpoint_clusters;
        let pred = has_id(pool[i].id);
        if pool[j].id == pool[i].id {
            lemma_count_split(pool, i, pred);
            lemma_count_bounds(pool.skip(i + 1), pred);
            assert(pool.skip(i + 1)[j - (i + 1)] == pool[j]);
            assert(pred(pool.skip(i + 1)[j - (i + 1)]));
            assert(s.count_live(pred) >= 2);
        }
    }
    assert forall|i: int, j: int|
        0 <= i < s.epoch_clusters.len() && 0 <= j < s.checkpoint_clusters.len() implies (
    #[trigger] s.epoch_clusters[i]).id != (#[trigger] s.checkpoint_clusters[j]).id by {
        let pred = has_id(s.epoch_clusters[i].id);
        if s.checkpoint_clusters[j].id == s.epoch_clusters[i].id {
            lemma_count_bounds(s.epoch_clusters, pred);
            lemma_count_bounds(s.checkpoint_clusters, pred);
            assert(pred(s.epoch_clusters[i]));
            assert(pred(s.checkpoint_clusters[j]));
            assert(s.count_live(pred) >= 2);
        }
    }
    if s.active_cluster is Some {
        let c = s.active_cluster.unwrap();
        let pred = has_id(c.id);
        assert(s.count_live(pred) <= 1);
        lemma_count_bounds(s.epoch_clusters, pred);
        lemma_count_bounds(s.checkpoint_clusters, pred);
        assert forall|i: int| 0 <= i < s.epoch_clusters.len() implies (
        #[trigger] s.epoch_clusters[i]).id != c.id by {
            if s.epoch_clusters[i].id == c.id {
                assert(pred(s.epoch_clusters[i]));
            }
        }
        assert forall|i: int| 0 <= i < s.checkpoint_clusters.len() implies (
        #[trigger] s.checkpoint_clusters[i]).id != c.id by {
            if s.checkpoint_clusters[i].id == c.id {
                assert(pred(s.checkpoint_clusters[i]));
            }
        }
    }
}

} // verus!
