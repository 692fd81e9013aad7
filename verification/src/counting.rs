//! Facts about counting clusters: how the counts of a pool, of the queue and
//! of the whole state follow the changes made to them.
use crate::cluster::{ClusterView, PeerId};
use crate::sync::{
    bumped_all, bumped_for, count_clusters, count_finishing, count_of, holds_peer, JobView,
    SyncView,
};
use vstd::prelude::*;

verus! {

/// A pool with one more cluster counts one more where that cluster counts.
pub proof fn lemma_count_push(
    clusters: Seq<ClusterView>,
    c: ClusterView,
    pred: spec_fn(ClusterView) -> bool,
)
    ensures
        count_clusters(clusters.push(c), pred) == count_clusters(clusters, pred) + if pred(c) {
            1nat
        } else {
            0nat
        },
{
    assert(clusters.push(c).drop_last() =~= clusters);
}

/// The count of two pools, one after the other, is the sum of their counts.
pub proof fn lemma_count_add(
    a: Seq<ClusterView>,
    b: Seq<ClusterView>,
    pred: spec_fn(ClusterView) -> bool,
)
    ensures
        count_clusters(a + b, pred) == count_clusters(a, pred) + count_clusters(b, pred),
    decreases b.len(),
{
    if b.len() == 0 {
        assert(a + b =~= a);
    } else {
        assert((a + b).drop_last() =~= a + b.drop_last());
        lemma_count_add(a, b.drop_last(), pred);
    }
}

/// Pools that agree cluster by cluster on two predicates have the same count.
pub proof fn lemma_count_pointwise(
    a: Seq<ClusterView>,
    f: spec_fn(ClusterView) -> bool,
    b: Seq<ClusterView>,
    g: spec_fn(ClusterView) -> bool,
)
    requires
        a.len() == b.len(),
        forall|k: int| 0 <= k < a.len() ==> f(#[trigger] a[k]) == g(b[k]),
    ensures
        count_clusters(a, f) == count_clusters(b, g),
    decreases a.len(),
{
    if a.len() > 0 {
        lemma_count_pointwise(a.drop_last(), f, b.drop_last(), g);
    }
}

/// No count is above the number of clusters; a pool of which no cluster
/// counts has the count zero, and one of which a cluster counts has not.
pub proof fn lemma_count_bounds(clusters: Seq<ClusterView>, pred: spec_fn(ClusterView) -> bool)
    ensures
        count_clusters(clusters, pred) <= clusters.len(),
        (forall|k: int| 0 <= k < clusters.len() ==> !pred(#[trigger] clusters[k]))
            <==> count_clusters(clusters, pred) == 0,
    decreases clusters.len(),
{
    if clusters.len() > 0 {
        lemma_count_bounds(clusters.drop_last(), pred);
        if count_clusters(clusters, pred) == 0 {
            assert forall|k: int| 0 <= k < clusters.len() implies !pred(#[trigger] clusters[k]) by {
                if k < clusters.len() - 1 {
                    assert(clusters.drop_last()[k] == clusters[k]);
                }
            }
        } else if count_clusters(clusters.drop_last(), pred) > 0 {
            let k = choose|k: int|
                0 <= k < clusters.drop_last().len() && pred(#[trigger] clusters.drop_last()[k]);
            assert(pred(clusters[k]));
        } else {
            assert(pred(clusters[clusters.len() - 1]));
        }
    }
}

/// Where one predicate implies another, its count is no higher.
pub proof fn lemma_count_monotone(
    clusters: Seq<ClusterView>,
    f: spec_fn(ClusterView) -> bool,
    g: spec_fn(ClusterView) -> bool,
)
    requires
        forall|c: ClusterView| #[trigger] f(c) ==> g(c),
    ensures
        count_clusters(clusters, f) <= count_clusters(clusters, g),
    decreases clusters.len(),
{
    if clusters.len() > 0 {
        lemma_count_monotone(clusters.drop_last(), f, g);
    }
}

/// A pool is its part before some position, the cluster at that position and
/// its part after it, and so is its count.
pub proof fn lemma_count_split(
    clusters: Seq<ClusterView>,
    at: int,
    pred: spec_fn(ClusterView) -> bool,
)
    requires
        0 <= at < clusters.len(),
    ensures
        count_clusters(clusters, pred) == count_clusters(clusters.take(at), pred) + (if pred(
            clusters[at],
        ) {
            1nat
        } else {
            0nat
        }) + count_clusters(clusters.skip(at + 1), pred),
{
    assert(clusters =~= clusters.take(at).push(clusters[at]) + clusters.skip(at + 1));
    lemma_count_add(clusters.take(at).push(clusters[at]), clusters.skip(at + 1), pred);
    lemma_count_push(clusters.take(at), clusters[at], pred);
}

/// Replacing one cluster changes the count by what the old and the new
/// cluster count.
pub proof fn lemma_count_update(
    clusters: Seq<ClusterView>,
    at: int,
    c: ClusterView,
    pred: spec_fn(ClusterView) -> bool,
)
    requires
        0 <= at < clusters.len(),
    ensures
        count_clusters(clusters.update(at, c), pred) + (if pred(clusters[at]) {
            1nat
        } else {
            0nat
        }) == count_clusters(clusters, pred) + if pred(c) {
            1nat
        } else {
            0nat
        },
{
    let after = clusters.update(at, c);
    lemma_count_split(clusters, at, pred);
    lemma_count_split(after, at, pred);
    assert(after.take(at) =~= clusters.take(at));
    assert(after.skip(at + 1) =~= clusters.skip(at + 1));
}

/// A queue with one more job counts one more where that job is the end of a
/// cluster that counts.
pub proof fn lemma_finishing_push(
    jobs: Seq<JobView>,
    job: JobView,
    pred: spec_fn(ClusterView) -> bool,
)
    ensures
        count_finishing(jobs.push(job), pred) == count_finishing(jobs, pred) + match job {
            JobView::FinishCluster(c, _) => if pred(c) {
                1nat
            } else {
                0nat
            },
            JobView::PushBatchSet(_, _, _) => 0nat,
        },
{
    assert(jobs.push(job).drop_last() =~= jobs);
}

/// The count of two queues, one after the other, is the sum of their counts.
pub proof fn lemma_finishing_add(a: Seq<JobView>, b: Seq<JobView>, pred: spec_fn(ClusterView) -> bool)
    ensures
        count_finishing(a + b, pred) == count_finishing(a, pred) + count_finishing(b, pred),
    decreases b.len(),
{
    if b.len() == 0 {
        assert(a + b =~= a);
    } else {
        assert((a + b).drop_last() =~= a + b.drop_last());
        lemma_finishing_add(a, b.drop_last(), pred);
    }
}

/// What one job counts.
pub open spec fn job_counts(job: JobView, pred: spec_fn(ClusterView) -> bool) -> nat {
    match job {
        JobView::FinishCluster(c, _) => if pred(c) {
            1
        } else {
            0
        },
        JobView::PushBatchSet(_, _, _) => 0,
    }
}

/// Queues that agree job by job on what they count have the same count.
pub proof fn lemma_finishing_pointwise(
    a: Seq<JobView>,
    f: spec_fn(ClusterView) -> bool,
    b: Seq<JobView>,
    g: spec_fn(ClusterView) -> bool,
)
    requires
        a.len() == b.len(),
        forall|k: int| 0 <= k < a.len() ==> job_counts(#[trigger] a[k], f) == job_counts(b[k], g),
    ensures
        count_finishing(a, f) == count_finishing(b, g),
    decreases a.len(),
{
    if a.len() > 0 {
        lemma_finishing_pointwise(a.drop_last(), f, b.drop_last(), g);
    }
}

/// A queue is its part before some position, the job at that position and
/// its part after it, and so is its count.
pub proof fn lemma_finishing_split(jobs: Seq<JobView>, at: int, pred: spec_fn(ClusterView) -> bool)
    requires
        0 <= at < jobs.len(),
    ensures
        count_finishing(jobs, pred) == count_finishing(jobs.take(at), pred) + job_counts(
            jobs[at],
            pred,
        ) + count_finishing(jobs.skip(at + 1), pred),
{
    assert(jobs =~= jobs.take(at).push(jobs[at]) + jobs.skip(at + 1));
    lemma_finishing_add(jobs.take(at).push(jobs[at]), jobs.skip(at + 1), pred);
    lemma_finishing_push(jobs.take(at), jobs[at], pred);
}

/// Replacing one job changes the count by what the old and the new job count.
pub proof fn lemma_finishing_update(
    jobs: Seq<JobView>,
    at: int,
    job: JobView,
    pred: spec_fn(ClusterView) -> bool,
)
    requires
        0 <= at < jobs.len(),
    ensures
        count_finishing(jobs.update(at, job), pred) + job_counts(jobs[at], pred) == count_finishing(
            jobs,
            pred,
        ) + job_counts(job, pred),
{
    let after = jobs.update(at, job);
    lemma_finishing_split(jobs, at, pred);
    lemma_finishing_split(after, at, pred);
    assert(after.take(at) =~= jobs.take(at));
    assert(after.skip(at + 1) =~= jobs.skip(at + 1));
}

/// A queue of which no job ends a cluster that counts has the count zero, and
/// one of which a job does has not; no count is above the number of jobs.
pub proof fn lemma_finishing_bounds(jobs: Seq<JobView>, pred: spec_fn(ClusterView) -> bool)
    ensures
        count_finishing(jobs, pred) <= jobs.len(),
        (forall|k: int| 0 <= k < jobs.len() ==> job_counts(#[trigger] jobs[k], pred) == 0)
            <==> count_finishing(jobs, pred) == 0,
    decreases jobs.len(),
{
    if jobs.len() > 0 {
        lemma_finishing_bounds(jobs.drop_last(), pred);
        if count_finishing(jobs, pred) == 0 {
            assert forall|k: int| 0 <= k < jobs.len() implies job_counts(#[trigger] jobs[k], pred)
                == 0 by {
                if k < jobs.len() - 1 {
                    assert(jobs.drop_last()[k] == jobs[k]);
                }
            }
        } else if count_finishing(jobs.drop_last(), pred) > 0 {
            let k = choose|k: int|
                0 <= k < jobs.drop_last().len() && job_counts(#[trigger] jobs.drop_last()[k], pred)
                    != 0;
            assert(job_counts(jobs[k], pred) != 0);
        } else {
            assert(job_counts(jobs[jobs.len() - 1], pred) != 0);
        }
    }
}

/// Where one predicate implies another, its count over a queue is no higher.
pub proof fn lemma_finishing_monotone(
    jobs: Seq<JobView>,
    f: spec_fn(ClusterView) -> bool,
    g: spec_fn(ClusterView) -> bool,
)
    requires
        forall|c: ClusterView| #[trigger] f(c) ==> g(c),
    ensures
        count_finishing(jobs, f) <= count_finishing(jobs, g),
    decreases jobs.len(),
{
    if jobs.len() > 0 {
        lemma_finishing_monotone(jobs.drop_last(), f, g);
    }
}

/// No peer is in more clusters than there are.
pub proof fn lemma_occurrences_bounded(s: SyncView, peer: PeerId)
    ensures
        s.occurrences(peer) <= s.num_live(),
{
    let all = |c: ClusterView| true;
    lemma_count_monotone(s.epoch_clusters, holds_peer(peer), all);
    lemma_count_monotone(s.checkpoint_clusters, holds_peer(peer), all);
    lemma_finishing_monotone(s.job_queue, holds_peer(peer), all);
}

/// The entry of a peer after it joined `n` more clusters.
pub open spec fn raised(count: u32, n: nat) -> u32 {
    if count + n <= u32::MAX {
        (count + n) as u32
    } else {
        u32::MAX
    }
}

/// After each of a list of peers without duplicates joined one more cluster,
/// those on the list have one more cluster, as far as the type goes, and the
/// others what they had.
pub proof fn lemma_bumped_all(peers: Map<PeerId, u32>, joined: Seq<PeerId>, peer: PeerId)
    requires
        joined.no_duplicates(),
    ensures
        count_of(bumped_all(peers, joined), peer) == raised(
            count_of(peers, peer),
            if joined.contains(peer) {
                1
            } else {
                0
            },
        ),
    decreases joined.len(),
{
    if joined.len() > 0 {
        let rest = joined.drop_last();
        lemma_bumped_all(peers, rest, peer);
        if joined.last() == peer {
            assert(joined[joined.len() - 1] == peer);
            if rest.contains(peer) {
                let k = choose|k: int| 0 <= k < rest.len() && rest[k] == peer;
                assert(joined[k] == peer);
            }
        } else {
            if joined.contains(peer) {
                let k = choose|k: int| 0 <= k < joined.len() && joined[k] == peer;
                assert(rest[k] == peer);
            }
            if rest.contains(peer) {
                let k = choose|k: int| 0 <= k < rest.len() && rest[k] == peer;
                assert(joined[k] == peer);
            }
        }
    }
}

/// After the peers of each of a list of clusters joined one more cluster, a
/// peer has as many clusters more as hold it, as far as the type goes.
pub proof fn lemma_bumped_for(peers: Map<PeerId, u32>, clusters: Seq<ClusterView>, peer: PeerId)
    requires
        forall|k: int| 0 <= k < clusters.len() ==> (#[trigger] clusters[k]).peers.no_duplicates(),
    ensures
        count_of(bumped_for(peers, clusters), peer) == raised(
            count_of(peers, peer),
            count_clusters(clusters, holds_peer(peer)),
        ),
    decreases clusters.len(),
{
    if clusters.len() > 0 {
        let rest = clusters.drop_last();
        assert forall|k: int| 0 <= k < rest.len() implies (#[trigger] rest[k]).peers.no_duplicates() by {
            assert(rest[k] == clusters[k]);
        }
        lemma_bumped_for(peers, rest, peer);
        lemma_bumped_all(bumped_for(peers, rest), clusters.last().peers, peer);
    }
}

} // verus!
