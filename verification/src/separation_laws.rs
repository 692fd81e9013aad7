//! What clustering keeps apart: clusters whose ranges overlap hold different
//! hashes for some epoch that both cover.
use crate::cluster::{lemma_fresh_single, ClusterView};
use crate::clustering_laws::{
    lemma_common_prefix, lemma_merge_step, lemma_merged_epochs, lemma_walk_keeps, walked,
};
use crate::clustering_model::{
    all_ids, clustered, common_prefix, match_queue, merge_all, merge_one, merge_start, merge_step,
    merged, merged_epochs, truncated_to_head, Merge, MergeStep,
};
use crate::epoch_ids::{ElectionHead, EpochIdsView};
use crate::queue_laws::lemma_best_index;
use crate::queue_model::{best_index, peer_gone, popped, swap_removed};
use crate::cluster::PeerId;
use crate::sync::SyncView;
use vstd::prelude::*;

verus! {

/// The first epoch that both clusters could cover: the later of their first
/// epochs.
pub open spec fn first_shared_epoch(a: ClusterView, b: ClusterView) -> int {
    if a.first_epoch_number >= b.first_epoch_number {
        a.first_epoch_number as int
    } else {
        b.first_epoch_number as int
    }
}

/// The ranges of the clusters overlap: there is an epoch that both cover.
pub open spec fn overlapping(a: ClusterView, b: ClusterView) -> bool {
    a.covers(first_shared_epoch(a, b)) && b.covers(first_shared_epoch(a, b))
}

/// Two clusters are told apart: where their ranges overlap, they hold
/// different hashes for some epoch that both cover.
pub open spec fn told_apart(a: ClusterView, b: ClusterView) -> bool {
    overlapping(a, b) ==> exists|epoch: int|
        a.covers(epoch) && b.covers(epoch) && #[trigger] a.epoch_id_at(epoch) != b.epoch_id_at(
            epoch,
        )
}

/// Two clusters are set apart: where their ranges overlap, they hold
/// different hashes for the first epoch that both cover.
pub open spec fn set_apart(a: ClusterView, b: ClusterView) -> bool {
    overlapping(a, b) ==> a.epoch_id_at(first_shared_epoch(a, b)) != b.epoch_id_at(
        first_shared_epoch(a, b),
    )
}

/// Any two clusters of the pool are told apart.
pub open spec fn pool_told_apart(pool: Seq<ClusterView>) -> bool {
    forall|i: int, j: int|
        0 <= i < j < pool.len() ==> told_apart(#[trigger] pool[i], #[trigger] pool[j])
}

/// Any two clusters of the pool are set apart.
pub open spec fn pool_set_apart(pool: Seq<ClusterView>) -> bool {
    forall|i: int, j: int|
        0 <= i < j < pool.len() ==> set_apart(#[trigger] pool[i], #[trigger] pool[j])
}

/// The ranges of two clusters overlap exactly when some epoch lies in both;
/// clusters that are set apart are told apart.
pub proof fn lemma_set_apart_is_told_apart(a: ClusterView, b: ClusterView)
    ensures
        overlapping(a, b) <==> exists|epoch: int| #[trigger] a.covers(epoch) && b.covers(epoch),
        set_apart(a, b) ==> told_apart(a, b),
        set_apart(a, b) <==> set_apart(b, a),
{
    let lo = first_shared_epoch(a, b);
    if overlapping(a, b) {
        assert(a.covers(lo) && b.covers(lo));
    }
    if exists|epoch: int| #[trigger] a.covers(epoch) && b.covers(epoch) {
        let epoch = choose|epoch: int| #[trigger] a.covers(epoch) && b.covers(epoch);
        assert(a.covers(lo) && b.covers(lo));
    }
}

/// A pool whose clusters are set apart has its clusters told apart.
pub proof fn lemma_pool_set_apart_is_told_apart(pool: Seq<ClusterView>)
    requires
        pool_set_apart(pool),
    ensures
        pool_told_apart(pool),
{
    assert forall|i: int, j: int| 0 <= i < j < pool.len() implies told_apart(
        #[trigger] pool[i],
        #[trigger] pool[j],
    ) by {
        lemma_set_apart_is_told_apart(pool[i], pool[j]);
    }
}

/// The ids of a peer as a run of epochs.
pub open spec fn history_of(e: EpochIdsView) -> ClusterView {
    ClusterView {
        id: 0,
        epoch_ids: e.ids,
        first_epoch_number: e.first_epoch_number,
        peers: Seq::empty(),
        num_epochs_finished: 0,
        next_peer: 0,
        failed_requests: 0,
    }
}

/// A hash stands for a block of one epoch: the two runs hold no hash at two
/// different epochs.
pub open spec fn one_epoch_per_hash(a: ClusterView, b: ClusterView) -> bool {
    forall|x: int, y: int|
        a.covers(x) && b.covers(y) && #[trigger] a.epoch_id_at(x) == #[trigger] b.epoch_id_at(y)
            ==> x == y
}

/// A block has one parent: where the two runs hold the same hash for an
/// epoch, they hold the same hash for the epoch before it, if both cover it.
pub open spec fn one_parent_per_hash(a: ClusterView, b: ClusterView) -> bool {
    forall|x: int|
        a.covers(x) && b.covers(x) && a.covers(x - 1) && b.covers(x - 1) && #[trigger] a.epoch_id_at(
            x,
        ) == b.epoch_id_at(x) ==> a.epoch_id_at(x - 1) == b.epoch_id_at(x - 1)
}

/// Runs of one chain agree backwards: where they hold the same hash for an
/// epoch, they hold the same hashes for all earlier epochs that both cover.
pub proof fn lemma_agree_backwards(a: ClusterView, b: ClusterView, from: int, to: int)
    requires
        one_parent_per_hash(a, b),
        to <= from,
        a.covers(from) && b.covers(from),
        a.covers(to) && b.covers(to),
        a.epoch_id_at(from) == b.epoch_id_at(from),
    ensures
        a.epoch_id_at(to) == b.epoch_id_at(to),
    decreases from - to,
{
    if to < from {
        assert(a.covers(from - 1) && b.covers(from - 1));
        lemma_agree_backwards(a, b, from - 1, to);
    }
}

/// The cluster agrees with the peer about the first epoch of the peer.
pub open spec fn agrees_at_first(c: ClusterView, e: EpochIdsView) -> bool {
    e.ids.len() > 0 && c.covers(e.first_epoch_number as int) && c.epoch_id_at(
        e.first_epoch_number as int,
    ) == e.ids[0]
}

/// The position of the first cluster that agrees with the peer about the
/// peer's first epoch.
pub open spec fn first_agreeing(clusters: Seq<ClusterView>, e: EpochIdsView) -> Option<int>
    decreases clusters.len(),
{
    if clusters.len() == 0 {
        None
    } else {
        match first_agreeing(clusters.drop_last(), e) {
            Some(k) => Some(k),
            None => if agrees_at_first(clusters.last(), e) {
                Some(clusters.len() - 1)
            } else {
                None
            },
        }
    }
}

/// The first agreeing cluster agrees, and none before it does.
pub proof fn lemma_first_agreeing(clusters: Seq<ClusterView>, e: EpochIdsView)
    ensures
        match first_agreeing(clusters, e) {
            Some(k) => 0 <= k < clusters.len() && agrees_at_first(clusters[k], e) && forall|j: int|
                0 <= j < k ==> !agrees_at_first(#[trigger] clusters[j], e),
            None => forall|j: int|
                0 <= j < clusters.len() ==> !agrees_at_first(#[trigger] clusters[j], e),
        },
    decreases clusters.len(),
{
    if clusters.len() > 0 {
        let rest = clusters.drop_last();
        lemma_first_agreeing(rest, e);
        match first_agreeing(rest, e) {
            Some(k) => {
                assert(rest[k] == clusters[k]);
                assert forall|j: int| 0 <= j < k implies !agrees_at_first(
                    #[trigger] clusters[j],
                    e,
                ) by {
                    assert(rest[j] == clusters[j]);
                }
            },
            None => {
                assert forall|j: int| 0 <= j < clusters.len() - 1 implies !agrees_at_first(
                    #[trigger] clusters[j],
                    e,
                ) by {
                    assert(rest[j] == clusters[j]);
                }
            },
        }
    }
}

/// What is left of a cluster that the walk does not touch.
pub open spec fn untouched(c: ClusterView) -> MergeStep {
    MergeStep { cluster: c, split: None, matched: 0, joined: false }
}

/// With none of the peer's ids accounted for, a cluster of the pool is
/// touched exactly if it agrees with the peer about the peer's first epoch;
/// then the peer joins it.
pub proof fn lemma_step_aligned(c: ClusterView, e: EpochIdsView, new_id: u64)
    requires
        c.wf(),
        c.num_epochs_finished == 0,
    ensures
        !agrees_at_first(c, e) ==> merge_step(c, e, 0, new_id) == untouched(c),
        agrees_at_first(c, e) ==> merge_step(c, e, 0, new_id).joined && merge_step(
            c,
            e,
            0,
            new_id,
        ).matched > 0,
{
    assert(e.ids.skip(0) =~= e.ids);
    if c.covers(e.first_epoch_number as int) {
        let offset = e.first_epoch_number - c.first_epoch_number;
        lemma_common_prefix(c.epoch_ids.skip(offset), e.ids);
    }
}

/// With some of the peer's ids accounted for, a cluster of the same chain is
/// not touched: what is left of the peer's ids belongs to later epochs than
/// those that the cluster is held against.
pub proof fn lemma_step_misaligned(c: ClusterView, e: EpochIdsView, id_index: nat, new_id: u64)
    requires
        0 < id_index <= e.ids.len(),
        one_epoch_per_hash(c, history_of(e)),
    ensures
        merge_step(c, e, id_index, new_id) == untouched(c),
{
    if c.covers(e.first_epoch_number as int) && id_index < e.ids.len() {
        let offset = e.first_epoch_number - c.first_epoch_number;
        let theirs = e.ids.skip(id_index as int);
        let ours = c.epoch_ids.skip(offset);
        let h = history_of(e);
        assert(h.covers(e.first_epoch_number + id_index));
        assert(h.epoch_id_at(e.first_epoch_number + id_index) == theirs[0]);
        assert(c.epoch_id_at(e.first_epoch_number as int) == ours[0]);
        assert(ours[0] != theirs[0]);
    } else if id_index == e.ids.len() {
        assert(e.ids.skip(id_index as int).len() == 0);
    }
}

/// The shape of a walk over clusters of one chain, none of which has
/// delivered anything: the first cluster that agrees with the peer about the
/// peer's first epoch is the only one that is touched.
pub proof fn lemma_walk_shape(clusters: Seq<ClusterView>, e: EpochIdsView, next: u64)
    requires
        forall|k: int|
            0 <= k < clusters.len() ==> (#[trigger] clusters[k]).wf()
                && clusters[k].num_epochs_finished == 0,
        forall|k: int|
            0 <= k < clusters.len() ==> one_epoch_per_hash(#[trigger] clusters[k], history_of(e)),
        next + clusters.len() <= u64::MAX,
    ensures
        ({
            let m = merge_all(clusters, e, merge_start(next));
            match first_agreeing(clusters, e) {
                None => m == (Merge { clusters, ..merge_start(next) }),
                Some(k) => {
                    let step = merge_step(clusters[k], e, 0, next);
                    &&& step.joined
                    &&& step.matched > 0
                    &&& m.clusters == clusters.update(k, step.cluster)
                    &&& m.new_clusters == match step.split {
                        Some(tail) => seq![tail],
                        None => Seq::<ClusterView>::empty(),
                    }
                    &&& m.id_index == step.matched
                },
            }
        }),
    decreases clusters.len(),
{
    let start = merge_start(next);
    let m = merge_all(clusters, e, start);
    if clusters.len() == 0 {
        assert(clusters =~= start.clusters);
    } else {
        let rest = clusters.drop_last();
        let last = clusters.last();
        let before = merge_all(rest, e, start);
        assert forall|k: int| 0 <= k < rest.len() implies (#[trigger] rest[k]).wf()
            && rest[k].num_epochs_finished == 0 && one_epoch_per_hash(rest[k], history_of(e)) by {
            assert(rest[k] == clusters[k]);
        }
        lemma_walk_shape(rest, e, next);
        lemma_walk_keeps(rest, e, next);
        lemma_first_agreeing(rest, e);
        assert(last == clusters[clusters.len() - 1]);
        match first_agreeing(rest, e) {
            None => {
                lemma_step_aligned(last, e, next);
                let step = merge_step(last, e, 0, next);
                if agrees_at_first(last, e) {
                    assert(m.clusters =~= clusters.update(clusters.len() - 1, step.cluster));
                    if step.split is Some {
                        assert(m.new_clusters =~= seq![step.split.unwrap()]);
                    }
                } else {
                    assert(m.clusters =~= clusters);
                }
            },
            Some(k) => {
                assert(rest[k] == clusters[k]);
                lemma_merge_step(rest[k], e, 0, next);
                lemma_step_misaligned(last, e, before.id_index, before.next_id);
                assert(m.clusters =~= clusters.update(
                    k,
                    merge_step(clusters[k], e, 0, next).cluster,
                ));
            },
        }
    }
}

/// Which of two runs is named first does not matter for their parents.
pub proof fn lemma_one_parent_symmetric(a: ClusterView, b: ClusterView)
    requires
        one_parent_per_hash(a, b),
    ensures
        one_parent_per_hash(b, a),
{
    assert forall|x: int|
        b.covers(x) && a.covers(x) && b.covers(x - 1) && a.covers(x - 1) && #[trigger] b.epoch_id_at(
            x,
        ) == a.epoch_id_at(x) implies b.epoch_id_at(x - 1) == a.epoch_id_at(x - 1) by {
        assert(a.epoch_id_at(x) == b.epoch_id_at(x));
    }
}

/// The front part of a cluster is set apart from what the cluster is set
/// apart from.
pub proof fn lemma_front_set_apart(c: ClusterView, front: ClusterView, x: ClusterView)
    requires
        set_apart(c, x),
        front.first_epoch_number == c.first_epoch_number,
        front.epoch_ids.len() <= c.epoch_ids.len(),
        front.epoch_ids == c.epoch_ids.take(front.epoch_ids.len() as int),
    ensures
        set_apart(front, x),
        set_apart(x, front),
{
    if overlapping(front, x) {
        let lo = first_shared_epoch(front, x);
        assert(c.covers(lo));
        assert(front.epoch_id_at(lo) == c.epoch_id_at(lo));
    }
}

/// The back part of a cluster is set apart from what the cluster is set
/// apart from, if both belong to one chain.
pub proof fn lemma_back_set_apart(c: ClusterView, back: ClusterView, x: ClusterView, at: int)
    requires
        set_apart(c, x),
        one_parent_per_hash(c, x),
        0 <= at <= c.epoch_ids.len(),
        back.first_epoch_number == c.first_epoch_number + at,
        back.epoch_ids == c.epoch_ids.skip(at),
    ensures
        set_apart(back, x),
        set_apart(x, back),
{
    if overlapping(back, x) {
        let later = first_shared_epoch(back, x);
        let lo = first_shared_epoch(c, x);
        assert(c.covers(later));
        assert(back.epoch_id_at(later) == c.epoch_id_at(later));
        assert(c.covers(lo) && x.covers(lo));
        if back.epoch_id_at(later) == x.epoch_id_at(later) {
            lemma_agree_backwards(c, x, later, lo);
        }
    }
}

/// What a cluster that agrees with the peer about the peer's first epoch
/// becomes: the part that is kept ends where the rest of the peer's ids
/// begins; what is split off begins there too, with another hash than the
/// rest of the peer's ids.
pub proof fn lemma_step_sets_apart(c: ClusterView, e: EpochIdsView, new_id: u64)
    requires
        c.wf(),
        c.num_epochs_finished == 0,
        agrees_at_first(c, e),
    ensures
        ({
            let step = merge_step(c, e, 0, new_id);
            let rest_first = e.first_epoch_number + step.matched;
            &&& 0 < step.matched <= e.ids.len()
            &&& step.cluster.first_epoch_number == c.first_epoch_number
            &&& step.cluster.epoch_ids.len() <= c.epoch_ids.len()
            &&& step.cluster.epoch_ids == c.epoch_ids.take(step.cluster.epoch_ids.len() as int)
            &&& step.cluster.end_epoch() == rest_first
            &&& step.split matches Some(tail) ==> {
                &&& tail.first_epoch_number == rest_first
                &&& tail.epoch_ids == c.epoch_ids.skip(rest_first - c.first_epoch_number)
                &&& tail.epoch_ids.len() > 0
                &&& 0 <= rest_first - c.first_epoch_number <= c.epoch_ids.len()
                &&& step.matched < e.ids.len() ==> tail.epoch_ids[0] != e.ids[step.matched as int]
            }
        }),
{
    let step = merge_step(c, e, 0, new_id);
    lemma_merge_step(c, e, 0, new_id);
    assert(e.ids.skip(0) =~= e.ids);
    let offset = e.first_epoch_number - c.first_epoch_number;
    let behind = c.epoch_ids.skip(offset);
    lemma_common_prefix(behind, e.ids);
    let matched = common_prefix(behind, e.ids);
    assert(behind[0] == e.ids[0]);
    assert(matched > 0);
    if matched < c.epoch_ids.len() - offset {
        let tail = step.split.unwrap();
        if matched < e.ids.len() {
            assert(tail.epoch_ids[0] == behind[matched as int]);
        }
    }
}

/// The peer's ids belong to the same chain as the clusters of the pool: a
/// hash stands for one epoch and has one parent, among the clusters and
/// between each of them and the peer's ids.
pub open spec fn same_chain(pool: Seq<ClusterView>, e: EpochIdsView) -> bool {
    &&& forall|i: int|
        0 <= i < pool.len() ==> one_epoch_per_hash(#[trigger] pool[i], history_of(e))
            && one_parent_per_hash(pool[i], history_of(e))
    &&& forall|i: int, j: int|
        0 <= i < pool.len() && 0 <= j < pool.len() ==> one_parent_per_hash(
            #[trigger] pool[i],
            #[trigger] pool[j],
        )
}

/// Every cluster of the pool that overlaps the peer's ids covers the peer's
/// first epoch: none begins in the middle of the peer's range.
pub open spec fn none_begins_within(pool: Seq<ClusterView>, e: EpochIdsView) -> bool {
    forall|i: int|
        0 <= i < pool.len() && overlapping(#[trigger] pool[i], history_of(e)) ==> pool[i].covers(
            e.first_epoch_number as int,
        )
}

/// The cluster for the ids of the peer from `matched` on.
pub open spec fn rest_cluster(e: EpochIdsView, matched: nat, id: u64) -> ClusterView {
    ClusterView::fresh(
        id,
        e.ids.skip(matched as int),
        (e.first_epoch_number + matched) as usize,
        seq![e.sender],
    )
}

/// The clusters that merging adds to a pool of one chain in which the cluster
/// at `k` is the first to agree with the peer about the peer's first epoch:
/// what is split off that cluster, and a cluster for the rest of the peer's
/// ids.
pub open spec fn added_after_join(c: ClusterView, e: EpochIdsView, next: u64) -> Seq<ClusterView> {
    let step = merge_step(c, e, 0, next);
    let split = match step.split {
        Some(tail) => seq![tail],
        None => Seq::<ClusterView>::empty(),
    };
    if step.matched < e.ids.len() {
        split.push(rest_cluster(e, step.matched, (next + split.len()) as u64))
    } else {
        split
    }
}

/// The pool after merging, where the pool is of one chain and the cluster
/// being pulled stays out of it: the first cluster that agrees with the peer
/// about the peer's first epoch takes the peer in, and gives up what does
/// not agree; the rest of the peer's ids gets a cluster of its own.
pub open spec fn pool_after(pool: Seq<ClusterView>, e: EpochIdsView, next: u64) -> Seq<ClusterView> {
    match first_agreeing(pool, e) {
        None => if e.ids.len() > 0 {
            pool.push(rest_cluster(e, 0, next))
        } else {
            pool
        },
        Some(k) => pool.update(k, merge_step(pool[k], e, 0, next).cluster) + added_after_join(
            pool[k],
            e,
            next,
        ),
    }
}

/// Merging into a pool of one chain, while the cluster being pulled does not
/// cover the peer's first epoch, leaves the pool that `pool_after` describes.
pub proof fn lemma_pool_after(s: SyncView, e: EpochIdsView)
    requires
        s.wf(),
        e.wf(),
        s.has_id_headroom(),
        forall|i: int|
            0 <= i < s.epoch_clusters.len() ==> one_epoch_per_hash(
                #[trigger] s.epoch_clusters[i],
                history_of(e),
            ),
        s.active_cluster matches Some(c) ==> !c.covers(e.first_epoch_number as int),
    ensures
        merged(s, e).epoch_clusters == pool_after(s.epoch_clusters, e, s.next_cluster_id),
{
    let t = merged(s, e);
    let pool = s.epoch_clusters;
    let n = pool.len() as int;
    let next = s.next_cluster_id;
    let start = merge_start(next);
    let m = merged_epochs(s, e);
    assert forall|k: int| 0 <= k < n implies (#[trigger] pool[k]).wf() && pool[k].num_epochs_finished
        == 0 by {}
    lemma_walk_shape(pool, e, next);
    lemma_walk_keeps(pool, e, next);
    lemma_first_agreeing(pool, e);
    let walk = merge_all(pool, e, start);
    let all = match s.active_cluster {
        Some(c) => merge_one(walk, c, e),
        None => walk,
    };
    if s.active_cluster is Some {
        let c = s.active_cluster.unwrap();
        assert(merge_step(c, e, walk.id_index, walk.next_id) == untouched(c));
        assert(all.clusters.take(n) =~= walk.clusters);
    } else {
        assert(all.clusters.take(n) =~= walk.clusters);
    }
    assert(m.clusters == all.clusters);
    assert(t.epoch_clusters == m.clusters.take(n) + m.new_clusters);
    match first_agreeing(pool, e) {
        None => {
            assert(walk.new_clusters =~= Seq::<ClusterView>::empty());
            if e.ids.len() > 0 {
                assert(t.epoch_clusters =~= pool.push(rest_cluster(e, 0, next)));
            } else {
                assert(t.epoch_clusters =~= pool);
            }
        },
        Some(k) => {
            let step = merge_step(pool[k], e, 0, next);
            assert(m.new_clusters =~= added_after_join(pool[k], e, next));
        },
    }
}

/// In a pool of one chain whose clusters are set apart, at most one cluster
/// agrees with the peer about the peer's first epoch: every other cluster is
/// set apart from the peer's ids.
pub proof fn lemma_others_set_apart(pool: Seq<ClusterView>, e: EpochIdsView, i: int)
    requires
        pool_set_apart(pool),
        same_chain(pool, e),
        none_begins_within(pool, e),
        0 <= i < pool.len(),
        first_agreeing(pool, e) != Some(i),
    ensures
        set_apart(history_of(e), pool[i]),
        set_apart(pool[i], history_of(e)),
{
    let h = history_of(e);
    let x = pool[i];
    let first = e.first_epoch_number as int;
    lemma_first_agreeing(pool, e);
    lemma_set_apart_is_told_apart(h, x);
    if overlapping(h, x) {
        assert(overlapping(x, h));
        assert(x.covers(first));
        assert(first_shared_epoch(h, x) == first);
        if x.epoch_id_at(first) == h.epoch_id_at(first) {
            assert(agrees_at_first(x, e));
            let k = first_agreeing(pool, e).unwrap();
            let c = pool[k];
            let lo = first_shared_epoch(x, c);
            assert(x.covers(lo) && c.covers(lo));
            if i < k {
                assert(set_apart(pool[i], pool[k]));
            } else {
                assert(set_apart(pool[k], pool[i]));
            }
            lemma_set_apart_is_told_apart(x, c);
            assert(one_parent_per_hash(pool[i], pool[k]));
            lemma_agree_backwards(x, c, first, lo);
        }
    }
}

/// The cluster for the rest of the peer's ids is set apart from every
/// cluster of the pool but the one that the peer joined.
pub proof fn lemma_rest_set_apart(
    pool: Seq<ClusterView>,
    e: EpochIdsView,
    i: int,
    matched: nat,
    id: u64,
)
    requires
        e.wf(),
        pool_set_apart(pool),
        same_chain(pool, e),
        none_begins_within(pool, e),
        0 <= i < pool.len(),
        first_agreeing(pool, e) != Some(i),
        matched < e.ids.len(),
    ensures
        set_apart(pool[i], rest_cluster(e, matched, id)),
{
    let h = history_of(e);
    let made = rest_cluster(e, matched, id);
    lemma_fresh_single(
        id,
        e.ids.skip(matched as int),
        (e.first_epoch_number + matched) as usize,
        e.sender,
    );
    lemma_others_set_apart(pool, e, i);
    lemma_one_parent_symmetric(pool[i], h);
    lemma_back_set_apart(h, made, pool[i], matched as int);
}

/// The pool that `pool_after` describes has its clusters set apart, if the
/// clusters of the pool were, if the ids and the clusters belong to one
/// chain, and if no cluster begins in the middle of the peer's range.
pub proof fn lemma_pool_after_set_apart(pool: Seq<ClusterView>, e: EpochIdsView, next: u64)
    requires
        e.wf(),
        forall|k: int|
            0 <= k < pool.len() ==> (#[trigger] pool[k]).wf() && pool[k].num_epochs_finished == 0,
        pool_set_apart(pool),
        same_chain(pool, e),
        none_begins_within(pool, e),
    ensures
        pool_set_apart(pool_after(pool, e, next)),
{
    let n = pool.len() as int;
    let result = pool_after(pool, e, next);
    lemma_first_agreeing(pool, e);
    match first_agreeing(pool, e) {
        None => {
            assert forall|i: int, j: int| 0 <= i < j < result.len() implies set_apart(
                #[trigger] result[i],
                #[trigger] result[j],
            ) by {
                if j < n {
                    assert(result[i] == pool[i] && result[j] == pool[j]);
                } else {
                    lemma_rest_set_apart(pool, e, i, 0, next);
                }
            }
        },
        Some(k) => {
            lemma_joined_pool_set_apart(pool, e, next, k);
        },
    }
}

/// The case of `lemma_pool_after_set_apart` in which the peer joins the
/// cluster at `k`.
pub proof fn lemma_joined_pool_set_apart(pool: Seq<ClusterView>, e: EpochIdsView, next: u64, k: int)
    requires
        e.wf(),
        forall|k: int|
            0 <= k < pool.len() ==> (#[trigger] pool[k]).wf() && pool[k].num_epochs_finished == 0,
        pool_set_apart(pool),
        same_chain(pool, e),
        none_begins_within(pool, e),
        first_agreeing(pool, e) == Some(k),
    ensures
        pool_set_apart(pool_after(pool, e, next)),
{
    let n = pool.len() as int;
    let result = pool_after(pool, e, next);
    lemma_first_agreeing(pool, e);
    let c = pool[k];
    let step = merge_step(c, e, 0, next);
    let front = step.cluster;
    let added = added_after_join(c, e, next);
    let kept = pool.update(k, front);
    lemma_step_sets_apart(c, e, next);
    assert(result == kept + added);
    assert forall|i: int, j: int| 0 <= i < j < n implies set_apart(
        #[trigger] result[i],
        #[trigger] result[j],
    ) by {
        assert(set_apart(pool[i], pool[j]));
        if i == k {
            lemma_front_set_apart(c, front, pool[j]);
        } else if j == k {
            lemma_set_apart_is_told_apart(pool[i], pool[k]);
            lemma_front_set_apart(c, front, pool[i]);
        }
    }
    assert forall|i: int, j: int| 0 <= i < n <= j < result.len() implies set_apart(
        #[trigger] result[i],
        #[trigger] result[j],
    ) by {
        lemma_old_and_added_set_apart(pool, e, next, k, i, j - n);
        assert(result[j] == added[j - n]);
        assert(result[i] == kept[i]);
    }
    assert forall|i: int, j: int| n <= i < j < result.len() implies set_apart(
        #[trigger] result[i],
        #[trigger] result[j],
    ) by {
        // What was split off and the rest of the peer's ids begin at the
        // same epoch, with different hashes.
        let tail = step.split.unwrap();
        let made = rest_cluster(e, step.matched, (next + 1) as u64);
        assert(result[i] == added[0] && result[j] == added[1]);
        assert(added[0] == tail && added[1] == made);
        lemma_fresh_single(
            (next + 1) as u64,
            e.ids.skip(step.matched as int),
            (e.first_epoch_number + step.matched) as usize,
            e.sender,
        );
        assert(tail.epoch_id_at(tail.first_epoch_number as int) == tail.epoch_ids[0]);
        assert(made.epoch_id_at(made.first_epoch_number as int) == e.ids.skip(
            step.matched as int,
        )[0]);
    }
    assert forall|i: int, j: int| 0 <= i < j < result.len() implies set_apart(
        #[trigger] result[i],
        #[trigger] result[j],
    ) by {
        if j < n {
        } else if i < n {
        } else {
        }
    }
}

/// A cluster that was in the pool and a cluster that merging adds are set
/// apart.
pub proof fn lemma_old_and_added_set_apart(
    pool: Seq<ClusterView>,
    e: EpochIdsView,
    next: u64,
    k: int,
    i: int,
    j: int,
)
    requires
        e.wf(),
        forall|k: int|
            0 <= k < pool.len() ==> (#[trigger] pool[k]).wf() && pool[k].num_epochs_finished == 0,
        pool_set_apart(pool),
        same_chain(pool, e),
        none_begins_within(pool, e),
        first_agreeing(pool, e) == Some(k),
        0 <= i < pool.len(),
        0 <= j < added_after_join(pool[k], e, next).len(),
    ensures
        set_apart(
            pool.update(k, merge_step(pool[k], e, 0, next).cluster)[i],
            added_after_join(pool[k], e, next)[j],
        ),
{
    lemma_first_agreeing(pool, e);
    let c = pool[k];
    let step = merge_step(c, e, 0, next);
    let front = step.cluster;
    let added = added_after_join(c, e, next);
    let b = added[j];
    lemma_step_sets_apart(c, e, next);
    let split_len: int = if step.split is Some {
        1
    } else {
        0
    };
    let made = rest_cluster(e, step.matched, (next + split_len) as u64);
    if step.matched < e.ids.len() {
        lemma_fresh_single(
            (next + split_len) as u64,
            e.ids.skip(step.matched as int),
            (e.first_epoch_number + step.matched) as usize,
            e.sender,
        );
    }
    let b_is_tail = step.split is Some && j == 0;
    if i == k {
        assert(front.end_epoch() <= b.first_epoch_number);
    } else if b_is_tail {
        if i < k {
            assert(set_apart(pool[i], pool[k]));
        } else {
            assert(set_apart(pool[k], pool[i]));
        }
        lemma_set_apart_is_told_apart(pool[i], pool[k]);
        assert(one_parent_per_hash(pool[k], pool[i]));
        lemma_back_set_apart(c, b, pool[i], b.first_epoch_number - c.first_epoch_number);
    } else {
        assert(b == made);
        lemma_rest_set_apart(pool, e, i, step.matched, (next + split_len) as u64);
    }
}

/// Clusters of the pool with overlapping ranges never agree on all that they
/// share. In a pool whose clusters are set apart, the clusters stay set apart
/// when the ids of a peer are merged, provided that the ids and the clusters
/// belong to one chain, that no cluster begins in the middle of the peer's
/// range, and that the cluster being pulled does not cover the peer's first
/// epoch. Clusters that are set apart hold different hashes for the first
/// epoch they share, and so for some epoch that both cover.
pub proof fn lemma_merging_keeps_clusters_apart(s: SyncView, e: EpochIdsView)
    requires
        s.wf(),
        e.wf(),
        s.has_id_headroom(),
        pool_set_apart(s.epoch_clusters),
        same_chain(s.epoch_clusters, e),
        none_begins_within(s.epoch_clusters, e),
        s.active_cluster matches Some(c) ==> !c.covers(e.first_epoch_number as int),
    ensures
        pool_set_apart(merged(s, e).epoch_clusters),
        pool_told_apart(merged(s, e).epoch_clusters),
{
    lemma_pool_after(s, e);
    assert forall|k: int| 0 <= k < s.epoch_clusters.len() implies (
    #[trigger] s.epoch_clusters[k]).wf() && s.epoch_clusters[k].num_epochs_finished == 0 by {}
    lemma_pool_after_set_apart(s.epoch_clusters, e, s.next_cluster_id);
    lemma_pool_set_apart_is_told_apart(merged(s, e).epoch_clusters);
}

/// Clusters that come out of one cluster and one peer are told apart. In a
/// state in which nothing is being pulled and at most one cluster waits,
/// merging the ids of a peer that does not begin before that cluster leaves
/// a pool in which any two clusters with overlapping ranges disagree about
/// some epoch that both cover, whatever the hashes are: what agrees with the
/// peer's ids has been merged, what is split off begins where the kept part
/// ends, and the rest of the peer's ids either begins where the cluster ends
/// or disagrees with what was split off at its first epoch.
pub proof fn lemma_single_cluster_told_apart(s: SyncView, e: EpochIdsView)
    requires
        s.wf(),
        e.wf(),
        s.has_id_headroom(),
        s.active_cluster is None,
        s.epoch_clusters.len() <= 1,
        s.epoch_clusters.len() == 1 ==> s.epoch_clusters[0].first_epoch_number
            <= e.first_epoch_number,
    ensures
        pool_set_apart(merged(s, e).epoch_clusters),
        pool_told_apart(merged(s, e).epoch_clusters),
{
    let pool = s.epoch_clusters;
    let h = history_of(e);
    // With one cluster at most, nothing is held against the peer's ids but
    // at the peer's first epoch: the chain does not matter.
    let t = merged(s, e);
    let m = merged_epochs(s, e);
    let next = s.next_cluster_id;
    let start = merge_start(next);
    lemma_merged_epochs(s, e);
    assert(walked(s) == pool);
    let kept = m.clusters.take(pool.len() as int);
    assert(kept =~= m.clusters);
    assert(t.epoch_clusters == kept + m.new_clusters);
    let result = t.epoch_clusters;
    if pool.len() == 0 {
        assert(merge_all(pool, e, start) == start);
        assert(result.len() <= 1);
    } else {
        let c = pool[0];
        assert(c.wf() && c.num_epochs_finished == 0);
        assert(pool.drop_last() =~= Seq::<ClusterView>::empty());
        assert(merge_all(pool.drop_last(), e, start) == start);
        let all = merge_all(pool, e, start);
        assert(all == merge_one(start, c, e));
        let step = merge_step(c, e, 0, next);
        lemma_step_aligned(c, e, next);
        let rest = e.ids.skip(all.id_index as int);
        let rest_first = (e.first_epoch_number + all.id_index) as usize;
        let made = ClusterView::fresh(all.next_id, rest, rest_first, seq![e.sender]);
        if all.id_index < e.ids.len() {
            lemma_fresh_single(all.next_id, rest, rest_first, e.sender);
        }
        if agrees_at_first(c, e) {
            lemma_step_sets_apart(c, e, next);
            assert forall|i: int, j: int| 0 <= i < j < result.len() implies set_apart(
                #[trigger] result[i],
                #[trigger] result[j],
            ) by {
                if i == 0 {
                    assert(result[0] == step.cluster);
                    assert(step.cluster.end_epoch() <= result[j].first_epoch_number);
                } else {
                    assert(result[i] == step.split.unwrap());
                    assert(result[j] == made);
                    assert(result[i].epoch_id_at(result[i].first_epoch_number as int)
                        == result[i].epoch_ids[0]);
                    assert(made.epoch_id_at(made.first_epoch_number as int) == rest[0]);
                }
            }
        } else {
            assert(e.ids.skip(0) =~= e.ids);
            assert forall|i: int, j: int| 0 <= i < j < result.len() implies set_apart(
                #[trigger] result[i],
                #[trigger] result[j],
            ) by {
                assert(result[i] == c);
                assert(result[j] == made);
            }
        }
    }
    lemma_pool_set_apart_is_told_apart(result);
}

/// The ids of a peer that lie beyond the head and beyond the queue: what
/// clustering merges into the clusters, if it comes to that.
pub open spec fn ids_to_merge(s: SyncView, e: EpochIdsView, head: ElectionHead) -> Option<
    EpochIdsView,
> {
    match truncated_to_head(e, head) {
        None => None,
        Some(ahead) => {
            let queued = match_queue(all_ids(ahead), s.job_queue, 0, 0, 0);
            if queued.matched > ahead.ids.len() || (queued.matched == ahead.ids.len()
                && ahead.checkpoint_id is None) {
                None
            } else {
                Some(
                    EpochIdsView {
                        ids: ahead.ids.skip(queued.matched as int),
                        first_epoch_number: (ahead.first_epoch_number + queued.matched) as usize,
                        ..ahead
                    },
                )
            }
        },
    }
}

/// Clustering keeps the clusters of the pool apart: where it merges ids into
/// the clusters, the clusters stay set apart under the conditions of
/// `lemma_merging_keeps_clusters_apart`; where it does not, the pool stays as
/// it is.
pub proof fn lemma_clustering_keeps_clusters_apart(s: SyncView, e: EpochIdsView, head: ElectionHead)
    requires
        s.wf(),
        e.wf(),
        s.has_id_headroom(),
        pool_set_apart(s.epoch_clusters),
        ids_to_merge(s, e, head) matches Some(rest) ==> same_chain(s.epoch_clusters, rest)
            && none_begins_within(s.epoch_clusters, rest) && (s.active_cluster matches Some(c)
            ==> !c.covers(rest.first_epoch_number as int)),
    ensures
        pool_set_apart(clustered(s, e, head).0.epoch_clusters),
        pool_told_apart(clustered(s, e, head).0.epoch_clusters),
        ids_to_merge(s, e, head) is None ==> clustered(s, e, head).0.epoch_clusters
            == s.epoch_clusters,
{
    match ids_to_merge(s, e, head) {
        Some(rest) => {
            crate::clustering_laws::lemma_truncated_to_head(e, head);
            let ahead = truncated_to_head(e, head).unwrap();
            crate::clustering_laws::lemma_match_queue(all_ids(ahead), s.job_queue, 0, 0, 0);
            assert(clustered(s, e, head).0 == merged(s, rest));
            lemma_merging_keeps_clusters_apart(s, rest);
        },
        None => {
            lemma_pool_set_apart_is_told_apart(s.epoch_clusters);
        },
    }
}

/// Taking a cluster out of the pool keeps the others set apart.
pub proof fn lemma_swap_removed_set_apart(pool: Seq<ClusterView>, index: int)
    requires
        pool_set_apart(pool),
        0 <= index < pool.len(),
    ensures
        pool_set_apart(swap_removed(pool, index)),
{
    let after = swap_removed(pool, index);
    // Where each of the clusters that stay was in the pool before.
    let was = |k: int|
        if index == 0 || k >= index {
            k + 1
        } else if k == index - 1 {
            0
        } else {
            k + 1
        };
    assert forall|i: int, j: int| 0 <= i < j < after.len() implies set_apart(
        #[trigger] after[i],
        #[trigger] after[j],
    ) by {
        assert(after[i] == pool[was(i)]);
        assert(after[j] == pool[was(j)]);
        assert(was(i) != was(j));
        if was(i) < was(j) {
            assert(set_apart(pool[was(i)], pool[was(j)]));
        } else {
            assert(set_apart(pool[was(j)], pool[was(i)]));
            lemma_set_apart_is_told_apart(pool[was(j)], pool[was(i)]);
        }
    }
}

/// Scheduling keeps the clusters of the pool apart.
pub proof fn lemma_popped_keeps_clusters_apart(s: SyncView, current_epoch: usize)
    requires
        pool_set_apart(s.epoch_clusters),
    ensures
        pool_set_apart(popped(s, current_epoch).0.epoch_clusters),
{
    if s.epoch_clusters.len() > 0 {
        lemma_best_index(s.epoch_clusters);
        lemma_swap_removed_set_apart(s.epoch_clusters, best_index(s.epoch_clusters));
    }
}

/// A peer that leaves the network leaves the clusters of the pool apart.
pub proof fn lemma_peer_gone_keeps_clusters_apart(s: SyncView, peer: PeerId)
    requires
        pool_set_apart(s.epoch_clusters),
    ensures
        pool_set_apart(peer_gone(s, peer).epoch_clusters),
{
    let after = peer_gone(s, peer).epoch_clusters;
    assert forall|i: int, j: int| 0 <= i < j < after.len() implies set_apart(
        #[trigger] after[i],
        #[trigger] after[j],
    ) by {
        assert(set_apart(s.epoch_clusters[i], s.epoch_clusters[j]));
    }
}

} // verus!
