//! The order in which two peers are heard does not matter for the clusters
//! that come of it.
use crate::cluster::{lemma_fresh_single, ClusterView, PeerId};
use crate::clustering_laws::{
    empty_sync, lemma_common_prefix, lemma_merge_step, lemma_merged_epochs, lemma_merged_wf,
};
use crate::clustering_model::{
    checkpoint_cluster, common_prefix, is_checkpoint_cluster, merge_all, merge_one, merge_start,
    merge_step, merged, merged_epochs,
};
use crate::counting::lemma_count_push;
use crate::epoch_ids::EpochIdsView;
use crate::hash::Blake2bHash;
use crate::separation_laws::{
    agrees_at_first, lemma_step_aligned, lemma_step_sets_apart, rest_cluster,
};
use crate::sync::count_clusters;
use vstd::prelude::*;

verus! {

/// What makes a cluster the cluster it is, whatever its id and the order of
/// its peers: its epochs and the set of its peers.
pub struct Shape {
    pub first_epoch_number: usize,
    pub epoch_ids: Seq<Blake2bHash>,
    pub peers: Set<PeerId>,
}

/// The shape of a cluster.
pub open spec fn shape_of(c: ClusterView) -> Shape {
    Shape {
        first_epoch_number: c.first_epoch_number,
        epoch_ids: c.epoch_ids,
        peers: c.peers.to_set(),
    }
}

/// The cluster has the shape `shape`.
pub open spec fn has_shape(shape: Shape) -> spec_fn(ClusterView) -> bool {
    |c: ClusterView| shape_of(c) == shape
}

/// Two pools hold clusters of the same shapes, each shape as often in the one
/// as in the other.
pub open spec fn same_shapes(a: Seq<ClusterView>, b: Seq<ClusterView>) -> bool {
    forall|shape: Shape|
        count_clusters(a, #[trigger] has_shape(shape)) == count_clusters(b, has_shape(shape))
}

/// One if the condition holds.
pub open spec fn one_if(condition: bool) -> nat {
    if condition {
        1
    } else {
        0
    }
}

/// The shape of a cluster of all the ids of a peer.
pub open spec fn whole_shape(e: EpochIdsView) -> Shape {
    Shape { first_epoch_number: e.first_epoch_number, epoch_ids: e.ids, peers: set![e.sender] }
}

/// The shape of a cluster of the ids of a peer from `matched` on.
pub open spec fn rest_shape(e: EpochIdsView, matched: nat) -> Shape {
    Shape {
        first_epoch_number: (e.first_epoch_number + matched) as usize,
        epoch_ids: e.ids.skip(matched as int),
        peers: set![e.sender],
    }
}

/// The shape of the cluster of the first `matched` ids of two peers that
/// agree on them.
pub open spec fn joint_shape(e1: EpochIdsView, e2: EpochIdsView, matched: nat) -> Shape {
    Shape {
        first_epoch_number: e1.first_epoch_number,
        epoch_ids: e1.ids.take(matched as int),
        peers: set![e1.sender, e2.sender],
    }
}

/// How many clusters of the shape `shape` come of two peers that begin at the
/// same epoch: where they agree at first, one cluster of both for what they
/// agree on, and one of each for the rest of its ids; where they do not, one
/// of each for all its ids.
pub open spec fn count_of_two(e1: EpochIdsView, e2: EpochIdsView, shape: Shape) -> nat {
    let matched = common_prefix(e1.ids, e2.ids);
    if matched == 0 {
        one_if(e1.ids.len() > 0 && shape == whole_shape(e1)) + one_if(
            e2.ids.len() > 0 && shape == whole_shape(e2),
        )
    } else {
        one_if(shape == joint_shape(e1, e2, matched)) + one_if(
            matched < e1.ids.len() && shape == rest_shape(e1, matched),
        ) + one_if(matched < e2.ids.len() && shape == rest_shape(e2, matched))
    }
}

/// The checkpoint of a peer as a shape.
pub open spec fn checkpoint_shape(e: EpochIdsView, peers: Set<PeerId>) -> Shape {
    Shape {
        first_epoch_number: e.checkpoint_epoch() as usize,
        epoch_ids: seq![e.checkpoint_id.unwrap()],
        peers,
    }
}

/// The two peers have the same checkpoint.
pub open spec fn same_checkpoint(e1: EpochIdsView, e2: EpochIdsView) -> bool {
    e1.checkpoint_id is Some && e2.checkpoint_id == e1.checkpoint_id && e1.checkpoint_epoch()
        == e2.checkpoint_epoch()
}

/// How many clusters of the shape `shape` come of the checkpoints of two
/// peers: one of both where they have the same checkpoint, and else one of
/// each that has a checkpoint.
pub open spec fn checkpoints_of_two(e1: EpochIdsView, e2: EpochIdsView, shape: Shape) -> nat {
    if same_checkpoint(e1, e2) {
        one_if(shape == checkpoint_shape(e1, set![e1.sender, e2.sender]))
    } else {
        one_if(e1.checkpoint_id is Some && shape == checkpoint_shape(e1, set![e1.sender])) + one_if(
            e2.checkpoint_id is Some && shape == checkpoint_shape(e2, set![e2.sender]),
        )
    }
}

/// The longest common prefix of two sequences does not depend on which of
/// them is named first.
pub proof fn lemma_common_prefix_symmetric(a: Seq<Blake2bHash>, b: Seq<Blake2bHash>)
    ensures
        common_prefix(a, b) == common_prefix(b, a),
    decreases a.len(),
{
    if a.len() == 0 || b.len() == 0 || a[0] != b[0] {
    } else {
        lemma_common_prefix_symmetric(a.skip(1), b.skip(1));
    }
}

/// What comes of two peers does not depend on which of them is named first.
pub proof fn lemma_count_of_two_symmetric(e1: EpochIdsView, e2: EpochIdsView, shape: Shape)
    requires
        e1.first_epoch_number == e2.first_epoch_number,
    ensures
        count_of_two(e1, e2, shape) == count_of_two(e2, e1, shape),
        checkpoints_of_two(e1, e2, shape) == checkpoints_of_two(e2, e1, shape),
{
    lemma_common_prefix_symmetric(e1.ids, e2.ids);
    lemma_common_prefix(e1.ids, e2.ids);
    let matched = common_prefix(e1.ids, e2.ids);
    assert(e1.ids.take(matched as int) =~= e2.ids.take(matched as int));
    assert(set![e1.sender, e2.sender] =~= set![e2.sender, e1.sender]);
    assert(joint_shape(e1, e2, matched) == joint_shape(e2, e1, matched));
    if same_checkpoint(e1, e2) {
        assert(checkpoint_shape(e1, set![e1.sender, e2.sender]) == checkpoint_shape(
            e2,
            set![e2.sender, e1.sender],
        ));
    }
}

/// The count of a pool of one cluster.
pub proof fn lemma_count_one(a: ClusterView, pred: spec_fn(ClusterView) -> bool)
    ensures
        count_clusters(seq![a], pred) == one_if(pred(a)),
{
    assert(seq![a] =~= Seq::<ClusterView>::empty().push(a));
    lemma_count_push(Seq::<ClusterView>::empty(), a, pred);
}

/// The count of a pool of two clusters.
pub proof fn lemma_count_two(a: ClusterView, b: ClusterView, pred: spec_fn(ClusterView) -> bool)
    ensures
        count_clusters(seq![a, b], pred) == one_if(pred(a)) + one_if(pred(b)),
{
    assert(seq![a, b] =~= seq![a].push(b));
    lemma_count_push(seq![a], b, pred);
    lemma_count_one(a, pred);
}

/// The count of a pool of three clusters.
pub proof fn lemma_count_three(
    a: ClusterView,
    b: ClusterView,
    c: ClusterView,
    pred: spec_fn(ClusterView) -> bool,
)
    ensures
        count_clusters(seq![a, b, c], pred) == one_if(pred(a)) + one_if(pred(b)) + one_if(pred(c)),
{
    assert(seq![a, b, c] =~= seq![a, b].push(c));
    lemma_count_push(seq![a, b], c, pred);
    lemma_count_two(a, b, pred);
}

/// The number of clusters that the ids of a peer make in the empty state.
pub open spec fn num_epoch_clusters(e: EpochIdsView) -> nat {
    one_if(e.ids.len() > 0)
}

/// What merging the ids of a peer into the empty state leaves: one cluster
/// for its ids, if it has any, one for its checkpoint, if it has one, and
/// nothing else.
pub proof fn lemma_merged_into_empty(e: EpochIdsView)
    requires
        e.wf(),
    ensures
        ({
            let s = merged(empty_sync(), e);
            &&& s.wf()
            &&& s.active_cluster is None
            &&& s.job_queue == Seq::<crate::sync::JobView>::empty()
            &&& s.epoch_clusters == if e.ids.len() > 0 {
                seq![rest_cluster(e, 0, 0)]
            } else {
                Seq::<ClusterView>::empty()
            }
            &&& s.checkpoint_clusters == match e.checkpoint_id {
                Some(hash) => seq![
                    ClusterView::fresh(
                        num_epoch_clusters(e) as u64,
                        seq![hash],
                        e.checkpoint_epoch() as usize,
                        seq![e.sender],
                    ),
                ],
                None => Seq::<ClusterView>::empty(),
            }
            &&& s.next_cluster_id <= 2
        }),
{
    let s0 = empty_sync();
    let s = merged(s0, e);
    assert(s0.wf()) by {
        assert forall|id: u64| #[trigger] s0.count_live(crate::sync::has_id(id)) <= 1 by {}
    }
    lemma_merged_wf(s0, e);
    let start = merge_start(0);
    assert(merge_all(s0.epoch_clusters, e, start) == start);
    let m = merged_epochs(s0, e);
    assert(m.clusters.take(0) =~= Seq::<ClusterView>::empty());
    if e.ids.len() > 0 {
        assert(s.epoch_clusters =~= seq![rest_cluster(e, 0, 0)]);
    } else {
        assert(s.epoch_clusters =~= Seq::<ClusterView>::empty());
    }
    match e.checkpoint_id {
        Some(hash) => {
            assert(checkpoint_cluster(s0.checkpoint_clusters, e.checkpoint_epoch(), hash) is None);
            assert(s.checkpoint_clusters =~= seq![
                ClusterView::fresh(
                    num_epoch_clusters(e) as u64,
                    seq![hash],
                    e.checkpoint_epoch() as usize,
                    seq![e.sender],
                ),
            ]);
        },
        None => {},
    }
}

/// The clusters of epochs that come of two peers, heard one after the other
/// in the empty state, are those that `count_of_two` counts.
pub proof fn lemma_pool_of_two(e1: EpochIdsView, e2: EpochIdsView, shape: Shape)
    requires
        e1.wf(),
        e2.wf(),
        e1.first_epoch_number == e2.first_epoch_number,
        e1.sender != e2.sender,
    ensures
        count_clusters(merged(merged(empty_sync(), e1), e2).epoch_clusters, has_shape(shape))
            == count_of_two(e1, e2, shape),
{
    let s1 = merged(empty_sync(), e1);
    let s2 = merged(s1, e2);
    let pred = has_shape(shape);
    let next = s1.next_cluster_id;
    let start = merge_start(next);
    lemma_merged_into_empty(e1);
    lemma_merged_epochs(s1, e2);
    let pool = s1.epoch_clusters;
    let m = merged_epochs(s1, e2);
    let kept = m.clusters.take(pool.len() as int);
    assert(kept =~= m.clusters);
    assert(s2.epoch_clusters == kept + m.new_clusters);
    assert(e1.ids.skip(0) =~= e1.ids);
    assert(e2.ids.skip(0) =~= e2.ids);
    lemma_common_prefix(e1.ids, e2.ids);
    let matched = common_prefix(e1.ids, e2.ids);
    let own = rest_cluster(e2, 0, next);
    lemma_fresh_single(next, e2.ids, e2.first_epoch_number, e2.sender);
    assert(seq![e2.sender].to_set() =~= set![e2.sender]);
    assert(seq![e1.sender].to_set() =~= set![e1.sender]);
    if e1.ids.len() == 0 {
        assert(merge_all(pool, e2, start) == start);
        if e2.ids.len() > 0 {
            assert(s2.epoch_clusters =~= seq![own]);
            lemma_count_one(own, pred);
            assert(shape_of(own) == whole_shape(e2));
        } else {
            assert(s2.epoch_clusters =~= Seq::<ClusterView>::empty());
        }
    } else {
        let c = rest_cluster(e1, 0, 0);
        lemma_fresh_single(0, e1.ids, e1.first_epoch_number, e1.sender);
        assert(pool == seq![c]);
        assert(pool.drop_last() =~= Seq::<ClusterView>::empty());
        assert(merge_all(pool.drop_last(), e2, start) == start);
        let all = merge_all(pool, e2, start);
        assert(pool.last() == c);
        assert(all == merge_one(start, c, e2));
        let step = merge_step(c, e2, 0, next);
        lemma_step_aligned(c, e2, next);
        assert(shape_of(c) == whole_shape(e1));
        assert(c.epoch_ids.skip(0) =~= e1.ids);
        if agrees_at_first(c, e2) {
            lemma_step_sets_apart(c, e2, next);
            lemma_merge_step(c, e2, 0, next);
            assert(step.matched == matched);
            let front = step.cluster;
            // The peers of the cluster that both are in.
            assert(c.peers == seq![e1.sender]);
            assert(c.peers[0] == e1.sender);
            assert(!c.peers.contains(e2.sender));
            assert(front.peers =~= seq![e1.sender, e2.sender]);
            assert(front.peers.to_set() =~= set![e1.sender, e2.sender]) by {
                assert(front.peers[0] == e1.sender);
                assert(front.peers[1] == e2.sender);
            }
            assert(front.epoch_ids.len() == matched);
            assert(shape_of(front) == joint_shape(e1, e2, matched));
            let made = rest_cluster(e2, matched, all.next_id);
            lemma_fresh_single(
                all.next_id,
                e2.ids.skip(matched as int),
                (e2.first_epoch_number + matched) as usize,
                e2.sender,
            );
            assert(shape_of(made) == rest_shape(e2, matched));
            match step.split {
                Some(tail) => {
                    assert(tail.peers == c.peers);
                    assert(shape_of(tail) == rest_shape(e1, matched));
                    if matched < e2.ids.len() {
                        assert(s2.epoch_clusters =~= seq![front, tail, made]);
                        lemma_count_three(front, tail, made, pred);
                    } else {
                        assert(s2.epoch_clusters =~= seq![front, tail]);
                        lemma_count_two(front, tail, pred);
                    }
                },
                None => {
                    assert(matched == e1.ids.len());
                    if matched < e2.ids.len() {
                        assert(s2.epoch_clusters =~= seq![front, made]);
                        lemma_count_two(front, made, pred);
                    } else {
                        assert(s2.epoch_clusters =~= seq![front]);
                        lemma_count_one(front, pred);
                    }
                },
            }
        } else {
            assert(matched == 0);
            if e2.ids.len() > 0 {
                assert(s2.epoch_clusters =~= seq![c, own]);
                lemma_count_two(c, own, pred);
                assert(shape_of(own) == whole_shape(e2));
            } else {
                assert(s2.epoch_clusters =~= seq![c]);
                lemma_count_one(c, pred);
            }
        }
    }
}

/// The clusters of checkpoints that come of two peers, heard one after the
/// other in the empty state, are those that `checkpoints_of_two` counts.
pub proof fn lemma_checkpoints_of_two(e1: EpochIdsView, e2: EpochIdsView, shape: Shape)
    requires
        e1.wf(),
        e2.wf(),
        e1.sender != e2.sender,
    ensures
        count_clusters(merged(merged(empty_sync(), e1), e2).checkpoint_clusters, has_shape(shape))
            == checkpoints_of_two(e1, e2, shape),
{
    let s1 = merged(empty_sync(), e1);
    let s2 = merged(s1, e2);
    let pred = has_shape(shape);
    lemma_merged_into_empty(e1);
    let m = merged_epochs(s1, e2);
    assert(seq![e2.sender].to_set() =~= set![e2.sender]);
    assert(seq![e1.sender].to_set() =~= set![e1.sender]);
    match e2.checkpoint_id {
        None => {
            assert(s2.checkpoint_clusters == s1.checkpoint_clusters);
            match e1.checkpoint_id {
                Some(hash) => {
                    let c = s1.checkpoint_clusters[0];
                    lemma_fresh_single(
                        num_epoch_clusters(e1) as u64,
                        seq![hash],
                        e1.checkpoint_epoch() as usize,
                        e1.sender,
                    );
                    lemma_count_one(c, pred);
                    assert(shape_of(c) == checkpoint_shape(e1, set![e1.sender]));
                },
                None => {},
            }
        },
        Some(hash2) => {
            let epoch2 = e2.checkpoint_epoch();
            let own = ClusterView::fresh(m.next_id, seq![hash2], epoch2 as usize, seq![e2.sender]);
            lemma_fresh_single(m.next_id, seq![hash2], epoch2 as usize, e2.sender);
            assert(shape_of(own) == checkpoint_shape(e2, set![e2.sender]));
            match e1.checkpoint_id {
                None => {
                    assert(checkpoint_cluster(s1.checkpoint_clusters, epoch2, hash2) is None);
                    assert(s2.checkpoint_clusters =~= seq![own]);
                    lemma_count_one(own, pred);
                },
                Some(hash1) => {
                    let c = s1.checkpoint_clusters[0];
                    lemma_fresh_single(
                        num_epoch_clusters(e1) as u64,
                        seq![hash1],
                        e1.checkpoint_epoch() as usize,
                        e1.sender,
                    );
                    assert(shape_of(c) == checkpoint_shape(e1, set![e1.sender]));
                    assert(s1.checkpoint_clusters.drop_last() =~= Seq::<ClusterView>::empty());
                    assert(checkpoint_cluster(s1.checkpoint_clusters.drop_last(), epoch2, hash2)
                        is None);
                    assert(s1.checkpoint_clusters.last() == c);
                    assert(is_checkpoint_cluster(c, epoch2, hash2) == same_checkpoint(e1, e2));
                    if same_checkpoint(e1, e2) {
                        assert(checkpoint_cluster(s1.checkpoint_clusters, epoch2, hash2) == Some(
                            0int,
                        ));
                        let both = c.add_peer(e2.sender);
                        assert(c.peers[0] == e1.sender);
                        assert(!c.peers.contains(e2.sender));
                        assert(both.peers =~= seq![e1.sender, e2.sender]);
                        assert(both.peers.to_set() =~= set![e1.sender, e2.sender]) by {
                            assert(both.peers[0] == e1.sender);
                            assert(both.peers[1] == e2.sender);
                        }
                        assert(s2.checkpoint_clusters =~= seq![both]);
                        lemma_count_one(both, pred);
                        assert(shape_of(both) == checkpoint_shape(
                            e1,
                            set![e1.sender, e2.sender],
                        ));
                    } else {
                        assert(checkpoint_cluster(s1.checkpoint_clusters, epoch2, hash2) is None);
                        assert(s2.checkpoint_clusters =~= seq![c, own]);
                        lemma_count_two(c, own, pred);
                    }
                },
            }
        },
    }
}

/// The order in which two peers are heard does not matter. For the ids of
/// two peers that begin at the same epoch, merged one after the other into
/// the empty state, the clusters of epochs and the clusters of checkpoints
/// have the same shapes in either order: the same epochs with the same
/// hashes and the same set of peers, each as often.
pub proof fn lemma_order_of_two_peers_does_not_matter(e1: EpochIdsView, e2: EpochIdsView)
    requires
        e1.wf(),
        e2.wf(),
        e1.first_epoch_number == e2.first_epoch_number,
        e1.sender != e2.sender,
    ensures
        same_shapes(
            merged(merged(empty_sync(), e1), e2).epoch_clusters,
            merged(merged(empty_sync(), e2), e1).epoch_clusters,
        ),
        same_shapes(
            merged(merged(empty_sync(), e1), e2).checkpoint_clusters,
            merged(merged(empty_sync(), e2), e1).checkpoint_clusters,
        ),
{
    let forth = merged(merged(empty_sync(), e1), e2);
    let back = merged(merged(empty_sync(), e2), e1);
    assert forall|shape: Shape|
        count_clusters(forth.epoch_clusters, #[trigger] has_shape(shape)) == count_clusters(
            back.epoch_clusters,
            has_shape(shape),
        ) by {
        lemma_pool_of_two(e1, e2, shape);
        lemma_pool_of_two(e2, e1, shape);
        lemma_count_of_two_symmetric(e1, e2, shape);
    }
    assert forall|shape: Shape|
        count_clusters(forth.checkpoint_clusters, #[trigger] has_shape(shape)) == count_clusters(
            back.checkpoint_clusters,
            has_shape(shape),
        ) by {
        lemma_checkpoints_of_two(e1, e2, shape);
        lemma_checkpoints_of_two(e2, e1, shape);
        lemma_count_of_two_symmetric(e1, e2, shape);
    }
}

} // verus!
