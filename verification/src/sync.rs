//! The state of the history sync: the pools of clusters, the one cluster that
//! is being pulled, the queue of commits and the peer bookkeeping.
use crate::cluster::{ClusterView, PeerId, SyncCluster, SyncClusterResult};
use crate::hash::Blake2bHash;
use std::collections::HashMap;
use std::collections::VecDeque;
use vstd::prelude::*;

verus! {

/// A unit of work for the single consumer that commits to the chain.
#[derive(Debug)]
pub enum Job {
    /// The batch set of one epoch waits to be committed: the id of the cluster
    /// that delivered it, the hash of its election block, and its epoch number.
    PushBatchSet(u64, Blake2bHash, usize),
    /// A cluster has ended and waits for its peers to be released.
    FinishCluster(SyncCluster, SyncClusterResult),
}

/// The mathematical content of a job.
pub enum JobView {
    PushBatchSet(u64, Blake2bHash, usize),
    FinishCluster(ClusterView, SyncClusterResult),
}

impl View for Job {
    type V = JobView;

    open spec fn view(&self) -> JobView {
        match self {
            Job::PushBatchSet(id, hash, epoch) => JobView::PushBatchSet(*id, *hash, *epoch),
            Job::FinishCluster(cluster, result) => JobView::FinishCluster(cluster@, *result),
        }
    }
}

impl JobView {
    /// The id of the cluster that the job belongs to.
    pub open spec fn cluster_id(self) -> u64 {
        match self {
            JobView::PushBatchSet(id, _, _) => id,
            JobView::FinishCluster(cluster, _) => cluster.id,
        }
    }
}

/// What the sync tells the node about a peer.
#[derive(Clone, Copy, Debug, PartialEq, Eq, Structural)]
pub enum HistorySyncReturn {
    /// The peer has nothing that the node lacks.
    Good(PeerId),
    /// The peer is behind, on another chain, or has nothing new for now.
    Outdated(PeerId),
}

/// The state of the history sync.
pub struct HistorySync {
    /// The clusters of finalized epochs that wait to be pulled.
    pub epoch_clusters: Vec<SyncCluster>,
    /// The clusters of one checkpoint each that wait to be pulled.
    pub checkpoint_clusters: Vec<SyncCluster>,
    /// The cluster that is being pulled.
    pub active_cluster: Option<SyncCluster>,
    /// The commits and cluster endings that wait for the consumer, oldest first.
    pub job_queue: VecDeque<Job>,
    /// For each peer, the number of clusters that it takes part in.
    pub peers: HashMap<PeerId, u32>,
    /// The id that the next new cluster gets.
    pub next_cluster_id: u64,
}

/// The mathematical content of the sync state.
pub struct SyncView {
    pub epoch_clusters: Seq<ClusterView>,
    pub checkpoint_clusters: Seq<ClusterView>,
    pub active_cluster: Option<ClusterView>,
    pub job_queue: Seq<JobView>,
    pub peers: Map<PeerId, u32>,
    pub next_cluster_id: u64,
}

/// The contents of a list of clusters.
pub open spec fn cluster_views(clusters: Seq<SyncCluster>) -> Seq<ClusterView> {
    Seq::new(clusters.len(), |i: int| clusters[i]@)
}

/// The contents of a list of jobs.
pub open spec fn job_views(jobs: Seq<Job>) -> Seq<JobView> {
    Seq::new(jobs.len(), |i: int| jobs[i]@)
}

/// The content of a cluster that may be absent.
pub open spec fn option_view(cluster: Option<SyncCluster>) -> Option<ClusterView> {
    match cluster {
        Some(c) => Some(c@),
        None => None,
    }
}

impl View for HistorySync {
    type V = SyncView;

    open spec fn view(&self) -> SyncView {
        SyncView {
            epoch_clusters: cluster_views(self.epoch_clusters@),
            checkpoint_clusters: cluster_views(self.checkpoint_clusters@),
            active_cluster: option_view(self.active_cluster),
            job_queue: job_views(self.job_queue@),
            peers: self.peers@,
            next_cluster_id: self.next_cluster_id,
        }
    }
}

/// The number of clusters that the bookkeeping holds for `peer`: none where it
/// has no entry.
pub open spec fn count_of(peers: Map<PeerId, u32>, peer: PeerId) -> u32 {
    if peers.contains_key(peer) {
        peers[peer]
    } else {
        0
    }
}

/// One more, as far as the type goes.
pub open spec fn saturating_inc(n: u32) -> u32 {
    if n < u32::MAX {
        (n + 1) as u32
    } else {
        n
    }
}

/// The bookkeeping after `peer` joined one more cluster.
pub open spec fn bumped(peers: Map<PeerId, u32>, peer: PeerId) -> Map<PeerId, u32> {
    peers.insert(peer, saturating_inc(count_of(peers, peer)))
}

/// The bookkeeping after each of `joined` joined one more cluster, in turn.
pub open spec fn bumped_all(peers: Map<PeerId, u32>, joined: Seq<PeerId>) -> Map<PeerId, u32>
    decreases joined.len(),
{
    if joined.len() == 0 {
        peers
    } else {
        bumped(bumped_all(peers, joined.drop_last()), joined.last())
    }
}

/// The bookkeeping after the peers of each of `clusters` joined one more
/// cluster, cluster by cluster.
pub open spec fn bumped_for(peers: Map<PeerId, u32>, clusters: Seq<ClusterView>) -> Map<
    PeerId,
    u32,
>
    decreases clusters.len(),
{
    if clusters.len() == 0 {
        peers
    } else {
        bumped_all(bumped_for(peers, clusters.drop_last()), clusters.last().peers)
    }
}

/// The cluster holds `peer`.
pub open spec fn holds_peer(peer: PeerId) -> spec_fn(ClusterView) -> bool {
    |c: ClusterView| c.peers.contains(peer)
}

/// The cluster has the id `id`.
pub open spec fn has_id(id: u64) -> spec_fn(ClusterView) -> bool {
    |c: ClusterView| c.id == id
}

/// How many of `clusters` satisfy `pred`.
pub open spec fn count_clusters(clusters: Seq<ClusterView>, pred: spec_fn(ClusterView) -> bool) -> nat
    decreases clusters.len(),
{
    if clusters.len() == 0 {
        0
    } else {
        count_clusters(clusters.drop_last(), pred) + if pred(clusters.last()) {
            1nat
        } else {
            0nat
        }
    }
}

/// How many of the clusters that wait in `jobs` for their end satisfy `pred`.
pub open spec fn count_finishing(jobs: Seq<JobView>, pred: spec_fn(ClusterView) -> bool) -> nat
    decreases jobs.len(),
{
    if jobs.len() == 0 {
        0
    } else {
        count_finishing(jobs.drop_last(), pred) + match jobs.last() {
            JobView::FinishCluster(cluster, _) => if pred(cluster) {
                1nat
            } else {
                0nat
            },
            JobView::PushBatchSet(_, _, _) => 0nat,
        }
    }
}

/// One if the cluster is there and satisfies `pred`.
pub open spec fn count_active(cluster: Option<ClusterView>, pred: spec_fn(ClusterView) -> bool) -> nat {
    match cluster {
        Some(c) => if pred(c) {
            1
        } else {
            0
        },
        None => 0,
    }
}

impl SyncView {
    /// How many live clusters satisfy `pred`. A cluster is live from its
    /// creation until its end has been processed: while it waits in a pool,
    /// while it is being pulled, and while it waits in the queue for its end.
    pub open spec fn count_live(self, pred: spec_fn(ClusterView) -> bool) -> nat {
        count_clusters(self.epoch_clusters, pred) + count_clusters(self.checkpoint_clusters, pred)
            + count_active(self.active_cluster, pred) + count_finishing(self.job_queue, pred)
    }

    /// How many live clusters hold `peer`.
    pub open spec fn occurrences(self, peer: PeerId) -> nat {
        self.count_live(holds_peer(peer))
    }

    /// How many live clusters there are.
    pub open spec fn num_live(self) -> nat {
        self.count_live(|c: ClusterView| true)
    }

    /// The bookkeeping is exact: for every peer it holds the number of live
    /// clusters that the peer takes part in.
    pub open spec fn counts_exact(self) -> bool {
        forall|peer: PeerId| count_of(self.peers, peer) == #[trigger] self.occurrences(peer)
    }

    /// Every cluster is well formed. Those in the pools hold at least one
    /// epoch, those of checkpoints exactly one, and of none of them anything
    /// was delivered yet.
    pub open spec fn clusters_wf(self) -> bool {
        &&& forall|i: int|
            0 <= i < self.epoch_clusters.len() ==> (#[trigger] self.epoch_clusters[i]).wf()
                && self.epoch_clusters[i].num_epochs_finished == 0
                && self.epoch_clusters[i].epoch_ids.len() > 0
        &&& forall|i: int|
            0 <= i < self.checkpoint_clusters.len() ==> (#[trigger] self.checkpoint_clusters[i]).wf()
                && self.checkpoint_clusters[i].num_epochs_finished == 0
                && self.checkpoint_clusters[i].epoch_ids.len() == 1
        &&& self.active_cluster matches Some(c) ==> c.wf()
        &&& forall|i: int|
            0 <= i < self.job_queue.len() ==> (#[trigger] self.job_queue[i] matches JobView::FinishCluster(
                c,
                _,
            ) ==> c.wf())
    }

    /// Every id in use is below the id that the next cluster gets.
    pub open spec fn ids_below_next(self) -> bool {
        &&& forall|i: int|
            0 <= i < self.epoch_clusters.len() ==> (#[trigger] self.epoch_clusters[i]).id
                < self.next_cluster_id
        &&& forall|i: int|
            0 <= i < self.checkpoint_clusters.len() ==> (#[trigger] self.checkpoint_clusters[i]).id
                < self.next_cluster_id
        &&& self.active_cluster matches Some(c) ==> c.id < self.next_cluster_id
        &&& forall|i: int|
            0 <= i < self.job_queue.len() ==> (#[trigger] self.job_queue[i]).cluster_id()
                < self.next_cluster_id
    }

    /// No two live clusters share an id.
    pub open spec fn ids_unique(self) -> bool {
        forall|id: u64| #[trigger] self.count_live(has_id(id)) <= 1
    }

    /// The job at position `i` of the queue is in order: if it is a commit, it
    /// is followed by the commit of the next epoch of its cluster or by the end
    /// of its cluster; or it is the last job, belongs to the cluster that is
    /// being pulled, and is the commit of the epoch that this cluster
    /// delivered last.
    pub open spec fn job_in_order(self, i: int) -> bool {
        self.job_queue[i] matches JobView::PushBatchSet(id, _, epoch) ==> if i + 1
            < self.job_queue.len() {
            match self.job_queue[i + 1] {
                JobView::PushBatchSet(next_id, _, next_epoch) => next_id == id && next_epoch
                    == epoch + 1,
                JobView::FinishCluster(c, _) => c.id == id && c.first_epoch_number
                    + c.num_epochs_finished == epoch + 1,
            }
        } else {
            self.active_cluster matches Some(c) && c.id == id && c.first_epoch_number
                + c.num_epochs_finished == epoch + 1
        }
    }

    /// The queue holds the jobs of one cluster after the other, each cluster's
    /// commits in the order of its epochs and before its end.
    pub open spec fn queue_ordered(self) -> bool {
        forall|i: int| 0 <= i < self.job_queue.len() ==> #[trigger] self.job_in_order(i)
    }

    /// There are ids left for every cluster that clustering the ids of one
    /// peer may make: one for each cluster that may be split, one for the
    /// rest of the ids and one for the checkpoint.
    pub open spec fn has_id_headroom(self) -> bool {
        self.next_cluster_id + self.epoch_clusters.len() + 3 <= u64::MAX
    }

    /// The state is well formed: its clusters are, their ids are unique and
    /// below the next id, and the queue is in order.
    pub open spec fn wf(self) -> bool {
        &&& self.clusters_wf()
        &&& self.ids_below_next()
        &&& self.ids_unique()
        &&& self.queue_ordered()
    }
}

impl HistorySync {
    /// The most clusters of epochs that may wait while further peers are probed.
    pub const MAX_CLUSTERS: usize = 128;

    /// The most jobs that may wait for the consumer.
    pub const MAX_QUEUED_JOBS: usize = 4;

    /// The state is well formed. Every operation of the sync keeps it so.
    pub open spec fn wf(&self) -> bool {
        self@.wf()
    }

    /// Whether there are ids left for the clusters that clustering the ids of
    /// one more peer may make.
    pub fn has_id_headroom(&self) -> (enough: bool)
        ensures
            enough == self@.has_id_headroom(),
    {
        let room = u64::MAX - self.next_cluster_id;
        room >= 3 && self.epoch_clusters.len() as u64 <= room - 3
    }

    /// The number of clusters that the bookkeeping holds for `peer`.
    pub fn cluster_count(&self, peer: PeerId) -> (count: u32)
        ensures
            count == count_of(self@.peers, peer),
    {
        broadcast use vstd::std_specs::hash::group_hash_axioms;

        match self.peers.get(&peer) {
            Some(count) => *count,
            None => 0,
        }
    }

    /// A sync with no clusters, no jobs and no peers.
    pub fn new() -> (sync: Self)
        ensures
            sync.wf(),
            sync@.counts_exact(),
            sync@.epoch_clusters.len() == 0,
            sync@.checkpoint_clusters.len() == 0,
            sync@.active_cluster is None,
            sync@.job_queue.len() == 0,
            sync@.peers == Map::<PeerId, u32>::empty(),
            sync@.next_cluster_id == 0,
    {
        let sync = HistorySync {
            epoch_clusters: Vec::new(),
            checkpoint_clusters: Vec::new(),
            active_cluster: None,
            job_queue: VecDeque::new(),
            peers: HashMap::new(),
            next_cluster_id: 0,
        };
        proof {
            assert(sync@.epoch_clusters =~= Seq::empty());
            assert(sync@.checkpoint_clusters =~= Seq::empty());
            assert(sync@.job_queue =~= Seq::empty());
        }
        sync
    }
}

} // verus!
