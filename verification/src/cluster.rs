//! A cluster: a contiguous run of epoch hashes together with the peers that
//! are known to serve exactly that run.
use crate::hash::Blake2bHash;
use core::cmp::Ordering;
use vstd::prelude::*;

verus! {

/// Identifies a peer. Clusters and the bookkeeping hold ids only, never handles.
pub type PeerId = u64;

/// How a cluster, or the commit of one of its epochs, ended.
#[derive(Clone, Copy, Debug, PartialEq, Eq, Structural)]
pub enum SyncClusterResult {
    EpochSuccessful,
    NoMoreEpochs,
    Error,
}

/// A request for the batch set of one epoch, addressed to one peer.
#[derive(Clone, Copy, Debug)]
pub struct BatchSetRequest {
    pub epoch_number: usize,
    pub epoch_id: Blake2bHash,
    pub peer: PeerId,
}

/// What a cluster wants next.
#[derive(Clone, Copy, Debug)]
pub enum ClusterPoll {
    /// Fetch this batch set and report back.
    Request(BatchSetRequest),
    /// The stream is over: `NoMoreEpochs` after the last epoch was delivered,
    /// `Error` when no peer is left to try for the next one.
    Finished(SyncClusterResult),
}

/// A run of consecutive epochs, given by the hashes of their election
/// blocks, and the peers that are known to serve all of them.
#[derive(Debug)]
pub struct SyncCluster {
    /// The id of the cluster, which no other cluster of the same sync has.
    pub id: u64,
    /// The hashes of the election blocks, epoch by epoch.
    pub epoch_ids: Vec<Blake2bHash>,
    /// The epoch of the first hash.
    pub first_epoch_number: usize,
    /// The peers that serve the cluster, in the order in which they joined.
    pub peers: Vec<PeerId>,
    /// How many epochs, counted from the front, have been delivered.
    pub num_epochs_finished: usize,
    /// The position in `peers` of the peer that is asked next.
    pub next_peer: usize,
    /// How many peers in a row have failed to deliver the next epoch.
    pub failed_requests: usize,
}

/// The mathematical content of a cluster.
pub struct ClusterView {
    pub id: u64,
    pub epoch_ids: Seq<Blake2bHash>,
    pub first_epoch_number: usize,
    pub peers: Seq<PeerId>,
    pub num_epochs_finished: usize,
    pub next_peer: usize,
    pub failed_requests: usize,
}

impl View for SyncCluster {
    type V = ClusterView;

    open spec fn view(&self) -> ClusterView {
        ClusterView {
            id: self.id,
            epoch_ids: self.epoch_ids@,
            first_epoch_number: self.first_epoch_number,
            peers: self.peers@,
            num_epochs_finished: self.num_epochs_finished,
            next_peer: self.next_peer,
            failed_requests: self.failed_requests,
        }
    }
}

/// The position after `cursor` in a round over `len` peers.
pub open spec fn next_in_turn(cursor: usize, len: nat) -> usize {
    if cursor + 1 < len {
        (cursor + 1) as usize
    } else {
        0
    }
}

impl ClusterView {
    pub open spec fn wf(self) -> bool {
        &&& self.first_epoch_number + self.epoch_ids.len() <= usize::MAX
        &&& self.num_epochs_finished <= self.epoch_ids.len()
        &&& self.peers.no_duplicates()
        &&& self.failed_requests <= self.peers.len()
        &&& self.next_peer < self.peers.len() || self.next_peer == 0
    }

    /// The epoch number one past the last epoch of the cluster.
    pub open spec fn end_epoch(self) -> int {
        self.first_epoch_number + self.epoch_ids.len()
    }

    /// The cluster covers epoch `epoch`.
    pub open spec fn covers(self, epoch: int) -> bool {
        self.first_epoch_number <= epoch < self.end_epoch()
    }

    /// The hash that the cluster holds for epoch `epoch`.
    pub open spec fn epoch_id_at(self, epoch: int) -> Blake2bHash
        recommends
            self.covers(epoch),
    {
        self.epoch_ids[epoch - self.first_epoch_number]
    }

    /// A fresh cluster with one peer after the other added.
    pub open spec fn fresh(
        id: u64,
        epoch_ids: Seq<Blake2bHash>,
        first_epoch_number: usize,
        peers: Seq<PeerId>,
    ) -> ClusterView
        decreases peers.len(),
    {
        if peers.len() == 0 {
            ClusterView {
                id,
                epoch_ids,
                first_epoch_number,
                peers: Seq::empty(),
                num_epochs_finished: 0,
                next_peer: 0,
                failed_requests: 0,
            }
        } else {
            Self::fresh(id, epoch_ids, first_epoch_number, peers.drop_last()).add_peer(
                peers.last(),
            )
        }
    }

    /// The cluster with `peer` among its peers: appended, unless it is there.
    pub open spec fn add_peer(self, peer: PeerId) -> ClusterView {
        if self.peers.contains(peer) {
            self
        } else {
            ClusterView { peers: self.peers.push(peer), ..self }
        }
    }

    /// The cluster without `peer`. The cursor stays on the peer it pointed at,
    /// or returns to the front when that peer was the last one.
    pub open spec fn remove_peer(self, peer: PeerId) -> ClusterView {
        if !self.peers.contains(peer) {
            self
        } else {
            let at = self.peers.index_of(peer);
            let rest = self.peers.remove(at);
            let shifted = if at < self.next_peer {
                self.next_peer - 1
            } else {
                self.next_peer as int
            };
            ClusterView {
                peers: rest,
                next_peer: if shifted >= rest.len() {
                    0
                } else {
                    shifted as usize
                },
                failed_requests: if self.failed_requests > rest.len() {
                    rest.len() as usize
                } else {
                    self.failed_requests
                },
                ..self
            }
        }
    }

    /// What stays of the cluster when it is cut at index `at`.
    pub open spec fn split_head(self, at: int) -> ClusterView {
        ClusterView { epoch_ids: self.epoch_ids.take(at), ..self }
    }

    /// What is cut off at index `at`: the rest of the epochs, under the id
    /// `id`, with the same peers and nothing delivered.
    pub open spec fn split_tail(self, at: int, id: u64) -> ClusterView {
        ClusterView {
            id,
            epoch_ids: self.epoch_ids.skip(at),
            first_epoch_number: (self.first_epoch_number + at) as usize,
            peers: self.peers,
            num_epochs_finished: 0,
            next_peer: 0,
            failed_requests: 0,
        }
    }

    /// The cluster without its first `n` epochs.
    pub open spec fn remove_front(self, n: int) -> ClusterView {
        ClusterView {
            epoch_ids: self.epoch_ids.skip(n),
            first_epoch_number: (self.first_epoch_number + n) as usize,
            ..self
        }
    }

    /// What the cluster wants next: the batch set of its next epoch from the
    /// peer under the cursor, or the end of the stream.
    pub open spec fn next_step(self) -> ClusterPoll {
        if self.num_epochs_finished >= self.epoch_ids.len() {
            ClusterPoll::Finished(SyncClusterResult::NoMoreEpochs)
        } else if self.failed_requests >= self.peers.len() {
            ClusterPoll::Finished(SyncClusterResult::Error)
        } else {
            ClusterPoll::Request(
                BatchSetRequest {
                    epoch_number: (self.first_epoch_number + self.num_epochs_finished) as usize,
                    epoch_id: self.epoch_ids[self.num_epochs_finished as int],
                    peer: self.peers[self.next_peer as int],
                },
            )
        }
    }

    /// The cluster after its pending request was answered.
    pub open spec fn delivered(self) -> ClusterView {
        ClusterView {
            num_epochs_finished: (self.num_epochs_finished + 1) as usize,
            failed_requests: 0,
            next_peer: next_in_turn(self.next_peer, self.peers.len()),
            ..self
        }
    }

    /// The cluster after its pending request failed.
    pub open spec fn failed(self) -> ClusterView {
        ClusterView {
            failed_requests: (self.failed_requests + 1) as usize,
            next_peer: next_in_turn(self.next_peer, self.peers.len()),
            ..self
        }
    }
}

/// `a` is scheduled before `b`: it reaches further; or as far, but begins
/// earlier; or covers the same range with more peers; or, all that being equal,
/// has the lower id.
pub open spec fn ranks_above(a: ClusterView, b: ClusterView) -> bool {
    ||| a.end_epoch() > b.end_epoch()
    ||| (a.end_epoch() == b.end_epoch() && a.first_epoch_number < b.first_epoch_number)
    ||| (a.end_epoch() == b.end_epoch() && a.first_epoch_number == b.first_epoch_number
        && a.peers.len() > b.peers.len())
    ||| (a.end_epoch() == b.end_epoch() && a.first_epoch_number == b.first_epoch_number
        && a.peers.len() == b.peers.len() && a.id < b.id)
}

impl SyncCluster {
    /// The epoch numbers of the cluster are representable, no more epochs are
    /// delivered than it has, no peer is in it twice, and the cursor and the
    /// count of failures lie within its peers.
    pub open spec fn wf(&self) -> bool {
        self@.wf()
    }

    /// A cluster over `epoch_ids`, the first of which belongs to epoch
    /// `first_epoch_number`, served by `peers` (duplicates are dropped).
    pub fn new(id: u64, epoch_ids: Vec<Blake2bHash>, first_epoch_number: usize, peers: Vec<
        PeerId,
    >) -> (c: Self)
        requires
            first_epoch_number + epoch_ids@.len() <= usize::MAX,
        ensures
            c.wf(),
            c@ == ClusterView::fresh(id, epoch_ids@, first_epoch_number, peers@),
            c.id == id,
            c.epoch_ids@ == epoch_ids@,
            c.first_epoch_number == first_epoch_number,
            c.num_epochs_finished == 0,
            forall|p: PeerId| c.peers@.contains(p) <==> peers@.contains(p),
            peers@.no_duplicates() ==> c.peers@ == peers@,
    {
        proof {
            lemma_fresh(id, epoch_ids@, first_epoch_number, peers@);
        }
        let mut c = SyncCluster {
            id,
            epoch_ids,
            first_epoch_number,
            peers: Vec::new(),
            num_epochs_finished: 0,
            next_peer: 0,
            failed_requests: 0,
        };
        let mut i: usize = 0;
        while i < peers.len()
            invariant
                i <= peers.len(),
                c.wf(),
                c@ == ClusterView::fresh(id, epoch_ids@, first_epoch_number, peers@.take(i as int)),
            decreases peers.len() - i,
        {
            let p = peers[i];
            c.add_peer(p);
            proof {
                assert(peers@.take(i + 1).drop_last() =~= peers@.take(i as int));
            }
            i += 1;
        }
        proof {
            assert(peers@.take(peers@.len() as int) =~= peers@);
        }
        c
    }

    /// The peers of the cluster.
    pub fn peers(&self) -> (p: &Vec<PeerId>)
        ensures
            *p == self.peers,
    {
        &self.peers
    }

    /// How many epochs have been delivered.
    pub fn num_epochs_finished(&self) -> (n: usize)
        ensures
            n == self.num_epochs_finished,
    {
        self.num_epochs_finished
    }

    /// Whether `peer` belongs to the cluster.
    pub fn has_peer(&self, peer: PeerId) -> (found: bool)
        ensures
            found == self@.peers.contains(peer),
    {
        let mut i: usize = 0;
        while i < self.peers.len()
            invariant
                i <= self.peers.len(),
                forall|j: int| 0 <= j < i ==> self.peers@[j] != peer,
            decreases self.peers.len() - i,
        {
            if self.peers[i] == peer {
                return true;
            }
            i += 1;
        }
        false
    }

    /// Adds `peer` unless it is there already. Says whether it was added.
    pub fn add_peer(&mut self, peer: PeerId) -> (added: bool)
        requires
            old(self).wf(),
        ensures
            final(self).wf(),
            added == !old(self)@.peers.contains(peer),
            final(self)@ == old(self)@.add_peer(peer),
    {
        if self.has_peer(peer) {
            return false;
        }
        self.peers.push(peer);
        proof {
            lemma_add_peer(old(self)@, peer);
        }
        true
    }

    /// Removes `peer` if it is there. Says whether it was.
    pub fn remove_peer(&mut self, peer: PeerId) -> (removed: bool)
        requires
            old(self).wf(),
        ensures
            final(self).wf(),
            removed == old(self)@.peers.contains(peer),
            final(self)@ == old(self)@.remove_peer(peer),
    {
        let mut i: usize = 0;
        while i < self.peers.len()
            invariant
                i <= self.peers.len(),
                *self == *old(self),
                self.wf(),
                forall|j: int| 0 <= j < i ==> self.peers@[j] != peer,
            decreases self.peers.len() - i,
        {
            if self.peers[i] == peer {
                proof {
                    let before = self.peers@;
                    let k = before.index_of(peer);
                    assert(before.contains(peer));
                    assert(0 <= k < before.len() && before[k] == peer);
                    assert(k == i);
                    lemma_remove_peer(old(self)@, peer);
                }
                self.peers.remove(i);
                if i < self.next_peer {
                    self.next_peer = self.next_peer - 1;
                }
                if self.next_peer >= self.peers.len() {
                    self.next_peer = 0;
                }
                if self.failed_requests > self.peers.len() {
                    self.failed_requests = self.peers.len();
                }
                return true;
            }
            i += 1;
        }
        false
    }

    /// Cuts the cluster in two at index `at`. The receiver keeps the epochs
    /// before `at`; the cluster that is returned holds the rest under the id
    /// `id`, with the same peers and nothing delivered yet.
    pub fn split_off(&mut self, at: usize, id: u64) -> (tail: Self)
        requires
            old(self).wf(),
            0 < at < old(self)@.epoch_ids.len(),
            old(self).num_epochs_finished <= at,
        ensures
            final(self).wf(),
            tail.wf(),
            final(self)@ == old(self)@.split_head(at as int),
            tail@ == old(self)@.split_tail(at as int, id),
    {
        let ids = self.epoch_ids.split_off(at);
        let peers = copy_peers(&self.peers);
        proof {
            assert(old(self).epoch_ids@.take(at as int) =~= old(self).epoch_ids@.subrange(
                0,
                at as int,
            ));
            assert(old(self).epoch_ids@.skip(at as int) =~= old(self).epoch_ids@.subrange(
                at as int,
                old(self).epoch_ids@.len() as int,
            ));
        }
        SyncCluster {
            id,
            epoch_ids: ids,
            first_epoch_number: self.first_epoch_number + at,
            peers,
            num_epochs_finished: 0,
            next_peer: 0,
            failed_requests: 0,
        }
    }

    /// Drops the first `n` epochs of a cluster of which nothing was delivered
    /// yet.
    pub fn remove_front(&mut self, n: usize)
        requires
            old(self).wf(),
            n <= old(self)@.epoch_ids.len(),
            old(self).num_epochs_finished == 0,
        ensures
            final(self).wf(),
            final(self)@ == old(self)@.remove_front(n as int),
    {
        let rest = self.epoch_ids.split_off(n);
        self.epoch_ids = rest;
        self.first_epoch_number = self.first_epoch_number + n;
        proof {
            assert(self.epoch_ids@ =~= old(self).epoch_ids@.skip(n as int));
        }
    }

    /// Whether the scheduler takes this cluster before `other`.
    pub fn is_better_than(&self, other: &Self) -> (better: bool)
        requires
            self.wf(),
            other.wf(),
        ensures
            better == ranks_above(self@, other@),
    {
        let end = self.first_epoch_number + self.epoch_ids.len();
        let other_end = other.first_epoch_number + other.epoch_ids.len();
        if end != other_end {
            end > other_end
        } else if self.first_epoch_number != other.first_epoch_number {
            self.first_epoch_number < other.first_epoch_number
        } else if self.peers.len() != other.peers.len() {
            self.peers.len() > other.peers.len()
        } else {
            self.id < other.id
        }
    }

    /// The scheduler's order: `Greater` means that this cluster is taken before
    /// `other`. The order looks at the whole range of a cluster, also where it
    /// begins at or before `current_epoch`: trimming is the scheduler's work.
    pub fn compare(&self, other: &Self, current_epoch: usize) -> (order: Ordering)
        requires
            self.wf(),
            other.wf(),
        ensures
            match order {
                Ordering::Greater => ranks_above(self@, other@),
                Ordering::Less => ranks_above(other@, self@),
                Ordering::Equal => !ranks_above(self@, other@) && !ranks_above(other@, self@),
            },
    {
        if self.is_better_than(other) {
            Ordering::Greater
        } else if other.is_better_than(self) {
            Ordering::Less
        } else {
            Ordering::Equal
        }
    }

    /// What the cluster wants next.
    pub fn poll_next(&self) -> (step: ClusterPoll)
        requires
            self.wf(),
        ensures
            step == self@.next_step(),
    {
        if self.num_epochs_finished >= self.epoch_ids.len() {
            ClusterPoll::Finished(SyncClusterResult::NoMoreEpochs)
        } else if self.failed_requests >= self.peers.len() {
            ClusterPoll::Finished(SyncClusterResult::Error)
        } else {
            ClusterPoll::Request(
                BatchSetRequest {
                    epoch_number: self.first_epoch_number + self.num_epochs_finished,
                    epoch_id: self.epoch_ids[self.num_epochs_finished],
                    peer: self.peers[self.next_peer],
                },
            )
        }
    }

    /// The pending request was answered: its epoch is delivered, and the next
    /// epoch goes to the next peer in turn. Returns the request that was
    /// answered.
    pub fn batch_set_received(&mut self) -> (answered: BatchSetRequest)
        requires
            old(self).wf(),
            old(self)@.next_step() is Request,
        ensures
            final(self).wf(),
            ClusterPoll::Request(answered) == old(self)@.next_step(),
            final(self)@ == old(self)@.delivered(),
    {
        let answered = BatchSetRequest {
            epoch_number: self.first_epoch_number + self.num_epochs_finished,
            epoch_id: self.epoch_ids[self.num_epochs_finished],
            peer: self.peers[self.next_peer],
        };
        self.num_epochs_finished = self.num_epochs_finished + 1;
        self.failed_requests = 0;
        self.advance_cursor();
        answered
    }

    /// The pending request failed: the same epoch goes to the next peer in
    /// turn, until every peer has failed once in a row.
    pub fn request_failed(&mut self)
        requires
            old(self).wf(),
            old(self)@.next_step() is Request,
        ensures
            final(self).wf(),
            final(self)@ == old(self)@.failed(),
    {
        let n = self.peers.len();
        assert(self.failed_requests < n);
        self.failed_requests = self.failed_requests + 1;
        self.advance_cursor();
    }

    fn advance_cursor(&mut self)
        requires
            old(self).next_peer < old(self).peers@.len(),
        ensures
            final(self)@ == (ClusterView {
                next_peer: next_in_turn(old(self).next_peer, old(self).peers@.len()),
                ..old(self)@
            }),
            final(self).next_peer < old(self).peers@.len(),
    {
        let n = self.peers.len();
        if self.next_peer + 1 < n {
            self.next_peer = self.next_peer + 1;
        } else {
            self.next_peer = 0;
        }
    }
}

/// A copy of a list of peers.
fn copy_peers(peers: &Vec<PeerId>) -> (copy: Vec<PeerId>)
    ensures
        copy@ == peers@,
{
    let mut copy: Vec<PeerId> = Vec::new();
    let mut i: usize = 0;
    while i < peers.len()
        invariant
            i <= peers.len(),
            copy@ == peers@.take(i as int),
        decreases peers.len() - i,
    {
        copy.push(peers[i]);
        proof {
            assert(peers@.take(i + 1) =~= peers@.take(i as int).push(peers@[i as int]));
        }
        i += 1;
    }
    proof {
        assert(peers@.take(peers@.len() as int) =~= peers@);
    }
    copy
}

/// Adding a peer keeps a cluster well formed, makes the peer a member and
/// changes the membership of no other peer.
pub proof fn lemma_add_peer(c: ClusterView, peer: PeerId)
    requires
        c.wf(),
    ensures
        c.add_peer(peer).wf(),
        c.add_peer(peer).peers.contains(peer),
        forall|q: PeerId|
            q != peer ==> (c.add_peer(peer).peers.contains(q) <==> c.peers.contains(q)),
        c.add_peer(peer).add_peer(peer) == c.add_peer(peer),
{
    let after = c.add_peer(peer).peers;
    if !c.peers.contains(peer) {
        assert(after[c.peers.len() as int] == peer);
        assert forall|q: PeerId| q != peer implies (after.contains(q) <==> c.peers.contains(
            q,
        )) by {
            if c.peers.contains(q) {
                let k = choose|k: int| 0 <= k < c.peers.len() && c.peers[k] == q;
                assert(after[k] == q);
            }
            if after.contains(q) {
                let k = choose|k: int| 0 <= k < after.len() && after[k] == q;
                assert(c.peers[k] == q);
            }
        }
    }
}

/// Removing a peer keeps a cluster well formed, ends the peer's membership
/// and changes the membership of no other peer.
pub proof fn lemma_remove_peer(c: ClusterView, peer: PeerId)
    requires
        c.wf(),
    ensures
        c.remove_peer(peer).wf(),
        !c.remove_peer(peer).peers.contains(peer),
        forall|q: PeerId|
            q != peer ==> (c.remove_peer(peer).peers.contains(q) <==> c.peers.contains(q)),
{
    if c.peers.contains(peer) {
        let before = c.peers;
        let i = before.index_of(peer);
        let after = c.remove_peer(peer).peers;
        assert(0 <= i < before.len() && before[i] == peer);
        assert(after == before.remove(i));
        assert forall|a: int, b: int|
            0 <= a < after.len() && 0 <= b < after.len() && a != b implies after[a]
            != after[b] by {
            let a0 = if a < i { a } else { a + 1 };
            let b0 = if b < i { b } else { b + 1 };
            assert(after[a] == before[a0] && after[b] == before[b0]);
        }
        assert forall|q: PeerId| q != peer implies (after.contains(q) <==> before.contains(
            q,
        )) by {
            if before.contains(q) {
                let k = choose|k: int| 0 <= k < before.len() && before[k] == q;
                let k1 = if k < i { k } else { k - 1 };
                assert(after[k1] == q);
            }
            if after.contains(q) {
                let k = choose|k: int| 0 <= k < after.len() && after[k] == q;
                let k0 = if k < i { k } else { k + 1 };
                assert(before[k0] == q);
            }
        }
        if after.contains(peer) {
            let k = choose|k: int| 0 <= k < after.len() && after[k] == peer;
            let k0 = if k < i { k } else { k + 1 };
            assert(before[k0] == peer && before[i] == peer);
        }
    }
}

/// A fresh cluster is well formed where its epoch numbers are representable,
/// has delivered nothing, and holds the peers it was given, each once: all of
/// them in their order where none was given twice.
pub proof fn lemma_fresh(
    id: u64,
    epoch_ids: Seq<Blake2bHash>,
    first_epoch_number: usize,
    peers: Seq<PeerId>,
)
    requires
        first_epoch_number + epoch_ids.len() <= usize::MAX,
    ensures
        ({
            let c = ClusterView::fresh(id, epoch_ids, first_epoch_number, peers);
            &&& c.wf()
            &&& c.id == id
            &&& c.epoch_ids == epoch_ids
            &&& c.first_epoch_number == first_epoch_number
            &&& c.num_epochs_finished == 0
            &&& c.failed_requests == 0
            &&& c.next_peer == 0
            &&& forall|p: PeerId| c.peers.contains(p) <==> peers.contains(p)
            &&& peers.no_duplicates() ==> c.peers == peers
        }),
    decreases peers.len(),
{
    let c = ClusterView::fresh(id, epoch_ids, first_epoch_number, peers);
    if peers.len() > 0 {
        let rest = peers.drop_last();
        let last = peers.last();
        let before = ClusterView::fresh(id, epoch_ids, first_epoch_number, rest);
        lemma_fresh(id, epoch_ids, first_epoch_number, rest);
        lemma_add_peer(before, last);
        assert(peers[peers.len() - 1] == last);
        assert forall|p: PeerId| c.peers.contains(p) <==> peers.contains(p) by {
            if rest.contains(p) {
                let k = choose|k: int| 0 <= k < rest.len() && rest[k] == p;
                assert(peers[k] == p);
            }
            if peers.contains(p) && p != last {
                let k = choose|k: int| 0 <= k < peers.len() && peers[k] == p;
                assert(rest[k] == p);
            }
        }
        if peers.no_duplicates() {
            if rest.contains(last) {
                let k = choose|k: int| 0 <= k < rest.len() && rest[k] == last;
                assert(peers[k] == peers[peers.len() - 1]);
            }
            assert(rest.push(last) =~= peers);
        }
    } else {
        assert(c.peers =~= peers);
    }
}

/// A fresh cluster with a single peer holds exactly that peer, has delivered
/// nothing, and is well formed where its epoch numbers are representable.
pub proof fn lemma_fresh_single(
    id: u64,
    epoch_ids: Seq<Blake2bHash>,
    first_epoch_number: usize,
    peer: PeerId,
)
    ensures
        ClusterView::fresh(id, epoch_ids, first_epoch_number, seq![peer]) == (ClusterView {
            id,
            epoch_ids,
            first_epoch_number,
            peers: seq![peer],
            num_epochs_finished: 0,
            next_peer: 0,
            failed_requests: 0,
        }),
        first_epoch_number + epoch_ids.len() <= usize::MAX ==> ClusterView::fresh(
            id,
            epoch_ids,
            first_epoch_number,
            seq![peer],
        ).wf(),
        forall|p: PeerId|
            ClusterView::fresh(id, epoch_ids, first_epoch_number, seq![peer]).peers.contains(p)
                <==> p == peer,
{
    let peers = seq![peer];
    assert(peers.drop_last() =~= Seq::<PeerId>::empty());
    assert(peers.last() == peer);
    let empty = ClusterView::fresh(id, epoch_ids, first_epoch_number, Seq::empty());
    assert(ClusterView::fresh(id, epoch_ids, first_epoch_number, peers) == empty.add_peer(peer));
    assert(empty.peers.push(peer) =~= seq![peer]);
    assert(seq![peer][0] == peer);
}

/// The scheduler's order is a strict order: nothing ranks above itself, and of
/// two clusters at most one ranks above the other.
pub proof fn lemma_ranking_is_asymmetric(a: ClusterView, b: ClusterView)
    ensures
        !ranks_above(a, a),
        ranks_above(a, b) ==> !ranks_above(b, a),
{
}

/// The scheduler's order is transitive.
pub proof fn lemma_ranking_is_transitive(a: ClusterView, b: ClusterView, c: ClusterView)
    requires
        ranks_above(a, b),
        ranks_above(b, c),
    ensures
        ranks_above(a, c),
{
}

/// Two clusters with different ids are never tied: one of them ranks above the
/// other. So over clusters with unique ids the order is total.
pub proof fn lemma_ranking_is_total(a: ClusterView, b: ClusterView)
    requires
        a.id != b.id,
    ensures
        ranks_above(a, b) || ranks_above(b, a),
{
}

/// Being no worse is transitive too: if `a` does not rank below `b`, nor `b`
/// below `c`, then `a` does not rank below `c`.
pub proof fn lemma_not_below_is_transitive(a: ClusterView, b: ClusterView, c: ClusterView)
    requires
        !ranks_above(b, a),
        !ranks_above(c, b),
    ensures
        !ranks_above(c, a),
{
}

/// The hashes of a cluster sit on consecutive epochs from its first epoch on,
/// and dropping `n` epochs from the front moves its first epoch by exactly `n`
/// while every epoch that stays keeps its hash.
pub proof fn lemma_remove_front_keeps_epochs(c: ClusterView, n: int)
    requires
        c.wf(),
        0 <= n <= c.epoch_ids.len(),
        c.num_epochs_finished == 0,
    ensures
        c.remove_front(n).wf(),
        c.remove_front(n).first_epoch_number == c.first_epoch_number + n,
        c.remove_front(n).end_epoch() == c.end_epoch(),
        forall|i: int|
            0 <= i < c.epoch_ids.len() ==> c.covers(c.first_epoch_number + i) && c.epoch_id_at(
                c.first_epoch_number + i,
            ) == #[trigger] c.epoch_ids[i],
        forall|epoch: int| #[trigger]
            c.remove_front(n).covers(epoch) <==> c.covers(epoch) && epoch >= c.first_epoch_number
                + n,
        forall|epoch: int| #[trigger]
            c.remove_front(n).covers(epoch) ==> c.remove_front(n).epoch_id_at(epoch)
                == c.epoch_id_at(epoch),
{
}

/// Splitting loses nothing: the two halves, one after the other, are the
/// epochs of the cluster that was split; each epoch keeps its hash; both
/// halves have the peers that the cluster had.
pub proof fn lemma_split_preserves_history(c: ClusterView, at: int, id: u64)
    requires
        c.wf(),
        0 <= at <= c.epoch_ids.len(),
        c.num_epochs_finished <= at,
    ensures
        c.split_head(at).wf(),
        c.split_tail(at, id).wf(),
        c.split_head(at).epoch_ids + c.split_tail(at, id).epoch_ids == c.epoch_ids,
        c.split_head(at).epoch_ids == c.epoch_ids.take(at),
        c.split_tail(at, id).epoch_ids == c.epoch_ids.skip(at),
        c.split_head(at).peers == c.peers,
        c.split_tail(at, id).peers == c.peers,
        c.split_head(at).first_epoch_number == c.first_epoch_number,
        c.split_head(at).end_epoch() == c.split_tail(at, id).first_epoch_number,
        c.split_tail(at, id).end_epoch() == c.end_epoch(),
        forall|epoch: int|
            c.covers(epoch) <==> (c.split_head(at).covers(epoch) || c.split_tail(at, id).covers(
                epoch,
            )),
        forall|epoch: int| #[trigger]
            c.split_head(at).covers(epoch) ==> c.split_head(at).epoch_id_at(epoch)
                == c.epoch_id_at(epoch),
        forall|epoch: int| #[trigger]
            c.split_tail(at, id).covers(epoch) ==> c.split_tail(at, id).epoch_id_at(epoch)
                == c.epoch_id_at(epoch),
{
    assert(c.epoch_ids.take(at) + c.epoch_ids.skip(at) =~= c.epoch_ids);
}

} // verus!
