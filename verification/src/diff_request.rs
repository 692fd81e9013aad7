//! Asking peers for the difference of the state that a block makes: which
//! peer is asked next, and when to give up.
use vstd::prelude::*;

verus! {

/// A position in a list of peers that goes round the list.
#[derive(Clone, Copy, Debug, PartialEq, Eq, Structural)]
pub struct PeerListIndex {
    pub index: usize,
}

/// The position in a list of `num_peers` peers that an index stands for.
pub open spec fn peer_at(index: PeerListIndex, num_peers: usize) -> Option<usize> {
    if num_peers == 0 {
        None
    } else {
        Some((index.index % num_peers) as usize)
    }
}

/// The index after `index`, which begins anew after the highest one.
pub open spec fn index_after(index: PeerListIndex) -> PeerListIndex {
    PeerListIndex {
        index: if index.index == usize::MAX {
            0
        } else {
            (index.index + 1) as usize
        },
    }
}

impl PeerListIndex {
    pub fn increment(&mut self)
        ensures
            *final(self) == index_after(*old(self)),
    {
        self.index = self.index.wrapping_add(1);
    }

    /// The position in a list of `num_peers` peers that the index stands for.
    pub fn position(&self, num_peers: usize) -> (at: Option<usize>)
        ensures
            at == peer_at(*self, num_peers),
            at matches Some(i) ==> i < num_peers,
    {
        if num_peers == 0 {
            None
        } else {
            Some(self.index % num_peers)
        }
    }
}

/// What a peer answered to a request for a difference.
#[derive(Clone, Copy, Debug, PartialEq, Eq, Structural)]
pub enum DiffResponse {
    /// A difference whose root is the root that the block names.
    ValidDiff,
    /// A difference with another root.
    InvalidDiff,
    IncompleteState,
    UnknownBlockHash,
    /// The request failed.
    RequestError,
}

/// What to do after an answer.
#[derive(Clone, Copy, Debug, PartialEq, Eq, Structural)]
pub enum DiffStep {
    /// The difference is there.
    Done,
    /// Ask the next peer.
    Retry,
    /// As many peers were asked as there are: no difference can be had.
    GiveUp,
}

/// Hands out requests for differences, each beginning with another peer.
#[derive(Clone, Copy, Debug)]
pub struct DiffRequestComponent {
    pub current_peer_index: PeerListIndex,
}

/// A request for the differences of a range of keys, block by block.
#[derive(Clone, Copy, Debug)]
pub struct DiffRequest {
    pub starting_peer_index: PeerListIndex,
}

/// The attempts to get the difference of one block.
#[derive(Clone, Copy, Debug)]
pub struct DiffAttempt {
    pub current_peer_index: PeerListIndex,
    pub num_tries: usize,
}

/// What to do after the answer `response`, which is the answer number
/// `num_tries`, where `max_tries` peers may be asked.
pub open spec fn step_after(response: DiffResponse, num_tries: int, max_tries: usize) -> DiffStep {
    if response == DiffResponse::ValidDiff {
        DiffStep::Done
    } else if num_tries >= max_tries {
        DiffStep::GiveUp
    } else {
        DiffStep::Retry
    }
}

impl DiffRequestComponent {
    /// The most requests that may be under way at once.
    pub const NUM_PENDING_DIFFS: usize = 5;

    pub fn new() -> (component: Self)
        ensures
            component.current_peer_index.index == 0,
    {
        DiffRequestComponent { current_peer_index: PeerListIndex { index: 0 } }
    }

    /// A new request. It begins with the current peer, and the next request
    /// with the peer after it.
    pub fn request_diff(&mut self) -> (request: DiffRequest)
        ensures
            request.starting_peer_index == old(self).current_peer_index,
            final(self).current_peer_index == index_after(old(self).current_peer_index),
    {
        let starting_peer_index = self.current_peer_index;
        self.current_peer_index.increment();
        DiffRequest { starting_peer_index }
    }
}

impl DiffRequest {
    /// The attempts for one block begin with the peer that sent the block, if
    /// it is known and still there, and else with the next peer in turn.
    pub fn begin(&mut self, source: Option<PeerListIndex>) -> (attempt: DiffAttempt)
        ensures
            attempt.num_tries == 0,
            match source {
                Some(index) => attempt.current_peer_index == index && *final(self)
                    == *old(self),
                None => attempt.current_peer_index == index_after(old(self).starting_peer_index)
                    && final(self).starting_peer_index == index_after(
                    old(self).starting_peer_index,
                ),
            },
    {
        let current_peer_index = match source {
            Some(index) => index,
            None => {
                self.starting_peer_index.increment();
                self.starting_peer_index
            },
        };
        DiffAttempt { current_peer_index, num_tries: 0 }
    }
}

impl DiffAttempt {
    /// The position of the peer to ask next in a list of `num_peers` peers,
    /// or `None` where there are no peers.
    pub fn next_peer(&mut self, num_peers: usize) -> (at: Option<usize>)
        ensures
            at == peer_at(old(self).current_peer_index, num_peers),
            at matches Some(i) ==> i < num_peers,
            at is Some ==> final(self).current_peer_index == index_after(
                old(self).current_peer_index,
            ),
            at is None ==> final(self).current_peer_index == old(self).current_peer_index,
            final(self).num_tries == old(self).num_tries,
    {
        let at = self.current_peer_index.position(num_peers);
        if at.is_some() {
            self.current_peer_index.increment();
        }
        at
    }

    /// Takes in an answer, where `max_tries` peers may be asked, and says
    /// what to do next.
    pub fn on_response(&mut self, response: DiffResponse, max_tries: usize) -> (step: DiffStep)
        requires
            old(self).num_tries < usize::MAX,
        ensures
            final(self).num_tries == old(self).num_tries + 1,
            final(self).current_peer_index == old(self).current_peer_index,
            step == step_after(response, old(self).num_tries + 1, max_tries),
            step == DiffStep::Retry ==> final(self).num_tries < usize::MAX,
    {
        self.num_tries = self.num_tries + 1;
        let exhausted = self.num_tries >= max_tries;
        if response == DiffResponse::ValidDiff {
            DiffStep::Done
        } else if exhausted {
            DiffStep::GiveUp
        } else {
            DiffStep::Retry
        }
    }
}

} // verus!
