//! What a peer tells about the history it can serve: the request that asks
//! for its election-block hashes, and the summary made of its answer.
use crate::cluster::PeerId;
use crate::hash::Blake2bHash;
use vstd::prelude::*;

verus! {

/// The most hashes a peer is asked for in one reply.
pub const MAX_LOCATOR_REPLY: u16 = 1000;

/// The kind of block that a hash in a reply belongs to.
#[derive(Clone, Copy, Debug, PartialEq, Eq, Structural)]
pub enum BlockHashType {
    Micro,
    Checkpoint,
    Election,
}

/// Which blocks a peer is asked to list.
#[derive(Clone, Copy, Debug, PartialEq, Eq, Structural)]
pub enum RequestBlockHashesFilter {
    All,
    ElectionOnly,
    ElectionAndLatestCheckpoint,
}

/// Asks a peer for the hashes that follow the first locator it knows.
#[derive(Debug)]
pub struct RequestBlockHashes {
    pub locators: Vec<Blake2bHash>,
    pub max_blocks: u16,
    pub filter: RequestBlockHashesFilter,
}

/// A peer's reply. `None` says that the peer knew none of the locators.
#[derive(Debug)]
pub struct BlockHashes {
    pub hashes: Option<Vec<(BlockHashType, Blake2bHash)>>,
}

/// The node's own election head.
#[derive(Clone, Copy, Debug)]
pub struct ElectionHead {
    pub hash: Blake2bHash,
    pub epoch_number: u32,
}

/// The epochs that one peer offers: `ids[i]` is the election-block hash of
/// epoch `first_epoch_number + i`, and the checkpoint, if there is one,
/// belongs to the epoch after the last of them.
#[derive(Clone, Debug)]
pub struct EpochIds {
    pub locator_found: bool,
    pub ids: Vec<Blake2bHash>,
    pub checkpoint_id: Option<Blake2bHash>,
    pub first_epoch_number: usize,
    pub sender: PeerId,
}

/// The mathematical content of an `EpochIds`.
pub struct EpochIdsView {
    pub locator_found: bool,
    pub ids: Seq<Blake2bHash>,
    pub checkpoint_id: Option<Blake2bHash>,
    pub first_epoch_number: usize,
    pub sender: PeerId,
}

impl View for EpochIds {
    type V = EpochIdsView;

    open spec fn view(&self) -> EpochIdsView {
        EpochIdsView {
            locator_found: self.locator_found,
            ids: self.ids@,
            checkpoint_id: self.checkpoint_id,
            first_epoch_number: self.first_epoch_number,
            sender: self.sender,
        }
    }
}

impl EpochIdsView {
    /// The epoch numbers of the ids are representable, and so is the end of
    /// the checkpoint's epoch where there is a checkpoint.
    pub open spec fn wf(self) -> bool {
        self.first_epoch_number + self.ids.len() + if self.checkpoint_id is Some {
            1int
        } else {
            0int
        } <= usize::MAX
    }

    /// The epoch that the checkpoint belongs to.
    pub open spec fn checkpoint_epoch(self) -> int {
        self.first_epoch_number + self.ids.len()
    }

    /// The peer has nothing that the node lacks.
    pub open spec fn is_synced(self) -> bool {
        self.ids.len() == 0 && self.checkpoint_id is None
    }
}

impl EpochIds {
    /// The epoch numbers of the ids and of the checkpoint are representable.
    pub open spec fn wf(&self) -> bool {
        self@.wf()
    }

    /// Whether the epoch numbers of the ids and of the checkpoint are
    /// representable.
    pub fn in_range(&self) -> (yes: bool)
        ensures
            yes == self.wf(),
    {
        let room = usize::MAX - self.first_epoch_number;
        if self.checkpoint_id.is_some() {
            room >= 1 && self.ids.len() <= room - 1
        } else {
            self.ids.len() <= room
        }
    }

    /// The epoch that the checkpoint belongs to.
    pub fn get_checkpoint_epoch(&self) -> (epoch: usize)
        requires
            self.wf(),
        ensures
            epoch == self@.checkpoint_epoch(),
    {
        self.first_epoch_number + self.ids.len()
    }
}

/// The locators of a request: the macro head first where it differs from the
/// election head, then the election head. The recipient answers from the first
/// locator that it knows, so the higher block comes first.
pub open spec fn locators_for(election_head: Blake2bHash, macro_head: Blake2bHash) -> Seq<
    Blake2bHash,
> {
    if macro_head != election_head {
        seq![macro_head, election_head]
    } else {
        seq![election_head]
    }
}

/// The hashes of the election blocks of a reply, in the order of the reply.
pub open spec fn election_ids(hashes: Seq<(BlockHashType, Blake2bHash)>) -> Seq<Blake2bHash>
    decreases hashes.len(),
{
    if hashes.len() == 0 {
        Seq::empty()
    } else if hashes.last().0 == BlockHashType::Election {
        election_ids(hashes.drop_last()).push(hashes.last().1)
    } else {
        election_ids(hashes.drop_last())
    }
}

/// The checkpoint of a reply: its last hash, where that is a checkpoint's.
pub open spec fn checkpoint_of(hashes: Seq<(BlockHashType, Blake2bHash)>) -> Option<Blake2bHash> {
    if hashes.len() > 0 && hashes.last().0 == BlockHashType::Checkpoint {
        Some(hashes.last().1)
    } else {
        None
    }
}

/// The summary of a reply that `sender` gave while the node's election head
/// was in epoch `epoch_number`.
pub open spec fn summary_of(
    hashes: Option<Seq<(BlockHashType, Blake2bHash)>>,
    epoch_number: u32,
    sender: PeerId,
) -> EpochIdsView {
    match hashes {
        None => EpochIdsView {
            locator_found: false,
            ids: Seq::empty(),
            checkpoint_id: None,
            first_epoch_number: 0,
            sender,
        },
        Some(hashes) => EpochIdsView {
            locator_found: true,
            ids: election_ids(hashes),
            checkpoint_id: checkpoint_of(hashes),
            first_epoch_number: (epoch_number + 1) as usize,
            sender,
        },
    }
}

/// The request that probes a peer for epoch ids.
pub fn epoch_ids_request(election_head: &Blake2bHash, macro_head: &Blake2bHash) -> (request:
    RequestBlockHashes)
    ensures
        request.locators@ == locators_for(*election_head, *macro_head),
        request.max_blocks == MAX_LOCATOR_REPLY,
        request.filter == RequestBlockHashesFilter::ElectionAndLatestCheckpoint,
{
    let mut locators: Vec<Blake2bHash> = Vec::new();
    if *macro_head != *election_head {
        locators.push(*macro_head);
    }
    locators.push(*election_head);
    proof {
        assert(locators@ =~= locators_for(*election_head, *macro_head));
    }
    RequestBlockHashes {
        locators,
        max_blocks: MAX_LOCATOR_REPLY,
        filter: RequestBlockHashesFilter::ElectionAndLatestCheckpoint,
    }
}

/// Sums up the reply of `sender` to a probe that was sent while the node's
/// election head was in epoch `epoch_number`.
pub fn epoch_ids_from_response(response: &BlockHashes, epoch_number: u32, sender: PeerId) -> (ids:
    EpochIds)
    requires
        epoch_number + 1 <= usize::MAX,
    ensures
        ids@ == summary_of(
            match response.hashes {
                Some(hashes) => Some(hashes@),
                None => None,
            },
            epoch_number,
            sender,
        ),
{
    match &response.hashes {
        None => EpochIds {
            locator_found: false,
            ids: Vec::new(),
            checkpoint_id: None,
            first_epoch_number: 0,
            sender,
        },
        Some(hashes) => {
            let n = hashes.len();
            let checkpoint_id = if n > 0 && hashes[n - 1].0 == BlockHashType::Checkpoint {
                Some(hashes[n - 1].1)
            } else {
                None
            };
            let mut ids: Vec<Blake2bHash> = Vec::new();
            let mut i: usize = 0;
            while i < n
                invariant
                    n == hashes.len(),
                    i <= n,
                    ids@ == election_ids(hashes@.take(i as int)),
                decreases n - i,
            {
                proof {
                    assert(hashes@.take(i + 1).drop_last() =~= hashes@.take(i as int));
                }
                if hashes[i].0 == BlockHashType::Election {
                    ids.push(hashes[i].1);
                }
                i += 1;
            }
            proof {
                assert(hashes@.take(n as int) =~= hashes@);
            }
            EpochIds {
                locator_found: true,
                ids,
                checkpoint_id,
                first_epoch_number: epoch_number as usize + 1,
                sender,
            }
        },
    }
}

} // verus!
