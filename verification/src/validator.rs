//! The standing of the node as a validator.
use vstd::prelude::*;

verus! {

/// How far the node is from producing blocks.
#[derive(Clone, Copy, Debug, PartialEq, Eq, Structural)]
pub enum ValidatorStatus {
    /// No consensus with the peers.
    Unsynced,
    /// Consensus with the peers is reached, but the node is no validator.
    Synced,
    Potential,
    Active,
}

/// The kinds of blocks.
#[derive(Clone, Copy, Debug, PartialEq, Eq, Structural)]
pub enum BlockType {
    Macro,
    Micro,
}

/// What the node knows of its own slots.
#[derive(Clone, Copy, Debug)]
pub struct ValidatorState {
    pub pk_idx: Option<u16>,
    pub slots: Option<u16>,
    pub status: ValidatorStatus,
}

/// The state of a validator after consensus with the peers was lost.
pub open spec fn consensus_lost(state: ValidatorState) -> ValidatorState {
    ValidatorState { status: ValidatorStatus::Unsynced, ..state }
}

/// The state after consensus was established: the node stands for election
/// where it may, and is merely synced where it may not.
pub open spec fn consensus_established(state: ValidatorState, potential: bool) -> ValidatorState {
    ValidatorState {
        status: if potential {
            ValidatorStatus::Potential
        } else {
            ValidatorStatus::Synced
        },
        ..state
    }
}

/// The state after the chain was finalized: with slots the node is active;
/// without, it stands for election where it may.
pub open spec fn chain_finalized(elected: Option<(u16, u16)>, potential: bool) -> ValidatorState {
    match elected {
        Some((pk_idx, slots)) => ValidatorState {
            pk_idx: Some(pk_idx),
            slots: Some(slots),
            status: ValidatorStatus::Active,
        },
        None => ValidatorState {
            pk_idx: None,
            slots: None,
            status: if potential {
                ValidatorStatus::Potential
            } else {
                ValidatorStatus::Synced
            },
        },
    }
}

impl ValidatorState {
    /// The state of a node that has not reached consensus yet.
    pub fn new() -> (state: Self)
        ensures
            state.pk_idx is None,
            state.slots is None,
            state.status == ValidatorStatus::Unsynced,
    {
        ValidatorState { pk_idx: None, slots: None, status: ValidatorStatus::Unsynced }
    }

    pub fn on_consensus_established(&mut self, potential: bool)
        ensures
            *final(self) == consensus_established(*old(self), potential),
    {
        if potential {
            self.status = ValidatorStatus::Potential;
        } else {
            self.status = ValidatorStatus::Synced;
        }
    }

    pub fn on_consensus_lost(&mut self)
        ensures
            *final(self) == consensus_lost(*old(self)),
    {
        self.status = ValidatorStatus::Unsynced;
    }

    /// Takes in the slots that the node has on the new validator list, if any.
    pub fn on_blockchain_finalized(&mut self, elected: Option<(u16, u16)>, potential: bool)
        ensures
            *final(self) == chain_finalized(elected, potential),
    {
        match elected {
            Some((pk_idx, slots)) => {
                self.pk_idx = Some(pk_idx);
                self.slots = Some(slots);
                self.status = ValidatorStatus::Active;
            },
            None => {
                self.pk_idx = None;
                self.slots = None;
                self.status = if potential {
                    ValidatorStatus::Potential
                } else {
                    ValidatorStatus::Synced
                };
            },
        }
    }

    /// Whether events of the validator network concern the node: only as an
    /// active validator.
    pub fn follows_validator_network(&self) -> (follows: bool)
        ensures
            follows == (self.status == ValidatorStatus::Active),
    {
        self.status == ValidatorStatus::Active
    }

    /// The block to produce when the slot changes: the next block of the
    /// chain, if the node is an active validator and the slot is its own.
    pub fn block_to_produce(&self, own_slot: bool, next_block_type: BlockType) -> (block: Option<
        BlockType,
    >)
        ensures
            block == if self.status == ValidatorStatus::Active && own_slot {
                Some(next_block_type)
            } else {
                None
            },
    {
        if self.status == ValidatorStatus::Active && own_slot {
            Some(next_block_type)
        } else {
            None
        }
    }

    /// Whether events of the chain concern the node: only as a validator, be
    /// it potential or active.
    pub fn follows_blockchain(&self) -> (follows: bool)
        ensures
            follows == (self.status == ValidatorStatus::Potential || self.status
                == ValidatorStatus::Active),
    {
        !(self.status == ValidatorStatus::Unsynced || self.status == ValidatorStatus::Synced)
    }
}

} // verus!
