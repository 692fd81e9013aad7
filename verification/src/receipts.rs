//! Receipts of operations on the staking contract: what an operation changed,
//! kept so that it can be reverted.
use crate::htlc_contract::Address;
use crate::slot_set::SlotSet;
use vstd::prelude::*;
use vstd::std_specs::convert::FromSpecImpl;

verus! {

/// What a penalty changed.
#[derive(Clone, Copy, Debug, PartialEq, Eq, Structural)]
pub struct PenalizeReceipt {
    pub newly_deactivated: bool,
    pub newly_punished_previous_batch: bool,
    pub newly_punished_current_batch: bool,
}

/// What a slash changed.
#[derive(Debug)]
pub struct SlashReceipt {
    pub newly_deactivated: bool,
    pub old_previous_batch_punished_slots: SlotSet,
    pub old_current_batch_punished_slots: Option<SlotSet>,
    pub old_jail_release: Option<u32>,
}

/// What jailing a validator changed.
#[derive(Clone, Copy, Debug, PartialEq, Eq)]
pub struct JailValidatorReceipt {
    pub newly_deactivated: bool,
    pub old_jail_release: Option<u32>,
}

impl From<&SlashReceipt> for JailValidatorReceipt {
    fn from(value: &SlashReceipt) -> (receipt: Self) {
        Self {
            newly_deactivated: value.newly_deactivated,
            old_jail_release: value.old_jail_release,
        }
    }
}

impl FromSpecImpl<&SlashReceipt> for JailValidatorReceipt {
    open spec fn obeys_from_spec() -> bool {
        true
    }

    /// The part of a slash that jails the validator.
    open spec fn from_spec(value: &SlashReceipt) -> Self {
        JailValidatorReceipt {
            newly_deactivated: value.newly_deactivated,
            old_jail_release: value.old_jail_release,
        }
    }
}

/// Since when a validator that was reactivated had been inactive.
#[derive(Clone, Copy, Debug, PartialEq, Eq, Structural)]
pub struct ReactivateValidatorReceipt {
    pub was_inactive_since: u32,
}

/// Whether a validator that was retired had been active.
#[derive(Clone, Copy, Debug, PartialEq, Eq, Structural)]
pub struct RetireValidatorReceipt {
    pub was_active: bool,
}

/// To whom a staker had delegated.
#[derive(Clone, Copy, Debug, PartialEq, Eq)]
pub struct StakerReceipt {
    pub delegation: Option<Address>,
}

/// What setting part of a stake inactive changed.
#[derive(Clone, Copy, Debug, PartialEq, Eq)]
pub struct SetInactiveStakeReceipt {
    pub old_inactive_release: Option<u32>,
    pub old_active_balance: u64,
}

/// What removing a stake changed.
#[derive(Clone, Copy, Debug, PartialEq, Eq)]
pub struct RemoveStakeReceipt {
    pub delegation: Option<Address>,
    pub inactive_release: Option<u32>,
}

} // verus!
