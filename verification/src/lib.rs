//! The verified core of a proof-of-stake node.
//!
//! History synchronisation: peers announce the election-block hashes they
//! can serve (`epoch_ids`), the sync groups them into clusters of identical
//! history (`cluster`, `sync_clustering`), schedules one cluster at a time
//! and serialises the commits of the downloaded epochs (`sync_stream`). What
//! these do is stated over the mathematical content of the state
//! (`clustering_model`, `queue_model`); what holds of it is proved in
//! `clustering_laws`, `queue_laws` and `separation_laws`.
//!
//! Beside it: accounts and hashed time-locked contracts (`account`,
//! `htlc_contract`), the punished slots of the staking contract and its
//! receipts (`punished_slots`, `receipts`), the standing of a validator
//! (`validator`) and the turns of a request for state differences
//! (`diff_request`).
use vstd::prelude::*;

pub mod account;
pub mod cluster;
pub mod clustering_laws;
pub mod clustering_model;
pub mod counting;
pub mod diff_request;
pub mod epoch_ids;
pub mod hash;
pub mod htlc_contract;
pub mod interaction_traits;
pub mod punished_slots;
pub mod queue_laws;
pub mod queue_model;
pub mod receipts;
pub mod separation_laws;
pub mod slot_set;
pub mod symmetry_laws;
pub mod sync;
pub mod sync_clustering;
pub mod sync_stream;
pub mod validator;
