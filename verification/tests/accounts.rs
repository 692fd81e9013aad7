use history_sync::account::{Account, AccountError, AccountType, BasicAccount};
use history_sync::hash::Blake2bHash;
use history_sync::htlc_contract::{
    read_proof_header, Address, HashAlgorithm, HashedTimeLockedContract, OutgoingProof,
    ProofHeader, ProofType, Transaction, VerifiedProof,
};
use history_sync::interaction_traits::BlockState;
use history_sync::receipts::{
    JailValidatorReceipt, PenalizeReceipt, ReactivateValidatorReceipt, RetireValidatorReceipt,
};
use history_sync::validator::{ValidatorState, ValidatorStatus};

fn creation_data() -> Vec<u8> {
    let mut data = vec![];
    data.extend([1u8; 20]);
    data.extend([2u8; 20]);
    data.push(1);
    data.extend([3u8; 32]);
    data.push(5);
    data.extend(1000u32.to_be_bytes());
    data.extend(0x0102_0304_0506_0708u64.to_be_bytes());
    data
}

fn transaction(data: Vec<u8>) -> Transaction {
    Transaction {
        sender: Address { bytes: [1; 20] },
        recipient: Address { bytes: [9; 20] },
        value: 77,
        fee: 3,
        data,
        proof: vec![],
        contract_creation_address: Address { bytes: [9; 20] },
    }
}

#[test]
fn a_contract_is_read_from_the_data_of_its_transaction() {
    let contract = HashedTimeLockedContract::create(5, &transaction(creation_data()), 1).unwrap();
    assert_eq!(contract.balance, 77);
    assert_eq!(contract.sender, Address { bytes: [1; 20] });
    assert_eq!(contract.recipient, Address { bytes: [2; 20] });
    assert_eq!(contract.hash_root, Blake2bHash::new([3; 32]));
    assert_eq!(contract.hash_count, 5);
    assert_eq!(contract.timeout, 1000);
    assert_eq!(contract.total_amount, 0x0102_0304_0506_0708);
    // What follows the description is not looked at.
    let mut longer = creation_data();
    longer.push(0xff);
    assert!(HashedTimeLockedContract::create(5, &transaction(longer), 1).is_ok());
}

#[test]
fn data_that_describes_no_contract_is_refused() {
    let mut short = creation_data();
    short.pop();
    assert_eq!(
        HashedTimeLockedContract::create(5, &transaction(short), 1).err(),
        Some(AccountError::InvalidContractData)
    );
    let mut no_hashes = creation_data();
    no_hashes[73] = 0;
    assert!(HashedTimeLockedContract::create(5, &transaction(no_hashes), 1).is_err());
    let mut algorithm = creation_data();
    algorithm[40] = 0;
    assert!(HashedTimeLockedContract::create(5, &transaction(algorithm.clone()), 1).is_err());
    algorithm[40] = 5;
    assert!(HashedTimeLockedContract::create(5, &transaction(algorithm.clone()), 1).is_err());
    algorithm[40] = 4;
    assert!(HashedTimeLockedContract::create(5, &transaction(algorithm), 1).is_ok());
    assert!(HashedTimeLockedContract::create(5, &transaction(vec![]), 1).is_err());
}

#[test]
fn a_contract_takes_in_its_creation_only() {
    let mut tx = transaction(creation_data());
    assert!(HashedTimeLockedContract::verify_incoming_transaction(&tx));
    tx.recipient = Address { bytes: [8; 20] };
    assert!(!HashedTimeLockedContract::verify_incoming_transaction(&tx));
    let contract = HashedTimeLockedContract::create(5, &tx, 1).unwrap();
    assert_eq!(
        contract.with_incoming_transaction(&tx, 1).err(),
        Some(AccountError::InvalidForRecipient)
    );
    assert_eq!(
        contract.without_incoming_transaction(&tx, 1).err(),
        Some(AccountError::InvalidForRecipient)
    );
}

#[test]
fn reverting_an_outgoing_transaction_gives_value_and_fee_back() {
    let tx = transaction(creation_data());
    let contract = HashedTimeLockedContract::create(5, &tx, 1).unwrap();
    let before = contract.without_outgoing_transaction(&tx, 1).unwrap();
    assert_eq!(before.balance, 77 + 77 + 3);
    assert_eq!(before.timeout, contract.timeout);
    assert_eq!(before.total_amount, contract.total_amount);
    let full = contract.with_balance(u64::MAX - 79);
    assert_eq!(
        full.without_outgoing_transaction(&tx, 1).err(),
        Some(AccountError::InvalidCoinValue)
    );
    let nearly = contract.with_balance(u64::MAX - 80);
    assert_eq!(nearly.without_outgoing_transaction(&tx, 1).unwrap().balance, u64::MAX);
}

#[test]
fn balances_are_added_and_taken_off_within_their_range() {
    assert_eq!(Account::balance_add(2, 3), Ok(5));
    assert_eq!(Account::balance_add(u64::MAX, 1), Err(AccountError::InvalidCoinValue));
    assert_eq!(Account::balance_sub(5, 3), Ok(2));
    assert_eq!(Account::balance_sub(5, 5), Ok(0));
    assert_eq!(
        Account::balance_sub(3, 5),
        Err(AccountError::InsufficientFunds { balance: 3, needed: 5 })
    );
    assert_eq!(Account::balance_sufficient(5, 5), Ok(()));
    assert_eq!(
        Account::balance_sufficient(4, 5),
        Err(AccountError::InsufficientFunds { balance: 4, needed: 5 })
    );
    let basic = Account::Basic(BasicAccount { balance: 9 });
    assert_eq!(basic.account_type(), AccountType::Basic);
    assert_eq!(basic.balance(), 9);
    let contract = HashedTimeLockedContract::create(5, &transaction(creation_data()), 1).unwrap();
    let htlc = Account::HTLC(contract);
    assert_eq!(htlc.account_type(), AccountType::HTLC);
    assert_eq!(htlc.balance(), 77);
}

#[test]
fn proof_types_stand_for_the_bytes_one_to_three() {
    assert_eq!(ProofType::from_u8(0), None);
    assert_eq!(ProofType::from_u8(1), Some(ProofType::RegularTransfer));
    assert_eq!(ProofType::from_u8(2), Some(ProofType::EarlyResolve));
    assert_eq!(ProofType::from_u8(3), Some(ProofType::TimeoutResolve));
    assert_eq!(ProofType::from_u8(4), None);
    for byte in 1..=3u8 {
        assert_eq!(ProofType::from_u8(byte).unwrap().to_u8(), byte);
    }
}

#[test]
fn a_block_state_holds_number_and_time() {
    let state = BlockState::new(12, 3400);
    assert_eq!(state.number, 12);
    assert_eq!(state.time, 3400);
}

#[test]
fn receipts_hold_what_was_changed() {
    let penalty = PenalizeReceipt {
        newly_deactivated: true,
        newly_punished_previous_batch: false,
        newly_punished_current_batch: true,
    };
    assert_eq!(penalty, penalty.clone());
    let jail = JailValidatorReceipt { newly_deactivated: false, old_jail_release: Some(4) };
    assert_ne!(jail, JailValidatorReceipt { newly_deactivated: false, old_jail_release: None });
    assert_eq!(ReactivateValidatorReceipt { was_inactive_since: 3 }.was_inactive_since, 3);
    assert!(RetireValidatorReceipt { was_active: true }.was_active);
}

#[test]
fn a_validator_follows_consensus_and_elections() {
    let mut state = ValidatorState::new();
    assert_eq!(state.status, ValidatorStatus::Unsynced);
    assert!(!state.follows_blockchain());
    state.on_consensus_established(false);
    assert_eq!(state.status, ValidatorStatus::Synced);
    assert!(!state.follows_blockchain());
    state.on_consensus_established(true);
    assert_eq!(state.status, ValidatorStatus::Potential);
    assert!(state.follows_blockchain());
    state.on_blockchain_finalized(Some((3, 20)), true);
    assert_eq!(state.status, ValidatorStatus::Active);
    assert_eq!(state.pk_idx, Some(3));
    assert_eq!(state.slots, Some(20));
    state.on_blockchain_finalized(None, false);
    assert_eq!(state.status, ValidatorStatus::Synced);
    assert_eq!(state.pk_idx, None);
    state.on_blockchain_finalized(None, true);
    assert_eq!(state.status, ValidatorStatus::Potential);
    state.on_consensus_lost();
    assert_eq!(state.status, ValidatorStatus::Unsynced);
}

#[test]
fn the_front_of_a_proof_is_read_up_to_its_signatures() {
    let mut proof = vec![1u8, 1, 3];
    proof.extend([7u8; 32]);
    proof.extend([8u8; 32]);
    proof.extend([0xaa; 5]);
    match read_proof_header(&proof) {
        Some(ProofHeader::RegularTransfer {
            hash_algorithm,
            hash_depth,
            hash_root,
            pre_image,
            signatures_at,
        }) => {
            assert_eq!(hash_algorithm, HashAlgorithm::Blake2b);
            assert_eq!(hash_depth, 3);
            assert_eq!(hash_root, Blake2bHash::new([7; 32]));
            assert_eq!(pre_image, Blake2bHash::new([8; 32]));
            assert_eq!(signatures_at, 67);
        }
        _ => panic!("the proof of a regular transfer should be read"),
    }
    assert!(read_proof_header(&proof[..66].to_vec()).is_none());
    proof[1] = 9;
    assert!(read_proof_header(&proof).is_none());
    assert!(matches!(
        read_proof_header(&vec![2, 5, 5]),
        Some(ProofHeader::EarlyResolve { signatures_at: 1 })
    ));
    assert!(matches!(
        read_proof_header(&vec![3]),
        Some(ProofHeader::TimeoutResolve { signatures_at: 1 })
    ));
    assert!(read_proof_header(&vec![0, 1, 2]).is_none());
    assert!(read_proof_header(&vec![]).is_none());
}

#[test]
fn a_proof_holds_by_itself_with_its_hashes_and_signatures() {
    let root = Blake2bHash::new([7; 32]);
    let other = Blake2bHash::new([8; 32]);
    let verify = HashedTimeLockedContract::verify_outgoing_transaction;
    assert!(verify(Some(VerifiedProof::RegularTransfer {
        hash_root: root,
        hashed_pre_image: root,
        signature_valid: true
    })));
    assert!(!verify(Some(VerifiedProof::RegularTransfer {
        hash_root: root,
        hashed_pre_image: other,
        signature_valid: true
    })));
    assert!(!verify(Some(VerifiedProof::RegularTransfer {
        hash_root: root,
        hashed_pre_image: root,
        signature_valid: false
    })));
    assert!(verify(Some(VerifiedProof::EarlyResolve {
        recipient_signature_valid: true,
        sender_signature_valid: true
    })));
    assert!(!verify(Some(VerifiedProof::EarlyResolve {
        recipient_signature_valid: true,
        sender_signature_valid: false
    })));
    assert!(verify(Some(VerifiedProof::TimeoutResolve { signature_valid: true })));
    assert!(!verify(Some(VerifiedProof::TimeoutResolve { signature_valid: false })));
    assert!(!verify(None));
}

#[test]
fn funds_leave_a_contract_on_the_strength_of_a_proof() {
    // The contract holds 77, of which the transaction takes 50 and 3.
    let mut tx = transaction(creation_data());
    let contract = HashedTimeLockedContract::create(5, &tx, 1).unwrap();
    tx.value = 50;
    let transfer = |hash_root, signed_by_recipient, min_cap| {
        Some(OutgoingProof::RegularTransfer { hash_root, hash_depth: 2, signed_by_recipient, min_cap })
    };
    let root = contract.hash_root;
    let after = contract.with_outgoing_transaction(&tx, 1000, transfer(root, true, 24)).unwrap();
    assert_eq!(after.balance, 24);
    assert_eq!(after.total_amount, contract.total_amount);
    // After the timeout, with another root, without the recipient, or below
    // the least balance, nothing leaves.
    let refused = Err(AccountError::InvalidProof);
    assert_eq!(contract.with_outgoing_transaction(&tx, 1001, transfer(root, true, 24)).map(|c| c.balance), refused);
    assert_eq!(
        contract
            .with_outgoing_transaction(&tx, 1000, transfer(Blake2bHash::new([0; 32]), true, 24))
            .map(|c| c.balance),
        refused
    );
    assert_eq!(contract.with_outgoing_transaction(&tx, 1000, transfer(root, false, 24)).map(|c| c.balance), refused);
    assert_eq!(contract.with_outgoing_transaction(&tx, 1000, transfer(root, true, 25)).map(|c| c.balance), refused);
    assert_eq!(contract.with_outgoing_transaction(&tx, 1000, None).map(|c| c.balance), refused);
    // Both parties can resolve early; the sender alone at any height.
    let early = |signed_by_recipient, signed_by_sender| {
        Some(OutgoingProof::EarlyResolve { signed_by_recipient, signed_by_sender })
    };
    assert_eq!(contract.with_outgoing_transaction(&tx, 5000, early(true, true)).map(|c| c.balance), Ok(24));
    assert_eq!(contract.with_outgoing_transaction(&tx, 5000, early(true, false)).map(|c| c.balance), refused);
    assert_eq!(contract.with_outgoing_transaction(&tx, 5000, early(false, true)).map(|c| c.balance), refused);
    let timeout = |signed_by_sender| Some(OutgoingProof::TimeoutResolve { signed_by_sender });
    assert_eq!(contract.with_outgoing_transaction(&tx, 0, timeout(true)).map(|c| c.balance), Ok(24));
    assert_eq!(contract.with_outgoing_transaction(&tx, 0, timeout(false)).map(|c| c.balance), refused);
    // The balance must cover value and fee, whatever the proof.
    tx.value = 75;
    assert_eq!(
        contract.with_outgoing_transaction(&tx, 0, timeout(true)).map(|c| c.balance),
        Err(AccountError::InsufficientFunds { balance: 77, needed: 78 })
    );
}
