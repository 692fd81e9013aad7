//! Hashed time-locked contracts: an amount that the recipient can claim with
//! the pre-image of a hash before a timeout, and the sender after it.
use crate::account::{Account, AccountError};
use crate::hash::Blake2bHash;
use vstd::prelude::*;
use vstd::std_specs::cmp::PartialEqSpecImpl;

verus! {

/// The address of an account: 20 bytes.
#[derive(Clone, Copy, Debug)]
pub struct Address {
    pub bytes: [u8; 20],
}

impl PartialEq for Address {
    fn eq(&self, other: &Self) -> (r: bool) {
        let mut i: usize = 0;
        while i < 20
            invariant
                i <= 20,
                forall|j: int| 0 <= j < i ==> self.bytes[j] == other.bytes[j],
            decreases 20 - i,
        {
            if self.bytes[i] != other.bytes[i] {
                return false;
            }
            i += 1;
        }
        proof {
            assert(self.bytes@ =~= other.bytes@);
            assert(self.bytes == other.bytes);
        }
        true
    }
}

impl Eq for Address {}

impl PartialEqSpecImpl for Address {
    open spec fn obeys_eq_spec() -> bool {
        true
    }

    open spec fn eq_spec(&self, other: &Self) -> bool {
        *self == *other
    }
}

/// The hash functions that a contract can be locked with.
#[derive(Clone, Copy, Debug, PartialEq, Eq, Structural)]
pub enum HashAlgorithm {
    Blake2b,
    Argon2d,
    Sha256,
    Sha512,
}

/// What a transaction holds of interest to a contract.
#[derive(Debug)]
pub struct Transaction {
    pub sender: Address,
    pub recipient: Address,
    pub value: u64,
    pub fee: u64,
    pub data: Vec<u8>,
    pub proof: Vec<u8>,
    /// The address of the contract that the transaction would create.
    pub contract_creation_address: Address,
}

/// A contract that pays out to the recipient against pre-images of the hash
/// root, and back to the sender after the timeout.
#[derive(Clone, Copy, Debug)]
pub struct HashedTimeLockedContract {
    pub balance: u64,
    pub sender: Address,
    pub recipient: Address,
    pub hash_root: Blake2bHash,
    pub hash_count: u8,
    pub timeout: u32,
    pub total_amount: u64,
}

/// The kind of proof by which funds leave a contract.
#[derive(Clone, Copy, Debug, PartialEq, Eq, Structural)]
pub enum ProofType {
    RegularTransfer,
    EarlyResolve,
    TimeoutResolve,
}

/// The number of bytes that describe a contract in the data of the
/// transaction that creates it: sender, recipient, hash algorithm, hash root,
/// hash count, timeout and total amount.
pub const CREATION_DATA_LEN: usize = 86;

/// The number that `bytes` spell from `at` on, highest byte first.
pub open spec fn be_value(bytes: Seq<u8>, at: int, len: nat) -> nat
    decreases len,
{
    if len == 0 {
        0
    } else {
        be_value(bytes, at, (len - 1) as nat) * 256 + bytes[at + len - 1] as nat
    }
}

/// The proof type that a byte stands for.
pub open spec fn proof_type_of(byte: u8) -> Option<ProofType> {
    if byte == 1 {
        Some(ProofType::RegularTransfer)
    } else if byte == 2 {
        Some(ProofType::EarlyResolve)
    } else if byte == 3 {
        Some(ProofType::TimeoutResolve)
    } else {
        None
    }
}

/// The hash algorithm that a byte stands for.
pub open spec fn hash_algorithm_of(byte: u8) -> Option<HashAlgorithm> {
    if byte == 1 {
        Some(HashAlgorithm::Blake2b)
    } else if byte == 2 {
        Some(HashAlgorithm::Argon2d)
    } else if byte == 3 {
        Some(HashAlgorithm::Sha256)
    } else if byte == 4 {
        Some(HashAlgorithm::Sha512)
    } else {
        None
    }
}

/// The data describes a contract: it is long enough, names a hash algorithm
/// and asks for at least one hash.
pub open spec fn describes_contract(data: Seq<u8>) -> bool {
    data.len() >= CREATION_DATA_LEN && hash_algorithm_of(data[40]) is Some && data[73] != 0
}

impl ProofType {
    /// The proof type that a byte stands for.
    pub fn from_u8(byte: u8) -> (ty: Option<Self>)
        ensures
            ty == proof_type_of(byte),
    {
        if byte == 1 {
            Some(ProofType::RegularTransfer)
        } else if byte == 2 {
            Some(ProofType::EarlyResolve)
        } else if byte == 3 {
            Some(ProofType::TimeoutResolve)
        } else {
            None
        }
    }

    /// The byte that stands for the proof type.
    pub fn to_u8(self) -> (byte: u8)
        ensures
            proof_type_of(byte) == Some(self),
    {
        match self {
            ProofType::RegularTransfer => 1,
            ProofType::EarlyResolve => 2,
            ProofType::TimeoutResolve => 3,
        }
    }
}

impl HashAlgorithm {
    /// The hash algorithm that a byte stands for.
    pub fn from_u8(byte: u8) -> (algorithm: Option<Self>)
        ensures
            algorithm == hash_algorithm_of(byte),
    {
        if byte == 1 {
            Some(HashAlgorithm::Blake2b)
        } else if byte == 2 {
            Some(HashAlgorithm::Argon2d)
        } else if byte == 3 {
            Some(HashAlgorithm::Sha256)
        } else if byte == 4 {
            Some(HashAlgorithm::Sha512)
        } else {
            None
        }
    }
}

/// The front of the proof of a transaction out of a contract: all of it but
/// the signatures, which follow from `signatures_at` on.
#[derive(Clone, Copy, Debug)]
pub enum ProofHeader {
    RegularTransfer {
        hash_algorithm: HashAlgorithm,
        hash_depth: u8,
        hash_root: Blake2bHash,
        pre_image: Blake2bHash,
        signatures_at: usize,
    },
    EarlyResolve { signatures_at: usize },
    TimeoutResolve { signatures_at: usize },
}

/// The number of bytes before the signature in the proof of a regular
/// transfer: proof type, hash algorithm, hash depth, hash root and pre-image.
pub const TRANSFER_HEADER_LEN: usize = 67;

/// The bytes begin with the front of a proof.
pub open spec fn begins_with_proof_header(bytes: Seq<u8>) -> bool {
    bytes.len() >= 1 && match proof_type_of(bytes[0]) {
        Some(ProofType::RegularTransfer) => bytes.len() >= TRANSFER_HEADER_LEN
            && hash_algorithm_of(bytes[1]) is Some,
        Some(_) => true,
        None => false,
    }
}

/// Reads the front of the proof of a transaction out of a contract.
pub fn read_proof_header(bytes: &Vec<u8>) -> (header: Option<ProofHeader>)
    ensures
        header is Some <==> begins_with_proof_header(bytes@),
        match header {
            Some(ProofHeader::RegularTransfer {
                hash_algorithm,
                hash_depth,
                hash_root,
                pre_image,
                signatures_at,
            }) => {
                &&& proof_type_of(bytes@[0]) == Some(ProofType::RegularTransfer)
                &&& hash_algorithm_of(bytes@[1]) == Some(hash_algorithm)
                &&& hash_depth == bytes@[2]
                &&& hash_root.bytes@ == bytes@.subrange(3, 35)
                &&& pre_image.bytes@ == bytes@.subrange(35, 67)
                &&& signatures_at == TRANSFER_HEADER_LEN
            },
            Some(ProofHeader::EarlyResolve { signatures_at }) => proof_type_of(bytes@[0]) == Some(
                ProofType::EarlyResolve,
            ) && signatures_at == 1,
            Some(ProofHeader::TimeoutResolve { signatures_at }) => proof_type_of(bytes@[0])
                == Some(ProofType::TimeoutResolve) && signatures_at == 1,
            None => true,
        },
{
    if bytes.len() < 1 {
        return None;
    }
    match ProofType::from_u8(bytes[0]) {
        Some(ProofType::RegularTransfer) => {
            if bytes.len() < TRANSFER_HEADER_LEN {
                return None;
            }
            let hash_algorithm = match HashAlgorithm::from_u8(bytes[1]) {
                Some(algorithm) => algorithm,
                None => {
                    return None;
                },
            };
            Some(
                ProofHeader::RegularTransfer {
                    hash_algorithm,
                    hash_depth: bytes[2],
                    hash_root: Blake2bHash::new(read_32(bytes, 3)),
                    pre_image: Blake2bHash::new(read_32(bytes, 35)),
                    signatures_at: TRANSFER_HEADER_LEN,
                },
            )
        },
        Some(ProofType::EarlyResolve) => Some(ProofHeader::EarlyResolve { signatures_at: 1 }),
        Some(ProofType::TimeoutResolve) => Some(ProofHeader::TimeoutResolve { signatures_at: 1 }),
        None => None,
    }
}

/// What the proof of a transaction out of a contract says by itself, once
/// its hashes are computed and its signatures checked against the
/// transaction.
#[derive(Clone, Copy, Debug)]
pub enum VerifiedProof {
    /// The hash root that the proof names, the hash that its pre-image gives
    /// after as many rounds as the proof names, and whether its signature is
    /// a signature of the transaction.
    RegularTransfer { hash_root: Blake2bHash, hashed_pre_image: Blake2bHash, signature_valid: bool },
    EarlyResolve { recipient_signature_valid: bool, sender_signature_valid: bool },
    TimeoutResolve { signature_valid: bool },
}

/// What the proof of a transaction out of a contract says about the
/// contract, once its signers are known.
#[derive(Clone, Copy, Debug)]
pub enum OutgoingProof {
    /// The hash root and the depth that the proof names, whether the
    /// recipient has signed, and the least balance that the contract must
    /// keep at that depth.
    RegularTransfer { hash_root: Blake2bHash, hash_depth: u8, signed_by_recipient: bool, min_cap: u64 },
    EarlyResolve { signed_by_recipient: bool, signed_by_sender: bool },
    TimeoutResolve { signed_by_sender: bool },
}

/// The proof holds by itself: the pre-image leads to the hash root and the
/// signature is valid; or both parties have signed; or the signature of a
/// resolve after the timeout is valid.
pub open spec fn proof_holds(evidence: VerifiedProof) -> bool {
    match evidence {
        VerifiedProof::RegularTransfer { hash_root, hashed_pre_image, signature_valid } => hash_root
            == hashed_pre_image && signature_valid,
        VerifiedProof::EarlyResolve { recipient_signature_valid, sender_signature_valid } =>
            recipient_signature_valid && sender_signature_valid,
        VerifiedProof::TimeoutResolve { signature_valid } => signature_valid,
    }
}

/// The proof lets funds leave the contract in the block `block_height`,
/// leaving `balance`: a regular transfer before the timeout, with the hash
/// root of the contract, signed by the recipient and leaving the least
/// balance at its depth; an early resolve signed by both; a resolve after the
/// timeout signed by the sender.
pub open spec fn proof_releases(
    contract: HashedTimeLockedContract,
    evidence: OutgoingProof,
    block_height: u32,
    balance: u64,
) -> bool {
    match evidence {
        OutgoingProof::RegularTransfer { hash_root, hash_depth, signed_by_recipient, min_cap } => {
            &&& contract.timeout >= block_height
            &&& hash_root == contract.hash_root
            &&& signed_by_recipient
            &&& balance >= min_cap
        },
        OutgoingProof::EarlyResolve { signed_by_recipient, signed_by_sender } => signed_by_recipient
            && signed_by_sender,
        OutgoingProof::TimeoutResolve { signed_by_sender } => signed_by_sender,
    }
}

/// The contract after `taken` left it in the block `block_height` on the
/// strength of `proof`: the balance must cover what is taken, and the proof
/// must release it.
pub open spec fn after_outgoing(
    contract: HashedTimeLockedContract,
    taken: int,
    block_height: u32,
    evidence: Option<OutgoingProof>,
) -> Result<HashedTimeLockedContract, AccountError> {
    if contract.balance < taken {
        Err(AccountError::InsufficientFunds { balance: contract.balance, needed: taken as u64 })
    } else if evidence is Some && proof_releases(
        contract,
        evidence.unwrap(),
        block_height,
        (contract.balance - taken) as u64,
    ) {
        Ok(HashedTimeLockedContract { balance: (contract.balance - taken) as u64, ..contract })
    } else {
        Err(AccountError::InvalidProof)
    }
}

/// Reads 20 bytes from `at` on.
fn read_20(data: &Vec<u8>, at: usize) -> (out: [u8; 20])
    requires
        at + 20 <= data.len(),
    ensures
        out@ == data@.subrange(at as int, at + 20),
{
    let mut out = [0u8;20];
    let mut i: usize = 0;
    while i < 20
        invariant
            i <= 20,
            at + 20 <= data.len(),
            forall|j: int| 0 <= j < i ==> out[j] == data[at + j],
        decreases 20 - i,
    {
        out[i] = data[at + i];
        i += 1;
    }
    proof {
        assert(out@ =~= data@.subrange(at as int, at + 20));
    }
    out
}

/// Reads 32 bytes from `at` on.
fn read_32(data: &Vec<u8>, at: usize) -> (out: [u8; 32])
    requires
        at + 32 <= data.len(),
    ensures
        out@ == data@.subrange(at as int, at + 32),
{
    let mut out = [0u8;32];
    let mut i: usize = 0;
    while i < 32
        invariant
            i <= 32,
            at + 32 <= data.len(),
            forall|j: int| 0 <= j < i ==> out[j] == data[at + j],
        decreases 32 - i,
    {
        out[i] = data[at + i];
        i += 1;
    }
    proof {
        assert(out@ =~= data@.subrange(at as int, at + 32));
    }
    out
}

/// Reads a number of `len` bytes, highest byte first, from `at` on.
fn read_be(data: &Vec<u8>, at: usize, len: usize) -> (value: u64)
    requires
        len <= 8,
        at + len <= data.len(),
    ensures
        value == be_value(data@, at as int, len as nat),
        len == 4 ==> value <= u32::MAX,
{
    let mut value: u64 = 0;
    let mut i: usize = 0;
    while i < len
        invariant
            i <= len,
            len <= 8,
            at + len <= data.len(),
            value == be_value(data@, at as int, i as nat),
            value < pow256(i as nat),
        decreases len - i,
    {
        proof {
            lemma_pow256(i as nat);
        }
        value = value * 256 + data[at + i] as u64;
        i += 1;
    }
    proof {
        lemma_pow256(4);
    }
    value
}

/// 256 to the power `n`.
pub open spec fn pow256(n: nat) -> nat
    decreases n,
{
    if n == 0 {
        1
    } else {
        256 * pow256((n - 1) as nat)
    }
}

/// The powers of 256 up to the eighth.
proof fn lemma_pow256(n: nat)
    ensures
        pow256(n + 1) == 256 * pow256(n),
        n <= 7 ==> pow256(n + 1) <= 0x1_0000_0000_0000_0000,
        pow256(4) == 0x1_0000_0000,
{
    reveal_with_fuel(pow256, 10);
}

impl HashedTimeLockedContract {
    /// The contract that a transaction creates. The data of the transaction
    /// describes the contract; its value becomes the balance.
    pub fn create(balance: u64, transaction: &Transaction, block_height: u32) -> (contract: Result<
        Self,
        AccountError,
    >)
        ensures
            match contract {
                Ok(c) => describes_contract(transaction.data@) && c.balance == transaction.value
                    && c.sender.bytes@ == transaction.data@.subrange(0, 20) && c.recipient.bytes@
                    == transaction.data@.subrange(20, 40) && c.hash_root.bytes@
                    == transaction.data@.subrange(41, 73) && c.hash_count == transaction.data@[73]
                    && c.timeout == be_value(transaction.data@, 74, 4) && c.total_amount
                    == be_value(transaction.data@, 78, 8),
                Err(e) => !describes_contract(transaction.data@) && e
                    == AccountError::InvalidContractData,
            },
    {
        match Self::create_from_transaction(balance, transaction) {
            Some(account) => Ok(account),
            None => Err(AccountError::InvalidContractData),
        }
    }

    fn create_from_transaction(balance: u64, transaction: &Transaction) -> (contract: Option<Self>)
        ensures
            match contract {
                Some(c) => describes_contract(transaction.data@) && c.balance == transaction.value
                    && c.sender.bytes@ == transaction.data@.subrange(0, 20) && c.recipient.bytes@
                    == transaction.data@.subrange(20, 40) && c.hash_root.bytes@
                    == transaction.data@.subrange(41, 73) && c.hash_count == transaction.data@[73]
                    && c.timeout == be_value(transaction.data@, 74, 4) && c.total_amount
                    == be_value(transaction.data@, 78, 8),
                None => !describes_contract(transaction.data@),
            },
    {
        let data = &transaction.data;
        if data.len() < CREATION_DATA_LEN {
            return None;
        }
        let sender = Address { bytes: read_20(data, 0) };
        let recipient = Address { bytes: read_20(data, 20) };
        let algorithm = data[40];
        if !(algorithm == 1 || algorithm == 2 || algorithm == 3 || algorithm == 4) {
            return None;
        }
        let hash_root = Blake2bHash::new(read_32(data, 41));
        let hash_count = data[73];
        let timeout = read_be(data, 74, 4) as u32;
        let total_amount = read_be(data, 78, 8);
        if hash_count == 0 {
            return None;
        }
        Some(
            Self::new(
                transaction.value,
                sender,
                recipient,
                hash_root,
                hash_count,
                timeout,
                total_amount,
            ),
        )
    }

    pub fn new(
        balance: u64,
        sender: Address,
        recipient: Address,
        hash_root: Blake2bHash,
        hash_count: u8,
        timeout: u32,
        total_amount: u64,
    ) -> (contract: Self)
        ensures
            contract == (HashedTimeLockedContract {
                balance,
                sender,
                recipient,
                hash_root,
                hash_count,
                timeout,
                total_amount,
            }),
    {
        HashedTimeLockedContract {
            balance,
            sender,
            recipient,
            hash_root,
            hash_count,
            timeout,
            total_amount,
        }
    }

    /// Whether a transaction may come in: only the one that creates the
    /// contract, which goes to the address of the contract it creates.
    pub fn verify_incoming_transaction(transaction: &Transaction) -> (valid: bool)
        ensures
            valid == (transaction.recipient == transaction.contract_creation_address),
    {
        transaction.recipient == transaction.contract_creation_address
    }

    /// The same contract with another balance.
    pub fn with_balance(&self, balance: u64) -> (contract: Self)
        ensures
            contract == (HashedTimeLockedContract { balance, ..*self }),
    {
        HashedTimeLockedContract {
            balance,
            sender: self.sender,
            recipient: self.recipient,
            hash_root: self.hash_root,
            hash_count: self.hash_count,
            timeout: self.timeout,
            total_amount: self.total_amount,
        }
    }

    /// A contract takes nothing in after its creation.
    pub fn with_incoming_transaction(&self, transaction: &Transaction, block_height: u32) -> (contract:
        Result<Self, AccountError>)
        ensures
            contract == Err::<Self, AccountError>(AccountError::InvalidForRecipient),
    {
        Err(AccountError::InvalidForRecipient)
    }

    /// A contract took nothing in that could be taken back.
    pub fn without_incoming_transaction(&self, transaction: &Transaction, block_height: u32) -> (contract:
        Result<Self, AccountError>)
        ensures
            contract == Err::<Self, AccountError>(AccountError::InvalidForRecipient),
    {
        Err(AccountError::InvalidForRecipient)
    }

    /// Whether the proof of a transaction out of a contract holds by itself.
    /// A proof that could not be read does not hold.
    pub fn verify_outgoing_transaction(evidence: Option<VerifiedProof>) -> (valid: bool)
        ensures
            valid == (evidence is Some && proof_holds(evidence.unwrap())),
    {
        match evidence {
            Some(VerifiedProof::RegularTransfer { hash_root, hashed_pre_image, signature_valid }) => {
                if hash_root != hashed_pre_image {
                    return false;
                }
                signature_valid
            },
            Some(
                VerifiedProof::EarlyResolve { recipient_signature_valid, sender_signature_valid },
            ) => recipient_signature_valid && sender_signature_valid,
            Some(VerifiedProof::TimeoutResolve { signature_valid }) => signature_valid,
            None => false,
        }
    }

    /// The contract after the transaction took its value and fee out of it.
    /// The balance must cover them, and the proof must release them. A proof
    /// that could not be read releases nothing.
    pub fn with_outgoing_transaction(
        &self,
        transaction: &Transaction,
        block_height: u32,
        evidence: Option<OutgoingProof>,
    ) -> (contract: Result<Self, AccountError>)
        requires
            transaction.value + transaction.fee <= u64::MAX,
        ensures
            contract == after_outgoing(*self, transaction.value + transaction.fee, block_height, evidence),
    {
        let balance = match Account::balance_sub(self.balance, transaction.value + transaction.fee) {
            Ok(balance) => balance,
            Err(e) => {
                return Err(e);
            },
        };
        let released = match evidence {
            Some(
                OutgoingProof::RegularTransfer { hash_root, hash_depth, signed_by_recipient, min_cap },
            ) => {
                // Check that the contract has not expired yet.
                if self.timeout < block_height {
                    false
                } else if hash_root != self.hash_root {
                    false
                } else if !signed_by_recipient {
                    false
                } else {
                    balance >= min_cap
                }
            },
            Some(OutgoingProof::EarlyResolve { signed_by_recipient, signed_by_sender }) => {
                signed_by_recipient && signed_by_sender
            },
            Some(OutgoingProof::TimeoutResolve { signed_by_sender }) => signed_by_sender,
            None => false,
        };
        if released {
            Ok(self.with_balance(balance))
        } else {
            Err(AccountError::InvalidProof)
        }
    }

    /// The contract as it was before the transaction took its value and fee
    /// out of it.
    pub fn without_outgoing_transaction(&self, transaction: &Transaction, block_height: u32) -> (contract:
        Result<Self, AccountError>)
        requires
            transaction.value + transaction.fee <= u64::MAX,
        ensures
            contract == if self.balance + transaction.value + transaction.fee <= u64::MAX {
                Ok::<Self, AccountError>(
                    HashedTimeLockedContract {
                        balance: (self.balance + transaction.value + transaction.fee) as u64,
                        ..*self
                    },
                )
            } else {
                Err(AccountError::InvalidCoinValue)
            },
    {
        match Account::balance_add(self.balance, transaction.value + transaction.fee) {
            Ok(balance) => Ok(self.with_balance(balance)),
            Err(e) => Err(e),
        }
    }
}

} // verus!
