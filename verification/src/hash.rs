//! The hashes that name blocks.
use vstd::prelude::*;
use vstd::std_specs::cmp::PartialEqSpecImpl;

verus! {

/// A 32-byte block hash. Two hashes are equal exactly when all their bytes are.
#[derive(Clone, Copy, Debug)]
pub struct Blake2bHash {
    pub bytes: [u8; 32],
}

impl Blake2bHash {
    /// Wraps 32 raw bytes.
    pub fn new(bytes: [u8; 32]) -> (h: Self)
        ensures
            h.bytes == bytes,
    {
        Blake2bHash { bytes }
    }

    /// The raw bytes.
    pub fn as_bytes(&self) -> (b: &[u8; 32])
        ensures
            *b == self.bytes,
    {
        &self.bytes
    }
}

impl PartialEq for Blake2bHash {
    fn eq(&self, other: &Self) -> (r: bool) {
        let mut i: usize = 0;
        while i < 32
            invariant
                i <= 32,
                forall|j: int| 0 <= j < i ==> self.bytes[j] == other.bytes[j],
            decreases 32 - i,
        {
            if self.bytes[i] != other.bytes[i] {
                return false;
            }
            i += 1;
        }
        proof {
            assert(self.bytes@ =~= other.bytes@);
            assert(self.bytes == other.bytes);
        }
        true
    }
}

impl Eq for Blake2bHash {}

impl PartialEqSpecImpl for Blake2bHash {
    open spec fn obeys_eq_spec() -> bool {
        true
    }

    open spec fn eq_spec(&self, other: &Self) -> bool {
        *self == *other
    }
}

} // verus!
