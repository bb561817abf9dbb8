//! Fixed-width byte strings that identify transactions and accounts.

use vstd::prelude::*;

verus! {

/// The 32-byte hash of a transaction.
#[derive(Clone, Copy, Debug, PartialEq, Eq, PartialOrd, Ord, Hash)]
pub struct TxHash {
    pub bytes: [u8; 32],
}

/// The 20-byte address of an account.
#[derive(Clone, Copy, Debug, PartialEq, Eq, PartialOrd, Ord, Hash)]
pub struct Address {
    pub bytes: [u8; 20],
}

impl TxHash {
    /// Wraps the 32 bytes of a transaction hash.
    pub fn new(bytes: [u8; 32]) -> (hash: TxHash)
        ensures
            hash.bytes == bytes,
    {
        TxHash { bytes }
    }

    /// Whether two hashes hold the same bytes.
    pub fn equals(&self, other: &TxHash) -> (same: bool)
        ensures
            same == (*self == *other),
    {
        let mut i: usize = 0;
        while i < 32
            invariant
                i <= 32,
                forall|j: int| 0 <= j < i ==> self.bytes[j] == other.bytes[j],
            decreases 32 - i,
        {
            if self.bytes[i] != other.bytes[i] {
                return false;
            }
            i += 1;
        }
        assert(self.bytes =~= other.bytes);
        true
    }
}

impl Address {
    /// Wraps the 20 bytes of an account address.
    pub fn new(bytes: [u8; 20]) -> (address: Address)
        ensures
            address.bytes == bytes,
    {
        Address { bytes }
    }
}

} // verus!
