//! What the library reads of a block: its timestamp and, for each of its
//! transactions, the hash and the account that sent it.

use crate::primitives::{Address, TxHash};
use std::collections::BTreeMap;
use vstd::prelude::*;

verus! {

/// A transaction, reduced to its hash and the account that sent it.
#[derive(Clone, Copy, Debug, PartialEq, Eq)]
pub struct TxMetadata {
    pub origin: Address,
    pub hash: TxHash,
}

/// A block, reduced to its timestamp and its transactions in block order.
#[derive(Clone, Debug, PartialEq, Eq)]
pub struct BlockMetadata {
    pub timestamp: u64,
    pub transactions: Vec<TxMetadata>,
}

/// The mathematical value of a [`BlockMetadata`].
pub struct BlockMetadataView {
    pub timestamp: u64,
    pub transactions: Seq<TxMetadata>,
}

impl View for BlockMetadata {
    type V = BlockMetadataView;

    open spec fn view(&self) -> BlockMetadataView {
        BlockMetadataView { timestamp: self.timestamp, transactions: self.transactions@ }
    }
}

/// Files what a request for the block `block_number` returned: the block's
/// metadata under its number, in place of what was filed there before, or
/// nothing where the chain had no such block. Tells whether there was a block.
pub fn record_block_body(
    block_bodies: &mut BTreeMap<u64, BlockMetadata>,
    block_number: u64,
    fetched: Option<BlockMetadata>,
) -> (found: bool)
    ensures
        found == (fetched is Some),
        final(block_bodies)@ == match fetched {
            Some(body) => old(block_bodies)@.insert(block_number, body),
            None => old(block_bodies)@,
        },
{
    match fetched {
        None => false,
        Some(body) => {
            block_bodies.insert(block_number, body);
            true
        },
    }
}

} // verus!
