//! Incremental indexing of the two kinds of settlement events that an order
//! book contract emits: the deterministic merge of the fetched events with the
//! metadata of their blocks, and the rules by which a run decides where to
//! resume and which block windows to fetch.

use crate::env::Env;
use crate::logs::TradeEvent;
use crate::primitives::{Address, TxHash};
use vstd::prelude::*;

pub mod compose;
pub mod env;
pub mod log_order;
pub mod logs;
pub mod onchain;
pub mod primitives;

verus! {

/// A trade with all its fields: the event as logged, with the timestamp of
/// its block and the account that sent its transaction.
#[derive(Clone, Copy, Debug, PartialEq, Eq)]
pub struct Trade {
    pub timestamp: u64,
    pub tx_origin: Address,
    pub tx_hash: TxHash,
    pub event: TradeEvent,
}

/// Where the next run starts, as far as the saved trades alone tell.
#[derive(Clone, Copy, Debug, PartialEq, Eq)]
pub enum StartBlock {
    /// The run starts at this block.
    At(u64),
    /// The run starts at the block that now holds this transaction: the chain
    /// has to be asked for it.
    BlockOf(TxHash),
}

/// The first step towards the block a run starts from, given the saved
/// trades in the order in which they were appended, or `None` where nothing
/// was saved yet. Without a saved trade the run starts at the block in which
/// the contract was deployed. Otherwise it starts at the block that holds the
/// transaction of the last saved trade.
pub fn get_start_block(env: &Env, saved_trades: Option<&Vec<Trade>>) -> (start: StartBlock)
    ensures
        start == match saved_trades {
            Some(trades) if trades@.len() > 0 => StartBlock::BlockOf(trades@.last().tx_hash),
            _ => StartBlock::At(env.orderbookv4_deployment_block),
        },
{
    match saved_trades {
        None => StartBlock::At(env.orderbookv4_deployment_block),
        Some(trades) => {
            if trades.len() == 0 {
                StartBlock::At(env.orderbookv4_deployment_block)
            } else {
                StartBlock::BlockOf(trades[trades.len() - 1].tx_hash)
            }
        },
    }
}

/// The block a run starts from once the chain was asked for the block of the
/// last saved transaction: that block, or the block in which the contract was
/// deployed where the chain no longer knows the transaction.
pub fn start_block_from(env: &Env, containing_block: Option<u64>) -> (start_block: u64)
    ensures
        start_block == match containing_block {
            Some(block) => block,
            None => env.orderbookv4_deployment_block,
        },
{
    match containing_block {
        Some(block) => block,
        None => env.orderbookv4_deployment_block,
    }
}

/// A range of blocks that is fetched, merged and saved in one step.
#[derive(Clone, Copy, Debug, PartialEq, Eq)]
pub struct BlockWindow {
    pub start: u64,
    pub end: u64,
}

/// The window that starts at `from`, as long as `from` is below the latest
/// block; its length is the configured number of blocks per request. The
/// window after it starts where it ends.
pub fn next_window(env: &Env, from: u64, latest_block: u64) -> (window: Option<BlockWindow>)
    requires
        env.blocks_per_log_request > 0,
        from < latest_block ==> from + env.blocks_per_log_request <= u64::MAX,
    ensures
        window == if from < latest_block {
            Some(BlockWindow { start: from, end: (from + env.blocks_per_log_request) as u64 })
        } else {
            None
        },
{
    if from < latest_block {
        Some(BlockWindow { start: from, end: from + env.blocks_per_log_request })
    } else {
        None
    }
}

} // verus!
