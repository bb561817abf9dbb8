//! The events that the order book contract logs, and how the raw logs of one
//! query are grouped by block.

use crate::primitives::TxHash;
use std::collections::BTreeMap;
use vstd::prelude::*;

verus! {

/// The kind of event that a trade was logged as.
#[derive(Clone, Copy, Debug, PartialEq, Eq, Structural)]
pub enum TradeEvent {
    ClearV2,
    TakeOrderV2,
}

/// A trade as its event log gives it: where it was logged, and by which
/// transaction.
#[derive(Clone, Copy, Debug, PartialEq, Eq)]
pub struct TradeLog {
    /// The position of the log in its block, counted over all events of the block.
    pub log_index: u64,
    pub block_number: u64,
    pub tx_hash: TxHash,
    pub event: TradeEvent,
}

/// A collection of trade logs as a mathematical map from block number to the
/// logs listed under it.
pub open spec fn events_view(trades: BTreeMap<u64, Vec<TradeLog>>) -> Map<u64, Seq<TradeLog>> {
    Map::new(|block: u64| trades@.contains_key(block), |block: u64| trades@[block]@)
}

/// The logs listed under `block`; none where the collection has no such key.
pub open spec fn events_at(events: Map<u64, Seq<TradeLog>>, block: u64) -> Seq<TradeLog> {
    if events.contains_key(block) {
        events[block]
    } else {
        Seq::empty()
    }
}

/// Whether every log is listed under the number of its own block.
pub open spec fn keyed_by_block(events: Map<u64, Seq<TradeLog>>) -> bool {
    forall|block: u64, i: int|
        events.contains_key(block) && 0 <= i < events[block].len() ==> (
        #[trigger] events[block][i]).block_number == block
}

/// A log as a query returns it. A log of a block that is still pending has
/// no position yet, and no trade is read from it.
#[derive(Clone, Copy, Debug, PartialEq, Eq)]
pub struct RawLog {
    pub log_index: Option<u64>,
    pub block_number: Option<u64>,
    pub transaction_hash: Option<TxHash>,
}

/// The trade log that a raw log of the given kind of event holds, if it has
/// its log index, its block number and its transaction hash.
pub open spec fn parsed(raw: RawLog, event: TradeEvent) -> Option<TradeLog> {
    if raw.log_index is Some && raw.block_number is Some && raw.transaction_hash is Some {
        Some(
            TradeLog {
                log_index: raw.log_index.unwrap(),
                block_number: raw.block_number.unwrap(),
                tx_hash: raw.transaction_hash.unwrap(),
                event,
            },
        )
    } else {
        None
    }
}

/// The trade logs that a sequence of raw logs holds, in the same order.
pub open spec fn parsed_all(raw: Seq<RawLog>, event: TradeEvent) -> Seq<TradeLog> {
    raw.filter_map(|raw: RawLog| parsed(raw, event))
}

/// The logs of `logs` that belong to `block`, in the order in which `logs`
/// holds them.
pub open spec fn in_block(logs: Seq<TradeLog>, block: u64) -> Seq<TradeLog> {
    logs.filter(|log: TradeLog| log.block_number == block)
}

/// Whether `grouped` lists each log of `logs` under its block, in the order
/// of `logs`, and has no other key and no other log.
pub open spec fn groups(grouped: Map<u64, Seq<TradeLog>>, logs: Seq<TradeLog>) -> bool {
    &&& forall|block: u64| grouped.contains_key(block) <==> in_block(logs, block).len() > 0
    &&& forall|block: u64| #[trigger] events_at(grouped, block) == in_block(logs, block)
}

/// Reads a trade log of the given kind from a raw log.
pub fn parse_log(raw: &RawLog, event: TradeEvent) -> (log: Option<TradeLog>)
    ensures
        log == parsed(*raw, event),
{
    match (raw.log_index, raw.transaction_hash, raw.block_number) {
        (Some(log_index), Some(tx_hash), Some(block_number)) => Some(
            TradeLog { log_index, block_number, tx_hash, event },
        ),
        _ => None,
    }
}

/// Lists each log under its block number, keeping the order of the logs
/// within each block.
pub fn group_by_block(logs: &Vec<TradeLog>) -> (grouped: BTreeMap<u64, Vec<TradeLog>>)
    ensures
        groups(events_view(grouped), logs@),
        keyed_by_block(events_view(grouped)),
{
    let mut grouped: BTreeMap<u64, Vec<TradeLog>> = BTreeMap::new();
    let mut i: usize = 0;
    proof {
        reveal(Seq::filter);
        assert(logs@.take(0) =~= Seq::<TradeLog>::empty());
        assert forall|block: u64| #[trigger]
            events_at(events_view(grouped), block) == in_block(logs@.take(0), block) by {
            assert(in_block(logs@.take(0), block) =~= Seq::<TradeLog>::empty());
        }
    }
    while i < logs.len()
        invariant
            i <= logs.len(),
            groups(events_view(grouped), logs@.take(i as int)),
        decreases logs.len() - i,
    {
        let log = logs[i];
        let ghost before = events_view(grouped);
        let mut listed = match grouped.remove(&log.block_number) {
            Some(listed) => listed,
            None => Vec::new(),
        };
        assert(listed@ == events_at(before, log.block_number));
        listed.push(log);
        grouped.insert(log.block_number, listed);
        proof {
            let next = logs@.take(i + 1);
            assert(next =~= logs@.take(i as int).push(log));
            assert forall|block: u64| #[trigger]
                events_at(events_view(grouped), block) == in_block(next, block) by {
                logs@.take(i as int).lemma_filter_push(
                    log,
                    |log: TradeLog| log.block_number == block,
                );
                assert(events_at(before, block) == in_block(logs@.take(i as int), block));
            }
            assert forall|block: u64|
                events_view(grouped).contains_key(block) <==> in_block(next, block).len()
                    > 0 by {
                logs@.take(i as int).lemma_filter_push(
                    log,
                    |log: TradeLog| log.block_number == block,
                );
                assert(before.contains_key(block) <==> in_block(logs@.take(i as int), block).len()
                    > 0);
            }
        }
        i += 1;
    }
    proof {
        assert(logs@.take(logs.len() as int) =~= logs@);
        let events = events_view(grouped);
        assert forall|block: u64, at: int|
            events.contains_key(block) && 0 <= at < events[block].len() implies (
        #[trigger] events[block][at]).block_number == block by {
            assert(events_at(events, block) == in_block(logs@, block));
            logs@.lemma_filter_pred(|log: TradeLog| log.block_number == block, at);
        }
    }
    grouped
}

/// The trade logs of one kind of event that a query returned, listed by
/// block: every raw log that has its position and its transaction, in the
/// order of the query.
pub fn group_trade_logs(raw: &Vec<RawLog>, event: TradeEvent) -> (grouped: BTreeMap<
    u64,
    Vec<TradeLog>,
>)
    ensures
        groups(events_view(grouped), parsed_all(raw@, event)),
        keyed_by_block(events_view(grouped)),
{
    let mut logs: Vec<TradeLog> = Vec::new();
    let mut i: usize = 0;
    while i < raw.len()
        invariant
            i <= raw.len(),
            logs@ == parsed_all(raw@.take(i as int), event),
        decreases raw.len() - i,
    {
        proof {
            raw@.lemma_filter_map_take_succ(|raw: RawLog| parsed(raw, event), i as int);
        }
        match parse_log(&raw[i], event) {
            Some(log) => {
                logs.push(log);
                assert(logs@ =~= parsed_all(raw@.take(i + 1), event));
            },
            None => {
                assert(logs@ =~= parsed_all(raw@.take(i + 1), event));
            },
        }
        i += 1;
    }
    proof {
        assert(raw@.take(raw.len() as int) =~= raw@);
    }
    group_by_block(&logs)
}

} // verus!
