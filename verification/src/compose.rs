//! The merge of two collections of trade logs, each keyed by block, with the
//! metadata of their blocks into one sequence of trades in chain order.

use crate::log_order::{
    by_log_index, in_log_order, index_space, lemma_by_log_index_commutes,
    lemma_by_log_index_in_order, lemma_by_log_index_permutes, lemma_stable_order_is_by_log_index,
    log_indices_disjoint, logged_at,
};
use crate::logs::{events_at, events_view, keyed_by_block, TradeLog};
use crate::onchain::{BlockMetadata, BlockMetadataView, TxMetadata};
use crate::primitives::{Address, TxHash};
use crate::Trade;
use itertools::Itertools;
use std::collections::BTreeMap;
use vstd::prelude::*;
use vstd::std_specs::iter::IteratorSpec;

verus! {

/// Whether the block numbers of `blocks` never decrease.
pub open spec fn ascending(blocks: Seq<u64>) -> bool {
    forall|i: int, j: int| 0 <= i <= j < blocks.len() ==> blocks[i] <= blocks[j]
}

/// How often `block` is a key of the two collections: 0, 1 or 2.
pub open spec fn times_keyed(
    these: Map<u64, Seq<TradeLog>>,
    other: Map<u64, Seq<TradeLog>>,
    block: u64,
) -> nat {
    let in_these: nat = if these.contains_key(block) { 1 } else { 0 };
    let in_other: nat = if other.contains_key(block) { 1 } else { 0 };
    in_these + in_other
}

/// `Itertools::sorted` on block numbers, collected with `collect_vec`: the
/// same numbers, each as often as given, in ascending order.
#[verifier::external_body]
fn sorted_block_numbers(blocks: Vec<u64>) -> (sorted: Vec<u64>)
    ensures
        ascending(sorted@),
        sorted@.to_multiset() == blocks@.to_multiset(),
{
    blocks.into_iter().sorted().collect_vec()
}

/// The keys of a collection, each once.
fn keyed_blocks(trades: &BTreeMap<u64, Vec<TradeLog>>) -> (blocks: Vec<u64>)
    ensures
        blocks@.no_duplicates(),
        forall|block: u64| blocks@.contains(block) <==> trades@.contains_key(block),
{
    let mut blocks: Vec<u64> = Vec::new();
    let ghost keys = trades.keys().remaining();
    for block in it: trades.keys()
        invariant
            it.seq() == keys,
            blocks@.len() == it.index(),
            forall|i: int| 0 <= i < it.index() ==> blocks@[i] == *keys[i],
    {
        blocks.push(*block);
    }
    proof {
        assert(blocks@ =~= keys.unref());
    }
    blocks
}

/// How often a sequence without repetitions holds a value: once or never.
proof fn lemma_count_of_distinct(blocks: Seq<u64>, block: u64)
    requires
        blocks.no_duplicates(),
    ensures
        blocks.to_multiset().count(block) == if blocks.contains(block) {
            1nat
        } else {
            0nat
        },
{
    blocks.lemma_multiset_has_no_duplicates();
    vstd::seq_lib::to_multiset_contains(blocks, block);
}

/// The block numbers under which either collection lists logs, in ascending
/// order. A block that both collections key comes twice.
pub fn blocks_with_trades(
    these_trades: &BTreeMap<u64, Vec<TradeLog>>,
    other_trades: &BTreeMap<u64, Vec<TradeLog>>,
) -> (blocks: Vec<u64>)
    ensures
        ascending(blocks@),
        forall|block: u64| #[trigger]
            blocks@.to_multiset().count(block) == times_keyed(
                events_view(*these_trades),
                events_view(*other_trades),
                block,
            ),
{
    let mut blocks = keyed_blocks(these_trades);
    let mut others = keyed_blocks(other_trades);
    let ghost these_blocks = blocks@;
    let ghost other_blocks = others@;
    blocks.append(&mut others);
    let sorted = sorted_block_numbers(blocks);
    proof {
        vstd::seq_lib::lemma_multiset_commutative(these_blocks, other_blocks);
        assert forall|block: u64| #[trigger]
            sorted@.to_multiset().count(block) == times_keyed(
                events_view(*these_trades),
                events_view(*other_trades),
                block,
            ) by {
            lemma_count_of_distinct(these_blocks, block);
            lemma_count_of_distinct(other_blocks, block);
        }
    }
    sorted
}

/// The metadata of the fetched blocks as a mathematical map from block number.
pub open spec fn bodies_view(block_bodies: BTreeMap<u64, BlockMetadata>) -> Map<
    u64,
    BlockMetadataView,
> {
    Map::new(|block: u64| block_bodies@.contains_key(block), |block: u64| block_bodies@[block]@)
}

/// The logs of one block from both collections, in the order in which the
/// chain emitted them: by log index, which a block counts over all its events.
/// Where both collections hold a log with the same index, the one of `these`
/// comes first.
pub open spec fn block_events(
    these: Map<u64, Seq<TradeLog>>,
    other: Map<u64, Seq<TradeLog>>,
    block: u64,
) -> Seq<TradeLog> {
    by_log_index(events_at(these, block) + events_at(other, block))
}

/// The logs listed under the blocks below `bound`, block by block in ascending
/// order, each block's logs as [`block_events`] orders them.
pub open spec fn merged_below(
    these: Map<u64, Seq<TradeLog>>,
    other: Map<u64, Seq<TradeLog>>,
    bound: nat,
) -> Seq<TradeLog>
    decreases bound,
{
    if bound == 0 {
        Seq::empty()
    } else {
        merged_below(these, other, (bound - 1) as nat) + block_events(
            these,
            other,
            (bound - 1) as u64,
        )
    }
}

/// All logs of both collections in chain order.
pub open spec fn merged_events(
    these: Map<u64, Seq<TradeLog>>,
    other: Map<u64, Seq<TradeLog>>,
) -> Seq<TradeLog> {
    merged_below(these, other, index_space())
}

/// The sender of the first transaction with the given hash, if there is one.
pub open spec fn origin_of(transactions: Seq<TxMetadata>, hash: TxHash) -> Option<Address>
    decreases transactions.len(),
{
    if transactions.len() == 0 {
        None
    } else if transactions.first().hash == hash {
        Some(transactions.first().origin)
    } else {
        origin_of(transactions.drop_first(), hash)
    }
}

/// Whether the metadata holds the block of a log, and that block the log's
/// transaction.
pub open spec fn can_enrich(log: TradeLog, bodies: Map<u64, BlockMetadataView>) -> bool {
    &&& bodies.contains_key(log.block_number)
    &&& origin_of(bodies[log.block_number].transactions, log.tx_hash) is Some
}

/// The trade that a log stands for: the log's transaction and event, the
/// timestamp of its block and the sender of its transaction.
pub open spec fn enriched(log: TradeLog, bodies: Map<u64, BlockMetadataView>) -> Trade {
    Trade {
        timestamp: bodies[log.block_number].timestamp,
        tx_origin: origin_of(bodies[log.block_number].transactions, log.tx_hash).unwrap(),
        tx_hash: log.tx_hash,
        event: log.event,
    }
}

/// The trades that a sequence of logs stands for, in the same order.
pub open spec fn enriched_all(logs: Seq<TradeLog>, bodies: Map<u64, BlockMetadataView>) -> Seq<
    Trade,
> {
    logs.map_values(|log: TradeLog| enriched(log, bodies))
}

/// Whether the metadata is complete for every log of a collection.
pub open spec fn all_enrichable(
    events: Map<u64, Seq<TradeLog>>,
    bodies: Map<u64, BlockMetadataView>,
) -> bool {
    forall|block: u64, i: int|
        events.contains_key(block) && 0 <= i < events[block].len() ==> can_enrich(
            #[trigger] events[block][i],
            bodies,
        )
}

/// The sender of the first of `transactions` whose hash is `hash`.
pub fn find_origin(transactions: &Vec<TxMetadata>, hash: &TxHash) -> (origin: Option<Address>)
    ensures
        origin == origin_of(transactions@, *hash),
{
    let mut i: usize = 0;
    proof {
        assert(transactions@.skip(0) =~= transactions@);
    }
    while i < transactions.len()
        invariant
            i <= transactions.len(),
            origin_of(transactions@, *hash) == origin_of(transactions@.skip(i as int), *hash),
        decreases transactions.len() - i,
    {
        if transactions[i].hash.equals(hash) {
            return Some(transactions[i].origin);
        }
        proof {
            assert(transactions@.skip(i as int).drop_first() =~= transactions@.skip(i + 1));
        }
        i += 1;
    }
    None
}

/// The trade that `log` stands for, or nothing where the metadata lacks the
/// log's block or that block lacks the log's transaction.
pub fn enrich(log: &TradeLog, block_bodies: &BTreeMap<u64, BlockMetadata>) -> (trade: Option<Trade>)
    ensures
        trade is Some <==> can_enrich(*log, bodies_view(*block_bodies)),
        trade is Some ==> trade.unwrap() == enriched(*log, bodies_view(*block_bodies)),
{
    match block_bodies.get(&log.block_number) {
        None => None,
        Some(body) => match find_origin(&body.transactions, &log.tx_hash) {
            None => None,
            Some(tx_origin) => Some(
                Trade {
                    timestamp: body.timestamp,
                    tx_origin,
                    tx_hash: log.tx_hash,
                    event: log.event,
                },
            ),
        },
    }
}

/// `Itertools::sorted_by_key` with the log index as the key, collected with
/// `collect_vec`: a stable sort. The result is in log order and holds at each
/// log index the logs that were given with it, in the order given.
#[verifier::external_body]
fn sorted_by_log_index(logs: Vec<TradeLog>) -> (sorted: Vec<TradeLog>)
    ensures
        in_log_order(sorted@),
        forall|index: u64| #[trigger] logged_at(sorted@, index) == logged_at(logs@, index),
{
    logs.into_iter().sorted_by_key(|trade| trade.log_index).collect_vec()
}

/// The logs of one block from both collections in the order of their log
/// indices.
pub fn merge_block(these_logs: Vec<TradeLog>, other_logs: Vec<TradeLog>) -> (merged: Vec<TradeLog>)
    ensures
        merged@ == by_log_index(these_logs@ + other_logs@),
{
    let mut logs = these_logs;
    let mut rest = other_logs;
    logs.append(&mut rest);
    let sorted = sorted_by_log_index(logs);
    proof {
        lemma_stable_order_is_by_log_index(sorted@, these_logs@ + other_logs@);
    }
    sorted
}

/// Blocks that neither collection keys add nothing to the merge.
pub proof fn lemma_merged_below_gap(
    these: Map<u64, Seq<TradeLog>>,
    other: Map<u64, Seq<TradeLog>>,
    from: nat,
    bound: nat,
)
    requires
        from <= bound <= index_space(),
        forall|block: u64|
            from <= block < bound ==> !these.contains_key(block) && !other.contains_key(block),
    ensures
        merged_below(these, other, bound) == merged_below(these, other, from),
    decreases bound - from,
{
    if from < bound {
        let block = (bound - 1) as u64;
        lemma_merged_below_gap(these, other, from, (bound - 1) as nat);
        assert(events_at(these, block) + events_at(other, block) =~= Seq::<TradeLog>::empty());
        lemma_by_log_index_permutes(Seq::<TradeLog>::empty());
        assert(block_events(these, other, block) =~= Seq::<TradeLog>::empty());
        assert(merged_below(these, other, bound) =~= merged_below(
            these,
            other,
            (bound - 1) as nat,
        ));
    }
}

/// Appends to `trades` the trades that `logs` stand for, in the same order.
pub fn enrich_block(
    logs: &Vec<TradeLog>,
    block_bodies: &BTreeMap<u64, BlockMetadata>,
    trades: &mut Vec<Trade>,
)
    requires
        forall|i: int| 0 <= i < logs.len() ==> can_enrich(logs[i], bodies_view(*block_bodies)),
    ensures
        final(trades)@ == old(trades)@ + enriched_all(logs@, bodies_view(*block_bodies)),
{
    let ghost before = trades@;
    let mut i: usize = 0;
    while i < logs.len()
        invariant
            i <= logs.len(),
            forall|i: int| 0 <= i < logs.len() ==> can_enrich(logs[i], bodies_view(*block_bodies)),
            trades@ == before + enriched_all(logs@.take(i as int), bodies_view(*block_bodies)),
        decreases logs.len() - i,
    {
        let trade = enrich(&logs[i], block_bodies);
        assert(can_enrich(logs[i as int], bodies_view(*block_bodies)));
        trades.push(trade.unwrap());
        proof {
            assert(logs@.take(i + 1) =~= logs@.take(i as int).push(logs[i as int]));
            assert(trades@ =~= before + enriched_all(
                logs@.take(i + 1),
                bodies_view(*block_bodies),
            ));
        }
        i += 1;
    }
    proof {
        assert(logs@.take(logs.len() as int) =~= logs@);
    }
}

/// One more than the last of the first `done` blocks; 0 where none is done.
pub open spec fn next_block(blocks: Seq<u64>, done: int) -> nat {
    if done <= 0 {
        0
    } else {
        (blocks[done - 1] + 1) as nat
    }
}

/// Between the blocks that are done and the block that comes next, an
/// ascending list of all keys leaves no key out.
proof fn lemma_no_key_skipped(blocks: Seq<u64>, done: int, events: Map<u64, Seq<TradeLog>>)
    requires
        ascending(blocks),
        0 <= done <= blocks.len(),
        forall|block: u64| events.contains_key(block) ==> blocks.contains(block),
    ensures
        forall|block: u64|
            events.contains_key(block) && block >= next_block(blocks, done) ==> done
                < blocks.len() && block >= blocks[done],
{
    assert forall|block: u64|
        events.contains_key(block) && block >= next_block(blocks, done) implies done
        < blocks.len() && block >= blocks[done] by {
        assert(blocks.contains(block));
        let at = choose|at: int| 0 <= at < blocks.len() && blocks[at] == block;
        if at < done {
            assert(blocks[at] <= blocks[done - 1]);
        } else {
            assert(blocks[done] <= blocks[at]);
        }
    }
}

/// Enrich trade logs with the metadata of their blocks and merge them into a
/// single sequence of trades in chain order: block by block, and within a
/// block by log index.
///
/// The metadata must hold the block of every log, and that block the log's
/// transaction: [`metadata_complete`] tests it.
pub fn enrich_and_merge(
    these_trades: BTreeMap<u64, Vec<TradeLog>>,
    other_trades: BTreeMap<u64, Vec<TradeLog>>,
    block_bodies: BTreeMap<u64, BlockMetadata>,
) -> (trades: Vec<Trade>)
    requires
        all_enrichable(events_view(these_trades), bodies_view(block_bodies)),
        all_enrichable(events_view(other_trades), bodies_view(block_bodies)),
    ensures
        trades@ == enriched_all(
            merged_events(events_view(these_trades), events_view(other_trades)),
            bodies_view(block_bodies),
        ),
        trades@.len() == total_events(events_view(these_trades)) + total_events(
            events_view(other_trades),
        ),
        keyed_by_block(events_view(these_trades)) && keyed_by_block(events_view(other_trades))
            ==> in_chain_order(
            merged_events(events_view(these_trades), events_view(other_trades)),
        ),
{
    let ghost these = events_view(these_trades);
    let ghost other = events_view(other_trades);
    let ghost bodies = bodies_view(block_bodies);
    let blocks = blocks_with_trades(&these_trades, &other_trades);
    proof {
        assert forall|block: u64|
            these.contains_key(block) || other.contains_key(block) implies blocks@.contains(
            block,
        ) by {
            assert(blocks@.to_multiset().count(block) == times_keyed(these, other, block));
            vstd::seq_lib::to_multiset_contains(blocks@, block);
        }
    }
    let mut these_left = these_trades;
    let mut other_left = other_trades;
    let mut trades: Vec<Trade> = Vec::new();
    let mut done: usize = 0;
    proof {
        assert(trades@ =~= enriched_all(merged_below(these, other, 0), bodies));
    }
    while done < blocks.len()
        invariant
            done <= blocks.len(),
            ascending(blocks@),
            these == events_view(these_trades),
            other == events_view(other_trades),
            bodies == bodies_view(block_bodies),
            all_enrichable(these, bodies),
            all_enrichable(other, bodies),
            forall|block: u64|
                these.contains_key(block) || other.contains_key(block) ==> blocks@.contains(block),
            forall|block: u64|
                these_left@.contains_key(block) <==> these.contains_key(block) && block
                    >= next_block(blocks@, done as int),
            forall|block: u64|
                these_left@.contains_key(block) ==> these_left@[block]@ == these[block],
            forall|block: u64|
                other_left@.contains_key(block) <==> other.contains_key(block) && block
                    >= next_block(blocks@, done as int),
            forall|block: u64|
                other_left@.contains_key(block) ==> other_left@[block]@ == other[block],
            trades@ == enriched_all(
                merged_below(these, other, next_block(blocks@, done as int)),
                bodies,
            ),
        decreases blocks.len() - done,
    {
        let block = blocks[done];
        let ghost from = next_block(blocks@, done as int);
        let ghost so_far = trades@;
        proof {
            lemma_no_key_skipped(blocks@, done as int, these);
            lemma_no_key_skipped(blocks@, done as int, other);
            if done > 0 {
                assert(blocks@[done - 1] <= blocks@[done as int]);
            }
        }
        let ghost these_before = these_left@;
        let ghost other_before = other_left@;
        let these_logs = match these_left.remove(&block) {
            Some(logs) => logs,
            None => Vec::new(),
        };
        let other_logs = match other_left.remove(&block) {
            Some(logs) => logs,
            None => Vec::new(),
        };
        let merged = merge_block(these_logs, other_logs);
        proof {
            assert(these_left@ == these_before.remove(block));
            assert(other_left@ == other_before.remove(block));
            assert forall|key: u64|
                these_left@.contains_key(key) <==> these.contains_key(key) && key >= next_block(
                    blocks@,
                    done + 1,
                ) by {
                assert(these_before.contains_key(key) <==> these.contains_key(key) && key >= from);
            }
            assert forall|key: u64|
                other_left@.contains_key(key) <==> other.contains_key(key) && key >= next_block(
                    blocks@,
                    done + 1,
                ) by {
                assert(other_before.contains_key(key) <==> other.contains_key(key) && key >= from);
            }
            lemma_by_log_index_permutes(these_logs@ + other_logs@);
            assert forall|i: int| 0 <= i < merged.len() implies can_enrich(merged[i], bodies) by {
                assert(merged@.contains(merged@[i]));
                let log = merged@[i];
                assert((these_logs@ + other_logs@).contains(log));
                let at = choose|at: int|
                    0 <= at < (these_logs@ + other_logs@).len() && (these_logs@ + other_logs@)[at]
                        == log;
                if at < these_logs@.len() {
                    assert(these[block][at] == log);
                } else {
                    assert(other[block][at - these_logs@.len()] == log);
                }
            }
        }
        enrich_block(&merged, &block_bodies, &mut trades);
        proof {
            if block >= from {
                lemma_merged_below_gap(these, other, from, block as nat);
                assert(these_logs@ == events_at(these, block));
                assert(other_logs@ == events_at(other, block));
                assert(merged@ == block_events(these, other, block));
                assert(trades@ =~= enriched_all(
                    merged_below(these, other, (block + 1) as nat),
                    bodies,
                ));
            } else {
                assert(these_logs@ + other_logs@ =~= Seq::<TradeLog>::empty());
                assert(merged@ =~= Seq::<TradeLog>::empty());
                assert(trades@ =~= so_far);
            }
        }
        done += 1;
    }
    proof {
        let from = next_block(blocks@, done as int);
        lemma_no_key_skipped(blocks@, done as int, these);
        lemma_no_key_skipped(blocks@, done as int, other);
        lemma_merged_below_gap(these, other, from, index_space());
        lemma_merge_conserves(these, other, bodies);
        if keyed_by_block(these) && keyed_by_block(other) {
            lemma_merge_in_chain_order(these, other);
        }
    }
    trades
}

/// The number of logs listed under the blocks below `bound`.
pub open spec fn total_below(events: Map<u64, Seq<TradeLog>>, bound: nat) -> nat
    decreases bound,
{
    if bound == 0 {
        0
    } else {
        total_below(events, (bound - 1) as nat) + events_at(events, (bound - 1) as u64).len()
    }
}

/// The number of logs in a collection.
pub open spec fn total_events(events: Map<u64, Seq<TradeLog>>) -> nat {
    total_below(events, index_space())
}

/// Whether the logs come in chain order: the block numbers never decrease,
/// nor do the log indices within one block.
pub open spec fn in_chain_order(logs: Seq<TradeLog>) -> bool {
    forall|i: int, j: int|
        0 <= i <= j < logs.len() ==> logs[i].block_number < logs[j].block_number || (
        logs[i].block_number == logs[j].block_number && logs[i].log_index <= logs[j].log_index)
}

/// Whether the two collections share no log index within any block.
pub open spec fn log_indices_apart(
    these: Map<u64, Seq<TradeLog>>,
    other: Map<u64, Seq<TradeLog>>,
) -> bool {
    forall|block: u64| #[trigger]
        log_indices_disjoint(events_at(these, block), events_at(other, block))
}

proof fn lemma_merged_below_commutes(
    these: Map<u64, Seq<TradeLog>>,
    other: Map<u64, Seq<TradeLog>>,
    bound: nat,
)
    requires
        log_indices_apart(these, other),
    ensures
        merged_below(these, other, bound) == merged_below(other, these, bound),
    decreases bound,
{
    if bound > 0 {
        let block = (bound - 1) as u64;
        lemma_merged_below_commutes(these, other, (bound - 1) as nat);
        assert(log_indices_disjoint(events_at(these, block), events_at(other, block)));
        lemma_by_log_index_commutes(events_at(these, block), events_at(other, block));
    }
}

/// The merge is commutative: where the two collections share no log index
/// within any block, swapping them gives the same logs in the same order, and
/// so the same trades.
pub proof fn lemma_merge_commutes(
    these: Map<u64, Seq<TradeLog>>,
    other: Map<u64, Seq<TradeLog>>,
    bodies: Map<u64, BlockMetadataView>,
)
    requires
        log_indices_apart(these, other),
    ensures
        merged_events(these, other) == merged_events(other, these),
        enriched_all(merged_events(these, other), bodies) == enriched_all(
            merged_events(other, these),
            bodies,
        ),
{
    lemma_merged_below_commutes(these, other, index_space());
}

proof fn lemma_merged_below_len(
    these: Map<u64, Seq<TradeLog>>,
    other: Map<u64, Seq<TradeLog>>,
    bound: nat,
)
    ensures
        merged_below(these, other, bound).len() == total_below(these, bound) + total_below(
            other,
            bound,
        ),
    decreases bound,
{
    if bound > 0 {
        let block = (bound - 1) as u64;
        lemma_merged_below_len(these, other, (bound - 1) as nat);
        lemma_by_log_index_permutes(events_at(these, block) + events_at(other, block));
    }
}

/// The merge neither drops nor invents a record: where the metadata is
/// complete, there are as many trades as the two collections hold logs.
pub proof fn lemma_merge_conserves(
    these: Map<u64, Seq<TradeLog>>,
    other: Map<u64, Seq<TradeLog>>,
    bodies: Map<u64, BlockMetadataView>,
)
    requires
        all_enrichable(these, bodies),
        all_enrichable(other, bodies),
    ensures
        enriched_all(merged_events(these, other), bodies).len() == total_events(these)
            + total_events(other),
{
    lemma_merged_below_len(these, other, index_space());
}

proof fn lemma_merged_below_in_chain_order(
    these: Map<u64, Seq<TradeLog>>,
    other: Map<u64, Seq<TradeLog>>,
    bound: nat,
)
    requires
        keyed_by_block(these),
        keyed_by_block(other),
        bound <= index_space(),
    ensures
        in_chain_order(merged_below(these, other, bound)),
        forall|i: int|
            0 <= i < merged_below(these, other, bound).len() ==> (merged_below(
                these,
                other,
                bound,
            )[i].block_number as nat) < bound,
    decreases bound,
{
    if bound > 0 {
        let block = (bound - 1) as u64;
        let before = merged_below(these, other, (bound - 1) as nat);
        let given = events_at(these, block) + events_at(other, block);
        let here = block_events(these, other, block);
        let all = before + here;
        lemma_merged_below_in_chain_order(these, other, (bound - 1) as nat);
        lemma_by_log_index_permutes(given);
        lemma_by_log_index_in_order(given);
        assert forall|i: int| 0 <= i < here.len() implies here[i].block_number == block by {
            assert(here.contains(here[i]));
            assert(given.contains(here[i]));
            let at = choose|at: int| 0 <= at < given.len() && given[at] == here[i];
            if at < events_at(these, block).len() {
                assert(these[block][at] == here[i]);
            } else {
                assert(other[block][at - events_at(these, block).len()] == here[i]);
            }
        }
        assert forall|i: int| 0 <= i < all.len() implies (all[i].block_number as nat) < bound by {
            if i < before.len() {
                assert(all[i] == before[i]);
            } else {
                assert(all[i] == here[i - before.len()]);
            }
        }
        assert forall|i: int, j: int| 0 <= i <= j < all.len() implies all[i].block_number
            < all[j].block_number || (all[i].block_number == all[j].block_number
            && all[i].log_index <= all[j].log_index) by {
            if j < before.len() {
                assert(all[i] == before[i] && all[j] == before[j]);
            } else if i < before.len() {
                assert(all[i] == before[i] && all[j] == here[j - before.len()]);
            } else {
                assert(all[i] == here[i - before.len()] && all[j] == here[j - before.len()]);
            }
        }
    }
}

/// The merge is in chain order: where every log is listed under its own
/// block, the merged logs never step back in block number, nor in log index
/// within a block. The trades follow the merged logs one for one.
pub proof fn lemma_merge_in_chain_order(
    these: Map<u64, Seq<TradeLog>>,
    other: Map<u64, Seq<TradeLog>>,
)
    requires
        keyed_by_block(these),
        keyed_by_block(other),
    ensures
        in_chain_order(merged_events(these, other)),
{
    lemma_merged_below_in_chain_order(these, other, index_space());
}

/// Nothing comes of nothing: two collections without a key merge to no trade,
/// and ask nothing of the metadata, which may then be empty too.
pub proof fn lemma_merge_of_nothing(
    these: Map<u64, Seq<TradeLog>>,
    other: Map<u64, Seq<TradeLog>>,
    bodies: Map<u64, BlockMetadataView>,
)
    requires
        forall|block: u64| !these.contains_key(block),
        forall|block: u64| !other.contains_key(block),
    ensures
        all_enrichable(these, bodies),
        all_enrichable(other, bodies),
        merged_events(these, other) == Seq::<TradeLog>::empty(),
        enriched_all(merged_events(these, other), bodies) == Seq::<Trade>::empty(),
{
    lemma_merged_below_gap(these, other, 0, index_space());
    assert(enriched_all(Seq::<TradeLog>::empty(), bodies) =~= Seq::<Trade>::empty());
}

/// Whether the metadata holds, for every log of the collection, the log's
/// block and in it the log's transaction.
pub fn metadata_complete(
    trades: &BTreeMap<u64, Vec<TradeLog>>,
    block_bodies: &BTreeMap<u64, BlockMetadata>,
) -> (complete: bool)
    ensures
        complete == all_enrichable(events_view(*trades), bodies_view(*block_bodies)),
{
    let ghost events = events_view(*trades);
    let ghost bodies = bodies_view(*block_bodies);
    let blocks = keyed_blocks(trades);
    let mut at: usize = 0;
    while at < blocks.len()
        invariant
            at <= blocks.len(),
            events == events_view(*trades),
            bodies == bodies_view(*block_bodies),
            forall|block: u64| blocks@.contains(block) <==> trades@.contains_key(block),
            forall|k: int, i: int|
                0 <= k < at && events.contains_key(blocks@[k]) && 0 <= i
                    < events[blocks@[k]].len() ==> can_enrich(
                    #[trigger] events[blocks@[k]][i],
                    bodies,
                ),
        decreases blocks.len() - at,
    {
        let block = blocks[at];
        assert(blocks@.contains(blocks@[at as int]));
        match trades.get(&block) {
            None => {},
            Some(logs) => {
                let mut i: usize = 0;
                while i < logs.len()
                    invariant
                        i <= logs.len(),
                        events == events_view(*trades),
                        bodies == bodies_view(*block_bodies),
                        events.contains_key(block),
                        logs@ == events[block],
                        forall|j: int| 0 <= j < i ==> can_enrich(#[trigger] logs@[j], bodies),
                    decreases logs.len() - i,
                {
                    if enrich(&logs[i], block_bodies).is_none() {
                        assert(!can_enrich(events[block][i as int], bodies));
                        return false;
                    }
                    i += 1;
                }
            },
        }
        at += 1;
    }
    proof {
        assert forall|block: u64, i: int|
            events.contains_key(block) && 0 <= i < events[block].len() implies can_enrich(
            #[trigger] events[block][i],
            bodies,
        ) by {
            assert(blocks@.contains(block));
            let k = choose|k: int| 0 <= k < blocks@.len() && blocks@[k] == block;
            assert(can_enrich(events[blocks@[k]][i], bodies));
        }
    }
    true
}

/// [`enrich_and_merge`] where the metadata is complete for both collections,
/// and nothing where it is not.
pub fn checked_enrich_and_merge(
    these_trades: BTreeMap<u64, Vec<TradeLog>>,
    other_trades: BTreeMap<u64, Vec<TradeLog>>,
    block_bodies: BTreeMap<u64, BlockMetadata>,
) -> (trades: Option<Vec<Trade>>)
    ensures
        trades is Some <==> all_enrichable(events_view(these_trades), bodies_view(block_bodies))
            && all_enrichable(events_view(other_trades), bodies_view(block_bodies)),
        trades is Some ==> trades.unwrap()@ == enriched_all(
            merged_events(events_view(these_trades), events_view(other_trades)),
            bodies_view(block_bodies),
        ),
{
    if metadata_complete(&these_trades, &block_bodies) && metadata_complete(
        &other_trades,
        &block_bodies,
    ) {
        Some(enrich_and_merge(these_trades, other_trades, block_bodies))
    } else {
        None
    }
}

} // verus!
