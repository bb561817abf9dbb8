use rain_drops::compose::{
    blocks_with_trades, checked_enrich_and_merge, enrich, enrich_and_merge, enrich_block,
    find_origin, merge_block, metadata_complete,
};
use rain_drops::logs::{TradeEvent, TradeLog};
use rain_drops::onchain::{BlockMetadata, TxMetadata};
use rain_drops::primitives::{Address, TxHash};
use rain_drops::Trade;
use std::collections::BTreeMap;

fn hash(n: u8) -> TxHash {
    TxHash::new([n; 32])
}

fn address(n: u8) -> Address {
    Address::new([n; 20])
}

fn log(event: TradeEvent, block_number: u64, log_index: u64, tx: u8) -> TradeLog {
    TradeLog { log_index, block_number, tx_hash: hash(tx), event }
}

fn by_block(logs: Vec<TradeLog>) -> BTreeMap<u64, Vec<TradeLog>> {
    let mut map: BTreeMap<u64, Vec<TradeLog>> = BTreeMap::new();
    for log in logs {
        map.entry(log.block_number).or_default().push(log);
    }
    map
}

fn block(timestamp: u64, txs: Vec<(u8, u8)>) -> BlockMetadata {
    BlockMetadata {
        timestamp,
        transactions: txs
            .into_iter()
            .map(|(tx, origin)| TxMetadata { origin: address(origin), hash: hash(tx) })
            .collect(),
    }
}

fn scenario() -> (
    BTreeMap<u64, Vec<TradeLog>>,
    BTreeMap<u64, Vec<TradeLog>>,
    BTreeMap<u64, BlockMetadata>,
) {
    let clears = by_block(vec![
        log(TradeEvent::ClearV2, 10, 5, 1),
        log(TradeEvent::ClearV2, 12, 1, 2),
    ]);
    let takes = by_block(vec![
        log(TradeEvent::TakeOrderV2, 10, 2, 3),
        log(TradeEvent::TakeOrderV2, 11, 0, 4),
    ]);
    let mut bodies = BTreeMap::new();
    bodies.insert(10, block(1000, vec![(9, 90), (1, 11), (3, 13)]));
    bodies.insert(11, block(1100, vec![(4, 14)]));
    bodies.insert(12, block(1200, vec![(8, 80), (2, 12)]));
    (clears, takes, bodies)
}

fn trade(timestamp: u64, origin: u8, tx: u8, event: TradeEvent) -> Trade {
    Trade { timestamp, tx_origin: address(origin), tx_hash: hash(tx), event }
}

#[test]
fn merges_two_categories_in_chain_order() {
    let (clears, takes, bodies) = scenario();
    assert!(metadata_complete(&clears, &bodies));
    assert!(metadata_complete(&takes, &bodies));
    let trades = enrich_and_merge(clears, takes, bodies);
    assert_eq!(
        trades,
        vec![
            trade(1000, 13, 3, TradeEvent::TakeOrderV2),
            trade(1000, 11, 1, TradeEvent::ClearV2),
            trade(1100, 14, 4, TradeEvent::TakeOrderV2),
            trade(1200, 12, 2, TradeEvent::ClearV2),
        ]
    );
}

#[test]
fn merge_is_the_same_with_the_categories_swapped() {
    let (clears, takes, bodies) = scenario();
    let one = enrich_and_merge(clears.clone(), takes.clone(), bodies.clone());
    let two = enrich_and_merge(takes, clears, bodies);
    assert_eq!(one, two);
}

#[test]
fn merge_keeps_every_log() {
    let clears = by_block(vec![
        log(TradeEvent::ClearV2, 7, 3, 1),
        log(TradeEvent::ClearV2, 7, 1, 1),
        log(TradeEvent::ClearV2, 3, 9, 2),
    ]);
    let takes = by_block(vec![
        log(TradeEvent::TakeOrderV2, 7, 2, 1),
        log(TradeEvent::TakeOrderV2, 5, 0, 3),
    ]);
    let mut bodies = BTreeMap::new();
    bodies.insert(3, block(30, vec![(2, 22)]));
    bodies.insert(5, block(50, vec![(3, 33)]));
    bodies.insert(7, block(70, vec![(1, 44)]));
    let trades = enrich_and_merge(clears, takes, bodies);
    assert_eq!(trades.len(), 5);
    assert_eq!(
        trades,
        vec![
            trade(30, 22, 2, TradeEvent::ClearV2),
            trade(50, 33, 3, TradeEvent::TakeOrderV2),
            trade(70, 44, 1, TradeEvent::ClearV2),
            trade(70, 44, 1, TradeEvent::TakeOrderV2),
            trade(70, 44, 1, TradeEvent::ClearV2),
        ]
    );
}

#[test]
fn merge_of_nothing_is_empty_and_needs_no_metadata() {
    let none: BTreeMap<u64, Vec<TradeLog>> = BTreeMap::new();
    let bodies: BTreeMap<u64, BlockMetadata> = BTreeMap::new();
    assert!(metadata_complete(&none, &bodies));
    let trades = enrich_and_merge(none.clone(), none, bodies);
    assert!(trades.is_empty());
}

#[test]
fn equal_log_indices_keep_the_first_collection_first() {
    let these = vec![log(TradeEvent::ClearV2, 4, 6, 1), log(TradeEvent::ClearV2, 4, 2, 2)];
    let other = vec![log(TradeEvent::TakeOrderV2, 4, 6, 3), log(TradeEvent::TakeOrderV2, 4, 2, 4)];
    let merged = merge_block(these, other);
    assert_eq!(
        merged,
        vec![
            log(TradeEvent::ClearV2, 4, 2, 2),
            log(TradeEvent::TakeOrderV2, 4, 2, 4),
            log(TradeEvent::ClearV2, 4, 6, 1),
            log(TradeEvent::TakeOrderV2, 4, 6, 3),
        ]
    );
}

#[test]
fn merge_block_sorts_by_log_index() {
    let these = vec![log(TradeEvent::ClearV2, 1, 9, 1), log(TradeEvent::ClearV2, 1, 3, 2)];
    let merged = merge_block(these, Vec::new());
    let indices: Vec<u64> = merged.iter().map(|log| log.log_index).collect();
    assert_eq!(indices, vec![3, 9]);
}

#[test]
fn blocks_with_trades_are_ascending_and_a_shared_block_comes_twice() {
    let (clears, takes, _) = scenario();
    assert_eq!(blocks_with_trades(&clears, &takes), vec![10, 10, 11, 12]);
    let none: BTreeMap<u64, Vec<TradeLog>> = BTreeMap::new();
    assert_eq!(blocks_with_trades(&none, &none), Vec::<u64>::new());
}

#[test]
fn find_origin_takes_the_first_transaction_with_the_hash() {
    let body = block(1, vec![(5, 50), (6, 60), (5, 70)]);
    assert_eq!(find_origin(&body.transactions, &hash(5)), Some(address(50)));
    assert_eq!(find_origin(&body.transactions, &hash(6)), Some(address(60)));
    assert_eq!(find_origin(&body.transactions, &hash(7)), None);
    assert_eq!(find_origin(&Vec::new(), &hash(5)), None);
}

#[test]
fn enrich_needs_the_block_and_the_transaction() {
    let (_, _, bodies) = scenario();
    let found = enrich(&log(TradeEvent::ClearV2, 10, 5, 1), &bodies);
    assert_eq!(found, Some(trade(1000, 11, 1, TradeEvent::ClearV2)));
    assert_eq!(enrich(&log(TradeEvent::ClearV2, 13, 5, 1), &bodies), None);
    assert_eq!(enrich(&log(TradeEvent::ClearV2, 11, 5, 1), &bodies), None);
}

#[test]
fn metadata_is_incomplete_without_a_block_or_a_transaction() {
    let (clears, takes, mut bodies) = scenario();
    bodies.remove(&11);
    assert!(metadata_complete(&clears, &bodies));
    assert!(!metadata_complete(&takes, &bodies));
    bodies.insert(11, block(1100, vec![(5, 14)]));
    assert!(!metadata_complete(&takes, &bodies));
    bodies.insert(11, block(1100, vec![(5, 14), (4, 15)]));
    assert!(metadata_complete(&takes, &bodies));
}

#[test]
fn checked_merge_gives_the_merge_where_the_metadata_is_complete() {
    let (clears, takes, bodies) = scenario();
    let expected = enrich_and_merge(clears.clone(), takes.clone(), bodies.clone());
    assert_eq!(checked_enrich_and_merge(clears, takes, bodies), Some(expected));
}

#[test]
fn checked_merge_gives_nothing_where_a_block_is_missing() {
    let (clears, takes, mut bodies) = scenario();
    bodies.remove(&12);
    assert_eq!(checked_enrich_and_merge(clears, takes, bodies), None);
}

#[test]
fn checked_merge_gives_nothing_where_a_transaction_is_missing() {
    let (clears, takes, mut bodies) = scenario();
    bodies.insert(11, block(1100, vec![(9, 14)]));
    assert_eq!(checked_enrich_and_merge(clears.clone(), takes.clone(), bodies.clone()), None);
    assert_eq!(checked_enrich_and_merge(takes, clears, bodies), None);
}

#[test]
fn enrich_block_appends_in_the_order_of_the_logs() {
    let (_, _, bodies) = scenario();
    let mut trades = vec![trade(1, 1, 1, TradeEvent::ClearV2)];
    let logs = vec![log(TradeEvent::ClearV2, 12, 1, 2), log(TradeEvent::TakeOrderV2, 10, 2, 3)];
    enrich_block(&logs, &bodies, &mut trades);
    assert_eq!(
        trades,
        vec![
            trade(1, 1, 1, TradeEvent::ClearV2),
            trade(1200, 12, 2, TradeEvent::ClearV2),
            trade(1000, 13, 3, TradeEvent::TakeOrderV2),
        ]
    );
}

#[test]
fn logs_under_another_key_than_their_block_are_enriched_from_their_own_block() {
    let mut clears: BTreeMap<u64, Vec<TradeLog>> = BTreeMap::new();
    clears.insert(3, vec![log(TradeEvent::ClearV2, 12, 1, 2)]);
    let takes: BTreeMap<u64, Vec<TradeLog>> = BTreeMap::new();
    let (_, _, bodies) = scenario();
    let trades = enrich_and_merge(clears, takes, bodies);
    assert_eq!(trades, vec![trade(1200, 12, 2, TradeEvent::ClearV2)]);
}

/// A hash that spells out where a log was emitted.
fn place_hash(block_number: u64, log_index: u64) -> TxHash {
    let mut bytes = [0u8; 32];
    bytes[..8].copy_from_slice(&block_number.to_be_bytes());
    bytes[8..16].copy_from_slice(&log_index.to_be_bytes());
    TxHash::new(bytes)
}

fn place_of(hash: &TxHash) -> (u64, u64) {
    let mut block_number = [0u8; 8];
    let mut log_index = [0u8; 8];
    block_number.copy_from_slice(&hash.bytes[..8]);
    log_index.copy_from_slice(&hash.bytes[8..16]);
    (u64::from_be_bytes(block_number), u64::from_be_bytes(log_index))
}

#[test]
fn generated_collections_merge_alike_either_way_round_and_in_chain_order() {
    let mut state: u64 = 0x2545_f491_4f6c_dd1d;
    let mut next = move |bound: u64| {
        state = state.wrapping_mul(6364136223846793005).wrapping_add(1442695040888963407);
        (state >> 33) % bound
    };
    for _ in 0..50 {
        let mut clears: BTreeMap<u64, Vec<TradeLog>> = BTreeMap::new();
        let mut takes: BTreeMap<u64, Vec<TradeLog>> = BTreeMap::new();
        let mut bodies: BTreeMap<u64, BlockMetadata> = BTreeMap::new();
        let mut total = 0;
        for _ in 0..(1 + next(20)) {
            let block_number = next(12);
            // Even log indices for one kind and odd ones for the other keep them apart.
            let (map, event, log_index) = if next(2) == 0 {
                (&mut clears, TradeEvent::ClearV2, 2 * next(30))
            } else {
                (&mut takes, TradeEvent::TakeOrderV2, 2 * next(30) + 1)
            };
            let tx_hash = place_hash(block_number, log_index);
            map.entry(block_number).or_default().push(TradeLog {
                log_index,
                block_number,
                tx_hash,
                event,
            });
            let body = bodies
                .entry(block_number)
                .or_insert(BlockMetadata { timestamp: 100 + block_number, transactions: vec![] });
            body.transactions.push(TxMetadata { origin: address(block_number as u8), hash: tx_hash });
            total += 1;
        }
        let trades = enrich_and_merge(clears.clone(), takes.clone(), bodies.clone());
        let flipped = enrich_and_merge(takes, clears, bodies);
        assert_eq!(trades.len(), total);
        assert_eq!(trades, flipped);
        for pair in trades.windows(2) {
            assert!(place_of(&pair[0].tx_hash) <= place_of(&pair[1].tx_hash));
        }
        for trade in &trades {
            let (block_number, _) = place_of(&trade.tx_hash);
            assert_eq!(trade.timestamp, 100 + block_number);
            assert_eq!(trade.tx_origin, address(block_number as u8));
        }
    }
}
