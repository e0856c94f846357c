use bloom_filters::{CountingBloomFilter, DefaultBuildHashKernels};
use ckb::bloom::CellSetFilter;
use ckb::cell_set::{deconstruct_cell_key, CellSet, CellSetDiff};
use ckb::transaction::{Block, CellOutPoint, OutPoint, Transaction, TransactionMeta};
use std::collections::hash_map::RandomState;

fn filter() -> CellSetFilter {
    CellSetFilter(CountingBloomFilter::new(
        10_000,
        7,
        0.03,
        DefaultBuildHashKernels::new(rand::random(), RandomState::new()),
    ))
}

fn h(b: u8) -> [u8; 32] {
    [b; 32]
}

fn spend(tx: u8, index: u32) -> OutPoint {
    OutPoint { cell: Some(CellOutPoint { tx_hash: h(tx), index }), block_hash: None }
}

fn dead_bits(m: &TransactionMeta) -> Vec<bool> {
    (0..m.len()).map(|i| m.is_dead(i).unwrap()).collect()
}

#[test]
fn transaction_meta_marks() {
    let mut m = TransactionMeta::new(5, 1, 3);
    assert!(!m.is_cellbase());
    assert_eq!(m.block_number(), 5);
    assert_eq!(m.epoch_number(), 1);
    assert_eq!(dead_bits(&m), vec![false, false, false]);
    m.set_dead(1);
    assert_eq!(dead_bits(&m), vec![false, true, false]);
    m.set_dead(7);
    assert_eq!(dead_bits(&m), vec![false, true, false]);
    assert_eq!(m.is_dead(3), None);
    m.unset_dead(1);
    assert_eq!(dead_bits(&m), vec![false, false, false]);
    assert!(TransactionMeta::new_cellbase(1, 0, 1).is_cellbase());
}

#[test]
fn insert_get_remove() {
    let mut set = CellSet::new(filter());
    set.insert(h(1), 10, 2, true, 2);
    let m = set.get(&h(1)).unwrap();
    assert!(m.is_cellbase());
    assert_eq!(m.block_number(), 10);
    assert_eq!(m.epoch_number(), 2);
    assert_eq!(m.len(), 2);
    assert!(set.get(&h(2)).is_none());
    set.insert(h(1), 11, 2, false, 4);
    assert_eq!(set.get(&h(1)).unwrap().len(), 4);
    let removed = set.remove(&h(1)).unwrap();
    assert_eq!(removed.block_number(), 11);
    assert!(set.get(&h(1)).is_none());
    assert!(set.remove(&h(1)).is_none());
}

#[test]
fn mark_dead_only_touches_known_transactions() {
    let mut set = CellSet::new(filter());
    set.insert(h(1), 1, 0, false, 2);
    set.mark_dead(&spend(1, 1));
    set.mark_dead(&spend(9, 0));
    set.mark_dead(&OutPoint { cell: None, block_hash: Some(h(1)) });
    assert_eq!(dead_bits(set.get(&h(1)).unwrap()), vec![false, true]);
    assert!(set.get(&h(9)).is_none());
}

fn block(number: u64, txs: Vec<Transaction>) -> Block {
    Block { number, epoch: number / 10, transactions: txs }
}

fn tx(hash: u8, inputs: Vec<OutPoint>, outputs_len: usize, cellbase: bool) -> Transaction {
    Transaction { hash: h(hash), inputs, outputs_len, cellbase }
}

#[test]
fn push_new_and_update() {
    let mut set = CellSet::new(filter());
    set.insert(h(1), 1, 0, true, 2);
    let mut diff = CellSetDiff::new();
    diff.push_new(&block(
        2,
        vec![tx(2, vec![OutPoint { cell: None, block_hash: None }], 1, true), tx(3, vec![spend(1, 0)], 3, false)],
    ));
    assert_eq!(diff.new_outputs.len(), 2);
    assert_eq!(*diff.new_outputs.get(&h(3)).unwrap(), (2, 0, false, 3));
    assert_eq!(*diff.new_outputs.get(&h(2)).unwrap(), (2, 0, true, 1));
    assert!(diff.new_inputs.contains(&spend(1, 0)));
    set.update(diff);
    assert_eq!(dead_bits(set.get(&h(1)).unwrap()), vec![true, false]);
    assert!(set.get(&h(2)).unwrap().is_cellbase());
    assert_eq!(set.get(&h(3)).unwrap().len(), 3);
}

#[test]
fn push_old_and_update_rolls_back() {
    let mut set = CellSet::new(filter());
    set.insert(h(1), 1, 0, true, 2);
    set.insert(h(3), 2, 0, false, 3);
    set.mark_dead(&spend(1, 0));
    let mut diff = CellSetDiff::new();
    diff.push_old(&block(2, vec![tx(3, vec![spend(1, 0)], 3, false)]));
    assert_eq!(*diff.old_outputs.get(&h(3)).unwrap(), 3);
    set.update(diff);
    assert!(set.get(&h(3)).is_none());
    assert_eq!(dead_bits(set.get(&h(1)).unwrap()), vec![false, false]);
}

fn fork_diff() -> CellSetDiff {
    let mut diff = CellSetDiff::new();
    diff.push_old(&block(2, vec![tx(3, vec![spend(1, 0)], 3, false)]));
    diff.push_new(&block(2, vec![tx(4, vec![spend(1, 1)], 2, false), tx(5, vec![spend(4, 0)], 1, false)]));
    diff
}

#[test]
fn overlay_previews_update() {
    let mut set = CellSet::new(filter());
    set.insert(h(1), 1, 0, true, 2);
    set.insert(h(3), 2, 0, false, 3);
    set.mark_dead(&spend(1, 0));
    let diff = fork_diff();
    let overlay = set.obsolete_new_overlay(&diff);
    let seen: Vec<Option<Vec<bool>>> = (1..=5).map(|b| overlay.get(&h(b)).map(dead_bits)).collect();
    assert_eq!(seen[0], Some(vec![false, true]));
    assert_eq!(seen[1], None);
    assert_eq!(seen[2], None);
    // The overlay does not mark a new transaction spent by another new one.
    assert_eq!(seen[3], Some(vec![false, false]));
    assert_eq!(seen[4], Some(vec![false]));
    let mut updated = CellSet::new(filter());
    updated.insert(h(1), 1, 0, true, 2);
    updated.insert(h(3), 2, 0, false, 3);
    updated.mark_dead(&spend(1, 0));
    updated.update(fork_diff());
    assert_eq!(dead_bits(updated.get(&h(1)).unwrap()), vec![false, true]);
    assert!(updated.get(&h(3)).is_none());
    assert_eq!(dead_bits(updated.get(&h(4)).unwrap()), vec![true, false]);
    assert_eq!(dead_bits(updated.get(&h(5)).unwrap()), vec![false]);
}

#[test]
fn overlay_agrees_with_update_when_new_inputs_spend_known() {
    let mut diff = CellSetDiff::new();
    diff.push_old(&block(2, vec![tx(3, vec![spend(1, 0)], 3, false)]));
    diff.push_new(&block(2, vec![tx(4, vec![spend(1, 1)], 2, false)]));
    let mut set = CellSet::new(filter());
    set.insert(h(1), 1, 0, true, 2);
    set.insert(h(3), 2, 0, false, 3);
    set.mark_dead(&spend(1, 0));
    let overlay: Vec<Option<Vec<bool>>> = {
        let o = set.obsolete_new_overlay(&diff);
        (1..=4).map(|b| o.get(&h(b)).map(dead_bits)).collect()
    };
    set.update(diff);
    let updated: Vec<Option<Vec<bool>>> = (1..=4).map(|b| set.get(&h(b)).map(dead_bits)).collect();
    assert_eq!(overlay, updated);
    assert_eq!(updated[0], Some(vec![false, true]));
}

#[test]
fn filter_counts_cells() {
    let mut set = CellSet::new(filter());
    assert!(!set.contains_probably(&h(1), 0));
    set.insert_cells(&[(h(1), 0), (h(2), 5)]);
    assert_eq!(set.count(), 2);
    assert!(set.contains_probably(&h(1), 0));
    assert!(set.contains_probably(&h(2), 5));
    let mut raw = vec![7u8; 32];
    raw.extend_from_slice(&[1, 1, 0, 0]);
    set.insert_raw(&raw);
    assert_eq!(set.count(), 3);
    assert!(set.contains_probably(&h(7), 257));
    set.delete_cells(&[(h(2), 5)]);
    assert_eq!(set.count(), 2);
    assert!(!set.contains_probably(&h(2), 5));
}

#[test]
fn cell_key_layout() {
    let mut raw = vec![9u8; 32];
    raw.extend_from_slice(&[0x78, 0x56, 0x34, 0x12]);
    assert_eq!(deconstruct_cell_key(&raw), ([9u8; 32], 0x1234_5678));
}

#[test]
fn debug_text() {
    let mut set = CellSet::new(filter());
    assert_eq!(set.debug_string(), "CellSet { count: 0, /* fields omitted */ }");
    set.insert_cells(&[(h(1), 0), (h(1), 1), (h(1), 2), (h(1), 3), (h(1), 4), (h(1), 5), (h(1), 6), (h(1), 7), (h(1), 8), (h(1), 9), (h(1), 10), (h(1), 11)]);
    assert_eq!(set.debug_string(), "CellSet { count: 12, /* fields omitted */ }");
}

#[test]
fn detaching_a_block_undoes_attaching_it() {
    let mut set = CellSet::new(filter());
    set.insert(h(1), 1, 0, true, 3);
    set.mark_dead(&spend(1, 2));
    let b = block(7, vec![tx(4, vec![spend(1, 0)], 2, false), tx(5, vec![spend(1, 1), spend(4, 0)], 1, false)]);
    let mut attach = CellSetDiff::new();
    attach.push_new(&b);
    set.update(attach);
    assert_eq!(dead_bits(set.get(&h(1)).unwrap()), vec![true, true, true]);
    assert_eq!(dead_bits(set.get(&h(4)).unwrap()), vec![true, false]);
    let mut detach = CellSetDiff::new();
    detach.push_old(&b);
    set.update(detach);
    assert_eq!(dead_bits(set.get(&h(1)).unwrap()), vec![false, false, true]);
    assert!(set.get(&h(4)).is_none());
    assert!(set.get(&h(5)).is_none());
}

#[test]
fn empty_diff_changes_nothing() {
    let mut set = CellSet::new(filter());
    set.insert(h(1), 1, 0, false, 2);
    set.mark_dead(&spend(1, 1));
    let diff = CellSetDiff::new();
    assert_eq!(set.obsolete_new_overlay(&diff).get(&h(1)).map(dead_bits), Some(vec![false, true]));
    assert!(set.obsolete_new_overlay(&diff).get(&h(2)).is_none());
    set.update(diff);
    assert_eq!(dead_bits(set.get(&h(1)).unwrap()), vec![false, true]);
}

#[test]
fn dead_then_live_restores_meta() {
    let mut m = TransactionMeta::new(1, 0, 2);
    m.set_dead(0);
    m.unset_dead(0);
    assert_eq!(dead_bits(&m), vec![false, false]);
}

#[test]
fn meta_changes_leave_filter_answers() {
    let mut set = CellSet::new(filter());
    set.insert_cells(&[(h(3), 1)]);
    let before = (set.contains_probably(&h(3), 1), set.contains_probably(&h(3), 2));
    set.insert(h(3), 1, 0, false, 4);
    let mut diff = CellSetDiff::new();
    diff.push_new(&block(2, vec![tx(6, vec![spend(3, 0)], 1, false)]));
    set.update(diff);
    assert_eq!((set.contains_probably(&h(3), 1), set.contains_probably(&h(3), 2)), before);
    assert_eq!(set.count(), 1);
}

#[test]
fn delete_cells_undoes_insert_cells() {
    let mut set = CellSet::new(filter());
    set.insert_cells(&[(h(1), 0), (h(1), 1)]);
    let probe = [(h(1), 0), (h(1), 1), (h(2), 0), (h(2), 7), (h(3), 3)];
    let before: Vec<bool> = probe.iter().map(|(t, i)| set.contains_probably(t, *i)).collect();
    let keys = [(h(2), 0), (h(2), 7), (h(1), 0)];
    set.insert_cells(&keys);
    assert!(keys.iter().all(|(t, i)| set.contains_probably(t, *i)));
    assert_eq!(set.count(), 5);
    set.delete_cells(&keys);
    let after: Vec<bool> = probe.iter().map(|(t, i)| set.contains_probably(t, *i)).collect();
    assert_eq!(before, after);
    assert_eq!(set.count(), 2);
}
