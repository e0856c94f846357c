//! Plain-value forms of the chain data that the cell set reads: out points,
//! transaction metadata with its dead-cell bits, and block summaries.

use vstd::prelude::*;
use crate::vec_map::{bytes32_eq, KeyEq};

verus! {

/// A 32-byte hash (transaction hash, block hash, script code hash).
pub type Hash32 = [u8; 32];

/// An output of a transaction: the transaction's hash and the output's index.
#[derive(Clone, Copy, Debug, PartialEq, Eq, Hash)]
pub struct CellOutPoint {
    pub tx_hash: Hash32,
    pub index: u32,
}

/// The point an input spends: a cell output and/or a block hash.
#[derive(Clone, Copy, Debug, PartialEq, Eq, Hash)]
pub struct OutPoint {
    pub cell: Option<CellOutPoint>,
    pub block_hash: Option<Hash32>,
}

fn opt_hash_eq(a: &Option<Hash32>, b: &Option<Hash32>) -> (r: bool)
    ensures
        r == (*a == *b),
{
    match (a, b) {
        (Some(x), Some(y)) => bytes32_eq(x, y),
        (None, None) => true,
        _ => false,
    }
}

impl KeyEq for CellOutPoint {
    fn key_eq(&self, other: &Self) -> (r: bool) {
        self.index == other.index && bytes32_eq(&self.tx_hash, &other.tx_hash)
    }
}

impl KeyEq for OutPoint {
    fn key_eq(&self, other: &Self) -> (r: bool) {
        let cells_equal = match (&self.cell, &other.cell) {
            (Some(x), Some(y)) => x.key_eq(y),
            (None, None) => true,
            _ => false,
        };
        cells_equal && opt_hash_eq(&self.block_hash, &other.block_hash)
    }
}

/// The abstract value of a `TransactionMeta`.
pub struct MetaView {
    pub block_number: u64,
    pub epoch_number: u64,
    pub cellbase: bool,
    pub dead_cell: Seq<bool>,
}

/// Metadata of a transaction in the live cell set: where it was committed,
/// whether it is a cellbase, and which of its outputs are spent.
#[derive(Clone, Debug, PartialEq, Eq)]
pub struct TransactionMeta {
    block_number: u64,
    epoch_number: u64,
    cellbase: bool,
    dead_cell: Vec<bool>,
}

impl View for TransactionMeta {
    type V = MetaView;

    closed spec fn view(&self) -> MetaView {
        MetaView {
            block_number: self.block_number,
            epoch_number: self.epoch_number,
            cellbase: self.cellbase,
            dead_cell: self.dead_cell@,
        }
    }
}

/// Metadata of a freshly committed transaction: all outputs live.
pub open spec fn fresh_meta(block_number: u64, epoch_number: u64, cellbase: bool, outputs_count: nat) -> MetaView {
    MetaView {
        block_number,
        epoch_number,
        cellbase,
        dead_cell: Seq::new(outputs_count, |i: int| false),
    }
}

/// The metadata with output `index` marked dead (or live); an index past the
/// outputs leaves it unchanged.
pub open spec fn with_mark(m: MetaView, index: int, dead: bool) -> MetaView {
    if 0 <= index < m.dead_cell.len() {
        MetaView { dead_cell: m.dead_cell.update(index, dead), ..m }
    } else {
        m
    }
}

/// Marking a live output dead and then live again gives back the metadata
/// (an index past the outputs changes nothing either way).
pub proof fn lemma_mark_then_unmark(m: MetaView, index: int)
    requires
        0 <= index < m.dead_cell.len() ==> !m.dead_cell[index],
    ensures
        with_mark(with_mark(m, index, true), index, false) == m,
{
    if 0 <= index < m.dead_cell.len() {
        assert(m.dead_cell.update(index, true).update(index, false) =~= m.dead_cell);
    }
}

impl TransactionMeta {
    /// Metadata of a non-cellbase transaction with `outputs_count` live outputs.
    pub fn new(block_number: u64, epoch_number: u64, outputs_count: usize) -> (r: Self)
        ensures
            r@ == fresh_meta(block_number, epoch_number, false, outputs_count as nat),
    {
        let mut dead_cell: Vec<bool> = Vec::new();
        let mut i: usize = 0;
        while i < outputs_count
            invariant
                i <= outputs_count,
                dead_cell@ =~= Seq::new(i as nat, |j: int| false),
            decreases outputs_count - i,
        {
            dead_cell.push(false);
            i += 1;
        }
        let r = TransactionMeta { block_number, epoch_number, cellbase: false, dead_cell };
        assert(r@.dead_cell =~= fresh_meta(block_number, epoch_number, false, outputs_count as nat).dead_cell);
        r
    }

    /// Metadata of a cellbase transaction with `outputs_count` live outputs.
    pub fn new_cellbase(block_number: u64, epoch_number: u64, outputs_count: usize) -> (r: Self)
        ensures
            r@ == fresh_meta(block_number, epoch_number, true, outputs_count as nat),
    {
        let mut r = Self::new(block_number, epoch_number, outputs_count);
        r.cellbase = true;
        r
    }

    /// An equal copy.
    pub fn duplicate(&self) -> (r: Self)
        ensures
            r@ == self@,
    {
        let mut dead_cell: Vec<bool> = Vec::new();
        let mut i: usize = 0;
        while i < self.dead_cell.len()
            invariant
                i <= self.dead_cell@.len(),
                dead_cell@ =~= self.dead_cell@.subrange(0, i as int),
            decreases self.dead_cell@.len() - i,
        {
            dead_cell.push(self.dead_cell[i]);
            i += 1;
        }
        assert(dead_cell@ =~= self.dead_cell@);
        TransactionMeta {
            block_number: self.block_number,
            epoch_number: self.epoch_number,
            cellbase: self.cellbase,
            dead_cell,
        }
    }

    pub fn is_cellbase(&self) -> (r: bool)
        ensures
            r == self@.cellbase,
    {
        self.cellbase
    }

    /// Number of outputs.
    pub fn len(&self) -> (r: usize)
        ensures
            r == self@.dead_cell.len(),
    {
        self.dead_cell.len()
    }

    pub fn block_number(&self) -> (r: u64)
        ensures
            r == self@.block_number,
    {
        self.block_number
    }

    pub fn epoch_number(&self) -> (r: u64)
        ensures
            r == self@.epoch_number,
    {
        self.epoch_number
    }

    /// Whether output `index` is spent; `None` past the outputs.
    pub fn is_dead(&self, index: usize) -> (r: Option<bool>)
        ensures
            r == (if index < self@.dead_cell.len() {
                Some(self@.dead_cell[index as int])
            } else {
                None::<bool>
            }),
    {
        if index < self.dead_cell.len() {
            Some(self.dead_cell[index])
        } else {
            None
        }
    }

    /// Marks output `index` spent; an index past the outputs is ignored.
    pub fn set_dead(&mut self, index: usize)
        ensures
            final(self)@ == with_mark(old(self)@, index as int, true),
    {
        if index < self.dead_cell.len() {
            self.dead_cell.set(index, true);
        }
    }

    /// Marks output `index` live again; an index past the outputs is ignored.
    pub fn unset_dead(&mut self, index: usize)
        ensures
            final(self)@ == with_mark(old(self)@, index as int, false),
    {
        if index < self.dead_cell.len() {
            self.dead_cell.set(index, false);
        }
    }
}

/// What the cell set reads of a transaction: its hash, the points its
/// inputs spend, how many outputs it has and whether it is a cellbase.
#[derive(Clone, Debug)]
pub struct Transaction {
    pub hash: Hash32,
    pub inputs: Vec<OutPoint>,
    pub outputs_len: usize,
    pub cellbase: bool,
}

/// What the cell set reads of a block: its number, epoch and transactions.
#[derive(Clone, Debug)]
pub struct Block {
    pub number: u64,
    pub epoch: u64,
    pub transactions: Vec<Transaction>,
}

} // verus!
