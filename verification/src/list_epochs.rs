//! The epoch statistics table: the range of epochs it covers and the
//! numbers of each row.

use vstd::prelude::*;
use crate::difficulty::{compact_difficulty, compact_to_difficulty, u256_bound, u256_checked_add, u256_checked_mul, u256_value};

verus! {

/// Exit codes of the command.
#[derive(Clone, Copy, Debug, PartialEq, Eq, Structural)]
pub enum ExitCode {
    /// Command line arguments error.
    Cli,
    /// Config error.
    Config,
    /// I/O error.
    IO,
    /// Any other failure.
    Failure,
}

/// The epochs to list: `from` (inclusive) up to `to` (exclusive).
#[derive(Clone, Copy, Debug, PartialEq, Eq, Structural)]
pub struct Statics {
    pub from: u64,
    pub to: u64,
}

impl Statics {
    /// The range from the arguments: `from` defaults to epoch 0 and `to` to
    /// the tip; a range that starts after it ends is a command line error.
    pub fn build(from: Option<u64>, to: Option<u64>, tip_number: u64) -> (r: Result<Statics, ExitCode>)
        ensures
            ({
                let f = match from {
                    Some(x) => x,
                    None => 0,
                };
                let t = match to {
                    Some(x) => x,
                    None => tip_number,
                };
                if f > t {
                    r == Err::<Statics, ExitCode>(ExitCode::Cli)
                } else {
                    r == Ok::<Statics, ExitCode>(Statics { from: f, to: t })
                }
            }),
    {
        let from = match from {
            Some(x) => x,
            None => 0,
        };
        let to = match to {
            Some(x) => x,
            None => tip_number,
        };
        if from > to {
            return Err(ExitCode::Cli);
        }
        Ok(Statics { from, to })
    }
}

/// The last block of an epoch that starts at `start` and has `length` blocks.
pub fn end_block_number(start: u64, length: u64) -> (r: u64)
    requires
        1 <= start + length <= u64::MAX,
    ensures
        r == start + length - 1,
{
    start + length - 1
}

/// One row of the table.
#[derive(Clone, Copy, Debug)]
pub struct EpochRow {
    pub epoch_number: u64,
    pub start_block_number: u64,
    pub end_block_number: u64,
    pub length: u64,
    pub uncles_number: u64,
    pub compact_target: u32,
    pub block_difficulty: [u64; 4],
    pub epoch_difficulty: [u64; 4],
    pub epoch_difficulty_with_uncles: [u64; 4],
}

/// Whether `row` holds the numbers of an epoch: its blocks, its uncles
/// (total uncles at its last block minus those at the previous epoch's last
/// block), the block difficulty `d`, the epoch difficulty `d * length` and
/// with uncles `d * length + d * uncles`.
pub open spec fn row_of(
    row: EpochRow,
    epoch_number: u64,
    start: u64,
    length: u64,
    compact_target: u32,
    total_uncles: u64,
    prev_total_uncles: u64,
    d: nat,
) -> bool {
    &&& row.epoch_number == epoch_number
    &&& row.start_block_number == start
    &&& row.end_block_number == start + length - 1
    &&& row.length == length
    &&& row.uncles_number == total_uncles - prev_total_uncles
    &&& row.compact_target == compact_target
    &&& u256_value(row.block_difficulty) == d
    &&& u256_value(row.epoch_difficulty) == d * length
    &&& u256_value(row.epoch_difficulty_with_uncles) == d * length + d * (total_uncles - prev_total_uncles)
}

/// Whether the difficulties of a row fit in 256 bits.
pub open spec fn row_fits(d: nat, length: u64, uncles: nat) -> bool {
    &&& d * length < u256_bound()
    &&& d * uncles < u256_bound()
    &&& d * length + d * uncles < u256_bound()
}

/// The row of an epoch whose block difficulty is `block_difficulty`; `None`
/// when a difficulty of the row does not fit in 256 bits.
pub fn epoch_row_with_difficulty(
    epoch_number: u64,
    start: u64,
    length: u64,
    compact_target: u32,
    total_uncles: u64,
    prev_total_uncles: u64,
    block_difficulty: [u64; 4],
) -> (r: Option<EpochRow>)
    requires
        1 <= start + length <= u64::MAX,
        prev_total_uncles <= total_uncles,
    ensures
        match r {
            Some(row) => row_of(
                row,
                epoch_number,
                start,
                length,
                compact_target,
                total_uncles,
                prev_total_uncles,
                u256_value(block_difficulty),
            ) && row.block_difficulty == block_difficulty,
            None => !row_fits(u256_value(block_difficulty), length, (total_uncles - prev_total_uncles) as nat),
        },
{
    let end = end_block_number(start, length);
    let uncles_number = total_uncles - prev_total_uncles;
    let epoch_difficulty = match u256_checked_mul(block_difficulty, length) {
        Some(x) => x,
        None => return None,
    };
    let uncles_difficulty = match u256_checked_mul(block_difficulty, uncles_number) {
        Some(x) => x,
        None => return None,
    };
    let with_uncles = match u256_checked_add(epoch_difficulty, uncles_difficulty) {
        Some(x) => x,
        None => return None,
    };
    Some(EpochRow {
        epoch_number,
        start_block_number: start,
        end_block_number: end,
        length,
        uncles_number,
        compact_target,
        block_difficulty,
        epoch_difficulty,
        epoch_difficulty_with_uncles: with_uncles,
    })
}

/// The row of an epoch, with the block difficulty decoded from the compact
/// target; `None` when a difficulty of the row does not fit in 256 bits.
pub fn epoch_row(
    epoch_number: u64,
    start: u64,
    length: u64,
    compact_target: u32,
    total_uncles: u64,
    prev_total_uncles: u64,
) -> (r: Option<EpochRow>)
    requires
        1 <= start + length <= u64::MAX,
        prev_total_uncles <= total_uncles,
    ensures
        match r {
            Some(row) => row_of(
                row,
                epoch_number,
                start,
                length,
                compact_target,
                total_uncles,
                prev_total_uncles,
                compact_difficulty(compact_target),
            ),
            None => !row_fits(compact_difficulty(compact_target), length, (total_uncles - prev_total_uncles) as nat),
        },
{
    let block_difficulty = compact_to_difficulty(compact_target);
    epoch_row_with_difficulty(
        epoch_number,
        start,
        length,
        compact_target,
        total_uncles,
        prev_total_uncles,
        block_difficulty,
    )
}

/// What the table carries from one row to the next: the total uncles at the
/// previous epoch's last block and the previous row's difficulties.
#[derive(Clone, Copy, Debug)]
pub struct EpochTable {
    pub prev_total_uncles: u64,
    pub prev_epoch_difficulty: Option<[u64; 4]>,
    pub prev_epoch_difficulty_with_uncles: Option<[u64; 4]>,
}

/// A row and the previous row's difficulties (epoch, and with uncles), which
/// the change ratios compare against.
pub struct TableRow {
    pub row: EpochRow,
    pub prev_epoch_difficulty: Option<[u64; 4]>,
    pub prev_epoch_difficulty_with_uncles: Option<[u64; 4]>,
}

impl EpochTable {
    /// The table before its first row: the uncles are counted from the total
    /// at the last block of the first listed epoch, and there is no previous
    /// difficulty.
    pub fn new(first_total_uncles: u64) -> (r: Self)
        ensures
            r.prev_total_uncles == first_total_uncles,
            r.prev_epoch_difficulty is None,
            r.prev_epoch_difficulty_with_uncles is None,
    {
        EpochTable {
            prev_total_uncles: first_total_uncles,
            prev_epoch_difficulty: None,
            prev_epoch_difficulty_with_uncles: None,
        }
    }

    /// The next row, and the table carried on to the row after it; `None`
    /// (table unchanged) when a difficulty of the row does not fit in 256 bits.
    pub fn next_row(
        &mut self,
        epoch_number: u64,
        start: u64,
        length: u64,
        compact_target: u32,
        total_uncles: u64,
    ) -> (r: Option<TableRow>)
        requires
            1 <= start + length <= u64::MAX,
            old(self).prev_total_uncles <= total_uncles,
        ensures
            match r {
                Some(t) => {
                    &&& row_of(
                        t.row,
                        epoch_number,
                        start,
                        length,
                        compact_target,
                        total_uncles,
                        old(self).prev_total_uncles,
                        compact_difficulty(compact_target),
                    )
                    &&& t.prev_epoch_difficulty == old(self).prev_epoch_difficulty
                    &&& t.prev_epoch_difficulty_with_uncles == old(self).prev_epoch_difficulty_with_uncles
                    &&& final(self).prev_total_uncles == total_uncles
                    &&& final(self).prev_epoch_difficulty == Some(t.row.epoch_difficulty)
                    &&& final(self).prev_epoch_difficulty_with_uncles == Some(t.row.epoch_difficulty_with_uncles)
                },
                None => {
                    &&& !row_fits(
                        compact_difficulty(compact_target),
                        length,
                        (total_uncles - old(self).prev_total_uncles) as nat,
                    )
                    &&& *final(self) == *old(self)
                },
            },
    {
        match epoch_row(epoch_number, start, length, compact_target, total_uncles, self.prev_total_uncles) {
            Some(row) => {
                let t = TableRow {
                    row,
                    prev_epoch_difficulty: self.prev_epoch_difficulty,
                    prev_epoch_difficulty_with_uncles: self.prev_epoch_difficulty_with_uncles,
                };
                self.prev_epoch_difficulty = Some(row.epoch_difficulty);
                self.prev_epoch_difficulty_with_uncles = Some(row.epoch_difficulty_with_uncles);
                self.prev_total_uncles = total_uncles;
                Some(t)
            },
            None => None,
        }
    }
}

} // verus!
