use ckb::list_epochs::{end_block_number, epoch_row, epoch_row_with_difficulty, EpochTable, ExitCode, Statics};

#[test]
fn build_defaults_and_rejects_reversed_range() {
    assert_eq!(Statics::build(None, None, 42), Ok(Statics { from: 0, to: 42 }));
    assert_eq!(Statics::build(Some(3), None, 42), Ok(Statics { from: 3, to: 42 }));
    assert_eq!(Statics::build(None, Some(7), 42), Ok(Statics { from: 0, to: 7 }));
    assert_eq!(Statics::build(Some(5), Some(5), 42), Ok(Statics { from: 5, to: 5 }));
    assert_eq!(Statics::build(Some(6), Some(5), 42), Err(ExitCode::Cli));
    assert_eq!(Statics::build(Some(50), None, 42), Err(ExitCode::Cli));
}

#[test]
fn end_block() {
    assert_eq!(end_block_number(0, 1000), 999);
    assert_eq!(end_block_number(1000, 1), 1000);
}

#[test]
fn row_from_compact_target() {
    // 0x2080_0000 is the minimal compact target, difficulty 2.
    let row = epoch_row(4, 1000, 10, 0x2080_0000, 13, 10).unwrap();
    assert_eq!(row.end_block_number, 1009);
    assert_eq!(row.uncles_number, 3);
    assert_eq!(row.block_difficulty, [2, 0, 0, 0]);
    assert_eq!(row.epoch_difficulty, [20, 0, 0, 0]);
    assert_eq!(row.epoch_difficulty_with_uncles, [26, 0, 0, 0]);
}

#[test]
fn row_with_carry() {
    let row = epoch_row_with_difficulty(0, 0, 2, 0, 1, 0, [u64::MAX, 0, 0, 0]).unwrap();
    assert_eq!(row.epoch_difficulty, [u64::MAX - 1, 1, 0, 0]);
    assert_eq!(row.epoch_difficulty_with_uncles, [u64::MAX - 2, 2, 0, 0]);
}

#[test]
fn row_overflow() {
    assert!(epoch_row_with_difficulty(0, 0, 2, 0, 0, 0, [0, 0, 0, 1 << 63]).is_none());
    assert!(epoch_row_with_difficulty(0, 0, 1, 0, 1, 0, [0, 0, 0, 1 << 63]).is_none());
    assert!(epoch_row_with_difficulty(0, 0, 1, 0, 0, 0, [0, 0, 0, 1 << 63]).is_some());
}

#[test]
fn compact_difficulty_edges() {
    let d = |compact: u32| epoch_row(0, 0, 1, compact, 0, 0).unwrap().block_difficulty;
    assert_eq!(d(0x0300_0001), [u64::MAX; 4]);
    assert_eq!(d(0x0200_0100), [u64::MAX; 4]);
    assert_eq!(d(0x0300_0002), [0, 0, 0, 1 << 63]);
    assert_eq!(d(0x0300_0000), [0; 4]);
    assert_eq!(d(0x0200_00ff), [0; 4]);
    assert_eq!(d(0x2100_0001), [0; 4]);
    assert_eq!(d(0x2000_0001), [1 << 24, 0, 0, 0]);
}

#[test]
fn table_carries_previous_row() {
    let mut table = EpochTable::new(5);
    assert_eq!(table.prev_total_uncles, 5);
    assert!(table.prev_epoch_difficulty.is_none());
    let first = table.next_row(0, 0, 10, 0x2080_0000, 8).unwrap();
    assert_eq!(first.row.uncles_number, 3);
    assert_eq!(first.row.epoch_difficulty, [20, 0, 0, 0]);
    assert_eq!(first.row.epoch_difficulty_with_uncles, [26, 0, 0, 0]);
    assert!(first.prev_epoch_difficulty.is_none());
    assert!(first.prev_epoch_difficulty_with_uncles.is_none());
    assert_eq!(table.prev_total_uncles, 8);
    let second = table.next_row(1, 10, 4, 0x2080_0000, 9).unwrap();
    assert_eq!(second.row.uncles_number, 1);
    assert_eq!(second.row.epoch_difficulty, [8, 0, 0, 0]);
    assert_eq!(second.prev_epoch_difficulty, Some([20, 0, 0, 0]));
    assert_eq!(second.prev_epoch_difficulty_with_uncles, Some([26, 0, 0, 0]));
    assert_eq!(table.prev_epoch_difficulty, Some([8, 0, 0, 0]));
    assert_eq!(table.prev_epoch_difficulty_with_uncles, Some([10, 0, 0, 0]));
}
