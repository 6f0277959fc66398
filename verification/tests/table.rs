use ascacou::transposition_table::TranspositionTable;
use ascacou::{Board, Move};

#[test]
fn a_table_answers_what_was_put_last() {
    let mut table: TranspositionTable<1000> = TranspositionTable::default();
    assert_eq!(table.get(5), None);
    table.insert(5, 42);
    assert_eq!(table.get(5), Some(42));
    table.insert(5, -7);
    assert_eq!(table.get(5), Some(-7));
    assert_eq!(table.get(6), None);
}

#[test]
fn a_table_keeps_one_key_for_each_slot() {
    let mut table: TranspositionTable<1000> = TranspositionTable::default();
    table.insert(5, 42);
    assert_eq!(table.get(1005), None);
    table.insert(1005, -3);
    assert_eq!(table.get(1005), Some(-3));
    assert_eq!(table.get(5), None);
}

#[test]
fn a_new_table_holds_the_key_zero() {
    let table: TranspositionTable<17> = TranspositionTable::default();
    assert_eq!(table.get(0), Some(0));
    assert_eq!(table.get(17), None);
    assert_eq!(table.get(1 << 60), Some(0));
}

#[test]
fn a_table_compares_the_low_56_bits_of_a_key() {
    let mut table: TranspositionTable<16> = TranspositionTable::default();
    let key: u64 = 0x0012_3456_789A_BCD0;
    table.insert(key, 9);
    assert_eq!(table.get(key), Some(9));
    assert_eq!(table.get(key | (1 << 56)), Some(9));
    assert_eq!(table.get(key ^ (1 << 55)), None);
    assert_eq!(table.get(key ^ (1 << 33)), None);
    assert_eq!(table.get(key ^ (1 << 4)), None);
}

#[test]
fn the_key_of_a_board_packs_its_cells() {
    assert_eq!(Board::empty().key(), 0);
    let board = Board::from_fen("b//// 01234567").unwrap();
    assert_eq!(board.key(), 1 | (1 << 25));
    let board = Board::from_fen("////4w 01234567").unwrap();
    assert_eq!(board.key(), 1 << 24);
    let board = Board::from_fen("1wbw/2b/1bb/5/5 01234567").unwrap();
    let pieces: u64 = 0b01110 | (0b00100 << 5) | (0b00110 << 10);
    let black: u64 = 0b00100 | (0b00100 << 5) | (0b00110 << 10);
    assert_eq!(board.key(), pieces | (black << 25));
    let after = board.next(&Move::white(3, 1)).unwrap();
    assert!(after.key() != board.key());
    assert!(after.key() < (1 << 50));
}
