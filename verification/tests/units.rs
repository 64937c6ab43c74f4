//! Unit-level behavior: index and digit factories, the peer masks, the
//! elimination primitive, and the bitmask work queue.

use sudoku::CellIndex;
use sudoku::FlatIndex;
use sudoku::SudokuValue;
use sudoku::indices::Indices;
use sudoku::indices::QuadrantIndex;
use sudoku::indices::get_quad_offset;
use sudoku::masks::comp_rem_mask;
use sudoku::masks::find_missing_index_mask;
use sudoku::masks::generate_mask;
use sudoku::solver_full_loop::check_set1;
use sudoku::solver_full_loop::seek_quad_single_value;
use sudoku::work_queue::BitMaskWorkQueue;
use sudoku::work_queue::WorkQueue;

fn fi(i: u8) -> FlatIndex {
    FlatIndex::new(i).unwrap()
}

#[test]
fn test_bitmask_wq() {
    let mut wq = BitMaskWorkQueue::new();
    let mut values = [0u8, 3, 24, 66, 26, 80, 1, 42, 33].map(|v| fi(v));
    let mut popped = Vec::new();
    for v in values {
        wq.push(v);
    }
    while let Some(v) = wq.pop() {
        popped.push(v);
    }
    for _ in 0..1000 {
        assert!(wq.pop().is_none());
    }
    values.sort_by_key(|v| v.as_idx());
    popped.sort_by_key(|v| v.as_idx());
    assert_eq!(values.as_slice(), popped.as_slice());
}

#[test]
fn index_factories_validate_their_range() {
    assert!(FlatIndex::new(80).is_some());
    assert!(FlatIndex::new(81).is_none());
    assert!(CellIndex::new(8).is_some());
    assert!(CellIndex::new(9).is_none());
    assert_eq!(fi(47).get(), 47);
    assert_eq!(fi(47).as_idx(), 47);
}

#[test]
fn value_factories_validate_their_range() {
    assert!(SudokuValue::new_1based(0).is_none());
    assert!(SudokuValue::new_1based(10).is_none());
    assert!(SudokuValue::new_0based(9).is_none());
    let v = SudokuValue::new_1based(9).unwrap();
    assert_eq!(v.get_0based(), 8);
    assert_eq!(v.get_1based(), 9);
    assert_eq!(v.as_0based_idx(), 8);
    assert_eq!(v.as_mask_0based(), 0b1_0000_0000);
    let w = SudokuValue::new_0based(0).unwrap();
    assert_eq!(w.get_1based(), 1);
    assert_eq!(w.as_mask_0based(), 1);
}

#[test]
fn quad_offsets_are_the_top_left_cells() {
    let mut offsets = Vec::new();
    for r in 0..3 {
        for c in 0..3 {
            let q = Indices {
                row: QuadrantIndex::new(r).unwrap(),
                column: QuadrantIndex::new(c).unwrap(),
            };
            offsets.push(get_quad_offset(q).get());
        }
    }
    assert_eq!(offsets, vec![0, 3, 6, 27, 30, 33, 54, 57, 60]);
}

/// Peer-mask symmetry on every pair of cells: `j` is a peer of `i`
/// exactly when `i` is a peer of `j`, and no cell is its own peer.
#[test]
fn peer_masks_are_symmetric_and_irreflexive() {
    let masks: Vec<u128> = (0..81).map(|i| generate_mask(fi(i))).collect();
    for i in 0..81 {
        assert_eq!((masks[i] >> i) & 1, 0);
        assert_eq!(masks[i].count_ones(), 20);
        for j in 0..81 {
            assert_eq!((masks[i] >> j) & 1, (masks[j] >> i) & 1);
        }
    }
}

#[test]
fn peer_mask_of_corner_cell() {
    // cell 0 sees its row, its column and the rest of its quadrant
    let m = generate_mask(fi(0));
    for j in [1, 2, 3, 4, 5, 6, 7, 8, 9, 18, 27, 36, 45, 54, 63, 72, 10, 11, 19, 20] {
        assert_eq!((m >> j) & 1, 1, "cell {j} must be a peer of cell 0");
    }
    assert_eq!(m.count_ones(), 20);
}

/// Elimination idempotence on a concrete board: the second identical
/// sweep changes no mask and enqueues nothing.
#[test]
fn eliminate_twice_changes_nothing_the_second_time() {
    let mut board: Vec<u16> = vec![0b1_1111_1111; 81];
    let mut wq = BitMaskWorkQueue::new();
    let v = SudokuValue::new_0based(4).unwrap();
    check_set1(&mut board, fi(40), v, &mut wq);
    let board_after_first = board.clone();
    let queue_after_first = wq.0;
    check_set1(&mut board, fi(40), v, &mut wq);
    assert_eq!(board, board_after_first);
    assert_eq!(wq.0, queue_after_first);
}

/// Monotonic shrink on concrete boards: neither the elimination sweep nor
/// the quadrant search ever adds a candidate bit.
#[test]
fn masks_never_gain_bits() {
    let mut board: Vec<u16> = (0..81).map(|i| 0b1_1111_1111 ^ (1 << (i % 9))).collect();
    let before = board.clone();
    let mut wq = BitMaskWorkQueue::new();
    check_set1(&mut board, fi(13), SudokuValue::new_0based(7).unwrap(), &mut wq);
    for j in 0..81 {
        assert_eq!(board[j] & !before[j], 0);
    }
    let before = board.clone();
    seek_quad_single_value(&mut board, &mut wq);
    for j in 0..81 {
        assert_eq!(board[j] & !before[j], 0);
    }
}

#[test]
fn elimination_reports_fresh_singletons() {
    let mut board: Vec<u16> = vec![0b1_1111_1111; 81];
    // cell 1 is down to the digits {3, 5}; eliminating 5 around cell 0
    // leaves it a singleton and pending
    board[1] = 0b0_0010_1000;
    let mut wq = BitMaskWorkQueue::new();
    check_set1(&mut board, fi(0), SudokuValue::new_0based(5).unwrap(), &mut wq);
    assert_eq!(board[1], 0b0_0000_1000);
    assert_eq!(wq.pop().map(|i| i.get()), Some(1));
    assert!(wq.pop().is_none());
}

#[test]
fn quadrant_search_finds_a_hidden_single() {
    // in the first quadrant, digit 0 remains possible only at cell 0,
    // though cell 0 itself still shows three candidates
    let mut board: Vec<u16> = vec![0b1_1111_1111; 81];
    for &j in &[1, 2, 9, 10, 11, 18, 19, 20] {
        board[j] = 0b1_1111_1110;
    }
    board[0] = 0b0_0000_0111;
    let mut wq = BitMaskWorkQueue::new();
    let progressed = seek_quad_single_value(&mut board, &mut wq);
    assert!(progressed);
    assert_eq!(board[0], 1);
    assert_eq!(wq.pop().map(|i| i.get()), Some(0));
}

#[test]
fn quadrant_search_reports_no_progress_on_fresh_board() {
    let mut board: Vec<u16> = vec![0b1_1111_1111; 81];
    let mut wq = BitMaskWorkQueue::new();
    let progressed = seek_quad_single_value(&mut board, &mut wq);
    assert!(!progressed);
    assert!(wq.pop().is_none());
    assert!(board.iter().all(|&m| m == 0b1_1111_1111));
}

#[test]
fn rem_mask_clears_one_digit() {
    assert_eq!(comp_rem_mask(0), !1);
    assert_eq!(comp_rem_mask(4), !(1 << 4));
    assert_eq!(comp_rem_mask(8) & 0x1FF, 0b0_1111_1111);
}

#[test]
fn missing_index_mask_drops_the_crossing_point() {
    let idx = Indices { row: CellIndex::new(2).unwrap(), column: CellIndex::new(6).unwrap() };
    let m = find_missing_index_mask(idx);
    // low nine bits: every column of the row but column 6
    assert_eq!(m & 0x1FF, 0b1_1011_1111);
    // next nine bits: every row of the column but row 2
    assert_eq!((m >> 9) & 0x1FF, 0b1_1111_1011);
    assert_eq!(m >> 18, 0);
}
