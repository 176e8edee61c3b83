use sudoku::board::Position;
use sudoku::board::Sudoku;
use sudoku::tile::SudokuTile;
use sudoku::util::get_range;

#[test]
fn empty_board_has_81_open_cells_and_no_committed_values() {
    let b = Sudoku::empty();
    assert_eq!(b.open_positions().len(), 81);
    let arr = b.to_array();
    assert_eq!(arr.len(), 81);
    for &v in arr.iter() {
        assert_eq!(v, -1);
    }
    assert!(!b.is_filled());
}

#[test]
fn committing_one_cell_removes_it_from_the_open_set() {
    let mut b = Sudoku::empty();
    b.commit(Position { row: 4, col: 4 }, SudokuTile::Seven);
    assert_eq!(b.open_positions().len(), 80);
    let arr = b.to_array();
    assert_eq!(arr[4 * 9 + 4], 7);
    for (i, &v) in arr.iter().enumerate() {
        if i != 4 * 9 + 4 {
            assert_eq!(v, -1);
        }
    }
}

#[test]
fn committing_propagates_to_row_column_and_box() {
    let mut b = Sudoku::empty();
    b.commit(Position { row: 0, col: 0 }, SudokuTile::Three);
    // a cell in the same row has lost the committed value
    let s = b.candidates_at(Position { row: 0, col: 8 });
    assert!(!s.contains(SudokuTile::Three));
    assert_eq!(s.count_members(), 8);
    // a cell in the same column too
    let s = b.candidates_at(Position { row: 8, col: 0 });
    assert!(!s.contains(SudokuTile::Three));
    // and a cell in the same box
    let s = b.candidates_at(Position { row: 1, col: 1 });
    assert!(!s.contains(SudokuTile::Three));
    // an unrelated cell still has all nine candidates
    let s = b.candidates_at(Position { row: 4, col: 4 });
    assert!(s.contains(SudokuTile::Three));
    assert_eq!(s.count_members(), 9);
}

#[test]
fn add_random_commits_exactly_one_cell_and_returns_its_tile() {
    let mut b = Sudoku::empty();
    let t = b.add_random().expect("an empty board has a legal move");
    assert_eq!(b.open_positions().len(), 80);
    let arr = b.to_array();
    let committed: Vec<i32> = arr.iter().copied().filter(|&v| v != -1).collect();
    assert_eq!(committed.len(), 1);
    // the one committed cell holds exactly the returned tile
    assert_eq!(committed[0], t.to_i32());
}

#[test]
fn add_least_entropy_returns_the_tile_it_commits() {
    let mut b = Sudoku::empty();
    let before = b.to_array();
    let t = b.add_least_entropy().expect("an empty board has a legal move");
    let after = b.to_array();
    let mut found = false;
    for i in 0..81 {
        if before[i] == -1 && after[i] != -1 {
            assert_eq!(after[i], t.to_i32());
            found = true;
        }
    }
    assert!(found);
}

#[test]
fn add_least_entropy_reports_board_full_when_nothing_is_open() {
    let seed: Vec<i32> = vec![
        5, 3, 4, 6, 7, 8, 9, 1, 2, //
        6, 7, 2, 1, 9, 5, 3, 4, 8, //
        1, 9, 8, 3, 4, 2, 5, 6, 7, //
        8, 5, 9, 7, 6, 1, 4, 2, 3, //
        4, 2, 6, 8, 5, 3, 7, 9, 1, //
        7, 1, 3, 9, 2, 4, 8, 5, 6, //
        9, 6, 1, 5, 3, 7, 2, 8, 4, //
        2, 8, 7, 4, 1, 9, 6, 3, 5, //
        3, 4, 5, 2, 8, 6, 1, 7, 9,
    ];
    let mut b = Sudoku::create_from_arr(&seed).expect("a full valid grid is a valid seed");
    assert!(b.is_filled());
    assert_eq!(b.add_least_entropy(), Err(sudoku::tile::SudokuError::BoardFull));
}

#[test]
fn snapshot_and_rebuild_reproduce_the_same_board() {
    let mut b = Sudoku::empty();
    b.commit(Position { row: 0, col: 0 }, SudokuTile::One);
    b.commit(Position { row: 3, col: 4 }, SudokuTile::Five);
    b.commit(Position { row: 8, col: 8 }, SudokuTile::Nine);
    let snapshot = b.get_board();
    let b2 = Sudoku::create_from_board(&snapshot).expect("a snapshot of a live board replays");
    assert_eq!(b.to_array(), b2.to_array());
    assert_eq!(b.open_positions().len(), b2.open_positions().len());
}

#[test]
fn create_from_arr_rejects_a_short_array() {
    let seed: Vec<i32> = vec![0; 80];
    assert!(Sudoku::create_from_arr(&seed).is_err());
}

#[test]
fn create_from_arr_ignores_out_of_range_entries() {
    let mut seed: Vec<i32> = vec![0; 81];
    seed[0] = 42;
    seed[1] = -7;
    seed[2] = 3;
    let b = Sudoku::create_from_arr(&seed).expect("out-of-range entries mean unset");
    let arr = b.to_array();
    assert_eq!(arr[0], -1);
    assert_eq!(arr[1], -1);
    assert_eq!(arr[2], 3);
}

#[test]
fn get_range_spans_the_band_of_its_index() {
    assert_eq!(get_range(0), 0..3);
    assert_eq!(get_range(2), 0..3);
    assert_eq!(get_range(3), 3..6);
    assert_eq!(get_range(5), 3..6);
    assert_eq!(get_range(6), 6..9);
    assert_eq!(get_range(8), 6..9);
}

#[test]
fn a_cell_reduced_to_one_candidate_is_committed_by_cascade() {
    let mut b = Sudoku::empty();
    // fill the first eight cells of row 0 with values 1 to 8: the ninth
    // cell is then forced to 9 and must be committed without a further call
    let tiles = [
        SudokuTile::One,
        SudokuTile::Two,
        SudokuTile::Three,
        SudokuTile::Four,
        SudokuTile::Five,
        SudokuTile::Six,
        SudokuTile::Seven,
        SudokuTile::Eight,
    ];
    for (col, &t) in tiles.iter().enumerate() {
        b.commit(Position { row: 0, col }, t);
    }
    let arr = b.to_array();
    assert_eq!(arr[8], 9);
    // no open cell anywhere is left holding exactly one candidate
    for &p in b.open_positions().iter() {
        let s = b.candidates_at(p);
        assert_ne!(s.count_members(), 1);
    }
}
