use sudoku::candidates::CandidateSet;
use sudoku::tile::SudokuTile;
use sudoku::value::Value;

#[test]
fn a_full_candidate_set_holds_all_nine_values() {
    let s = CandidateSet::all();
    assert_eq!(s.count_members(), 9);
    assert!(s.contains(SudokuTile::One));
    assert!(s.contains(SudokuTile::Five));
    assert!(s.contains(SudokuTile::Nine));
}

#[test]
fn an_empty_candidate_set_holds_nothing() {
    let s = CandidateSet::empty();
    assert_eq!(s.count_members(), 0);
    assert!(!s.contains(SudokuTile::One));
    assert!(!s.contains(SudokuTile::Nine));
}

#[test]
fn removal_is_monotone_and_idempotent() {
    let s = CandidateSet::all();
    let s = s.remove(SudokuTile::Four);
    assert_eq!(s.count_members(), 8);
    assert!(!s.contains(SudokuTile::Four));
    assert!(s.contains(SudokuTile::Three));
    let s = s.remove(SudokuTile::Four);
    assert_eq!(s.count_members(), 8);
    let s = s.remove(SudokuTile::Nine);
    assert_eq!(s.count_members(), 7);
    assert!(!s.contains(SudokuTile::Nine));
}

#[test]
fn the_last_member_left_is_the_only_member() {
    let mut s = CandidateSet::all();
    for t in [
        SudokuTile::One,
        SudokuTile::Two,
        SudokuTile::Three,
        SudokuTile::Four,
        SudokuTile::Six,
        SudokuTile::Seven,
        SudokuTile::Eight,
        SudokuTile::Nine,
    ] {
        s = s.remove(t);
    }
    assert_eq!(s.count_members(), 1);
    assert_eq!(s.only_member(), SudokuTile::Five);
}

#[test]
fn nth_walks_the_members_in_index_order() {
    let s = CandidateSet::all().remove(SudokuTile::One).remove(SudokuTile::Three);
    assert_eq!(s.nth(0), SudokuTile::Two);
    assert_eq!(s.nth(1), SudokuTile::Four);
    assert_eq!(s.nth(6), SudokuTile::Nine);
}

#[test]
fn tiles_convert_to_and_from_their_numeric_codes() {
    for v in 1..=9 {
        let t = SudokuTile::from_i32(v).expect("codes 1 to 9 are tiles");
        assert_eq!(t.to_i32(), v);
    }
    assert_eq!(SudokuTile::from_i32(0), None);
    assert_eq!(SudokuTile::from_i32(10), None);
    assert_eq!(SudokuTile::from_i32(-3), None);
}

#[test]
fn get_box_groups_values_by_their_band() {
    assert_eq!(Value::get_box(Value::Two), [Value::One, Value::Two, Value::Three]);
    assert_eq!(Value::get_box(Value::Four), [Value::Four, Value::Five, Value::Six]);
    assert_eq!(Value::get_box(Value::Six), [Value::Four, Value::Five, Value::Six]);
    assert_eq!(Value::get_box(Value::Nine), [Value::Seven, Value::Eight, Value::Nine]);
}
