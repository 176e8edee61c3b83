use sudoku::generate::complete_sudoku;
use sudoku::generate::GenerateError;

fn assert_valid_grid(out: &[i32]) {
    assert_eq!(out.len(), 81);
    for &v in out.iter() {
        assert!((1..=9).contains(&v));
    }
    // every row, column, and box holds each value exactly once
    for r in 0..9 {
        let mut seen = [false; 10];
        for c in 0..9 {
            let v = out[r * 9 + c] as usize;
            assert!(!seen[v]);
            seen[v] = true;
        }
    }
    for c in 0..9 {
        let mut seen = [false; 10];
        for r in 0..9 {
            let v = out[r * 9 + c] as usize;
            assert!(!seen[v]);
            seen[v] = true;
        }
    }
    for br in 0..3 {
        for bc in 0..3 {
            let mut seen = [false; 10];
            for dr in 0..3 {
                for dc in 0..3 {
                    let v = out[(br * 3 + dr) * 9 + (bc * 3 + dc)] as usize;
                    assert!(!seen[v]);
                    seen[v] = true;
                }
            }
        }
    }
}

#[test]
fn canonical_puzzle_solves_to_known_solution() {
    let seed: Vec<i32> = vec![
        5, 3, 0, 0, 7, 0, 0, 0, 0, //
        6, 0, 0, 1, 9, 5, 0, 0, 0, //
        0, 9, 8, 0, 0, 0, 0, 6, 0, //
        8, 0, 0, 0, 6, 0, 0, 0, 3, //
        4, 0, 0, 8, 0, 3, 0, 0, 1, //
        7, 0, 0, 0, 2, 0, 0, 0, 6, //
        0, 6, 0, 0, 0, 0, 2, 8, 0, //
        0, 0, 0, 4, 1, 9, 0, 0, 5, //
        0, 0, 0, 0, 8, 0, 0, 7, 9,
    ];
    let expected: Vec<i32> = vec![
        5, 3, 4, 6, 7, 8, 9, 1, 2, //
        6, 7, 2, 1, 9, 5, 3, 4, 8, //
        1, 9, 8, 3, 4, 2, 5, 6, 7, //
        8, 5, 9, 7, 6, 1, 4, 2, 3, //
        4, 2, 6, 8, 5, 3, 7, 9, 1, //
        7, 1, 3, 9, 2, 4, 8, 5, 6, //
        9, 6, 1, 5, 3, 7, 2, 8, 4, //
        2, 8, 7, 4, 1, 9, 6, 3, 5, //
        3, 4, 5, 2, 8, 6, 1, 7, 9,
    ];
    let out = complete_sudoku(&seed).expect("the canonical puzzle must complete");
    assert_valid_grid(&out);
    // the seed values survive unchanged
    for i in 0..81 {
        if (1..=9).contains(&seed[i]) {
            assert_eq!(out[i], seed[i]);
        }
    }
    // the canonical puzzle has a unique solution
    assert_eq!(out, expected);
}

#[test]
fn contradictory_seed_fails_and_never_yields_a_board() {
    // two fives in the same row can never be completed
    let mut seed: Vec<i32> = vec![0; 81];
    seed[0] = 5;
    seed[3] = 5;
    match complete_sudoku(&seed) {
        Ok(_) => panic!("a contradictory seed must not produce a board"),
        Err(e) => assert_eq!(e, GenerateError::Timeout),
    }
}

#[test]
fn malformed_input_of_length_80_is_rejected_up_front() {
    let seed: Vec<i32> = vec![0; 80];
    assert_eq!(complete_sudoku(&seed), Err(GenerateError::InvalidInput));
}

#[test]
fn malformed_input_of_length_82_is_rejected_up_front() {
    let seed: Vec<i32> = vec![0; 82];
    assert_eq!(complete_sudoku(&seed), Err(GenerateError::InvalidInput));
}

#[test]
fn generation_from_an_empty_board_terminates() {
    let seed: Vec<i32> = vec![0; 81];
    match complete_sudoku(&seed) {
        Ok(out) => assert_valid_grid(&out),
        Err(e) => assert_eq!(e, GenerateError::Timeout),
    }
}

#[test]
fn a_full_valid_grid_completes_to_itself() {
    let seed: Vec<i32> = vec![
        5, 3, 4, 6, 7, 8, 9, 1, 2, //
        6, 7, 2, 1, 9, 5, 3, 4, 8, //
        1, 9, 8, 3, 4, 2, 5, 6, 7, //
        8, 5, 9, 7, 6, 1, 4, 2, 3, //
        4, 2, 6, 8, 5, 3, 7, 9, 1, //
        7, 1, 3, 9, 2, 4, 8, 5, 6, //
        9, 6, 1, 5, 3, 7, 2, 8, 4, //
        2, 8, 7, 4, 1, 9, 6, 3, 5, //
        3, 4, 5, 2, 8, 6, 1, 7, 9,
    ];
    let out = complete_sudoku(&seed).expect("a solved input is owed success");
    assert_eq!(out, seed);
}
