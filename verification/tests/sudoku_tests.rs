use sudoku::board::load_sudoku;
use sudoku::board::Sudoku;
use sudoku::groups::get_indices;
use sudoku::masks::field_to_val;
use sudoku::masks::field_to_vals;
use sudoku::masks::val_to_field;
use sudoku::solver::solve_grid;
use sudoku::solver::solve_n;

fn grid_from_str(s: &str) -> Vec<u8> {
    assert_eq!(s.len(), 81);
    s.bytes().map(|b| b - b'0').collect()
}

/// Recomputes each group's candidate mask straight from the cells and checks
/// the stored masks and `candidates_at` against it.
fn check_masks_by_recomputation(s: &Sudoku) {
    let mut rows = [0x1FFu16; 9];
    let mut cols = [0x1FFu16; 9];
    let mut blocks = [0x1FFu16; 9];
    for i in 0..81 {
        let (b, c, r) = get_indices(i);
        rows[r] &= !s.cells[i];
        cols[c] &= !s.cells[i];
        blocks[b] &= !s.cells[i];
    }
    assert_eq!(rows, s.rows);
    assert_eq!(cols, s.cols);
    assert_eq!(blocks, s.blocks);
    for i in 0..81 {
        let (b, c, r) = get_indices(i);
        assert_eq!(s.candidates_at(i), blocks[b] & cols[c] & rows[r]);
    }
}

fn assert_valid_solution(givens: &[u8], out: &[u8]) {
    assert_eq!(out.len(), 81);
    for i in 0..81 {
        assert!(out[i] >= 1 && out[i] <= 9);
        if givens[i] != 0 {
            assert_eq!(out[i], givens[i]);
        }
    }
    for i in 0..81 {
        for j in 0..81 {
            if i == j {
                continue;
            }
            let (bi, ci, ri) = get_indices(i);
            let (bj, cj, rj) = get_indices(j);
            if bi == bj || ci == cj || ri == rj {
                assert_ne!(out[i], out[j], "duplicate digit at cells {i} and {j}");
            }
        }
    }
}

const PUZZLE: &str =
    "530070000600195000098000060800060003400803001700020006060000280000419005000080079";
const PUZZLE_SOLUTION: &str =
    "534678912672195348198342567859761423426853791713924856961537284287419635345286179";

#[test]
fn solves_known_puzzle_to_its_unique_solution() {
    let givens = grid_from_str(PUZZLE);
    let out = solve_grid(&givens).expect("puzzle is solvable");
    assert_eq!(out, grid_from_str(PUZZLE_SOLUTION));
}

#[test]
fn idempotent_load_gives_bit_identical_solutions() {
    let givens = grid_from_str(PUZZLE);
    let a = load_sudoku(&givens).unwrap();
    let b = load_sudoku(&givens).unwrap();
    let mut sa = a;
    let mut sb = b;
    assert!(sa.solve());
    assert!(sb.solve());
    assert_eq!(sa.cells, sb.cells);
    assert_eq!(sa.rows, sb.rows);
    assert_eq!(sa.cols, sb.cols);
    assert_eq!(sa.blocks, sb.blocks);
    assert_eq!(sa.remaining, sb.remaining);
    assert_eq!(solve_grid(&givens), solve_grid(&givens));
}

#[test]
fn masks_stay_derived_from_cells() {
    let givens = grid_from_str(PUZZLE);
    let mut s = load_sudoku(&givens).unwrap();
    check_masks_by_recomputation(&s);
    // pick an empty cell and a digit it still allows, place it, check, undo
    let mut cell = usize::MAX;
    for i in 0..81 {
        if s.cells[i] == 0 {
            cell = i;
            break;
        }
    }
    assert!(cell < 81);
    let cand = s.candidates_at(cell);
    assert!(cand != 0);
    let digit = field_to_vals(cand)[0];
    s.set_value(val_to_field(digit), cell);
    check_masks_by_recomputation(&s);
    s.clear_value(cell);
    check_masks_by_recomputation(&s);
}

#[test]
fn failed_search_restores_the_board_exactly() {
    // loads cleanly (no two seeds clash) yet cell 0 has no candidate left:
    // row 0 forces digit 1 there while column 0 already holds a 1
    let mut givens = vec![0u8; 81];
    for c in 1..9 {
        givens[c] = (c + 1) as u8;
    }
    givens[9] = 1;
    let mut s = load_sudoku(&givens).expect("seeds do not clash directly");
    let snapshot = s;
    assert!(!s.solve());
    assert_eq!(s.cells, snapshot.cells);
    assert_eq!(s.rows, snapshot.rows);
    assert_eq!(s.cols, snapshot.cols);
    assert_eq!(s.blocks, snapshot.blocks);
    assert_eq!(s.remaining, snapshot.remaining);
    assert_eq!(solve_grid(&givens), None);
    let repeated = solve_n(&snapshot, 2);
    assert_eq!(repeated.cells, snapshot.cells);
    assert_eq!(repeated.remaining, snapshot.remaining);
}

#[test]
fn solution_repeats_no_digit_in_any_group() {
    let givens = grid_from_str(PUZZLE);
    let out = solve_grid(&givens).expect("puzzle is solvable");
    assert_valid_solution(&givens, &out);
}

#[test]
fn empty_grid_still_completes() {
    let givens = vec![0u8; 81];
    let out = solve_grid(&givens).expect("empty grid is solvable");
    assert_valid_solution(&givens, &out);
}

#[test]
fn duplicate_digit_in_a_row_is_unsatisfiable() {
    let mut givens = vec![0u8; 81];
    givens[0] = 5;
    givens[3] = 5;
    assert!(load_sudoku(&givens).is_none());
    assert_eq!(solve_grid(&givens), None);
}

#[test]
fn out_of_range_seed_is_rejected() {
    let mut givens = vec![0u8; 81];
    givens[40] = 10;
    assert!(load_sudoku(&givens).is_none());
    assert_eq!(solve_grid(&givens), None);
}

#[test]
fn single_seed_survives_into_the_solution() {
    let mut givens = vec![0u8; 81];
    givens[0] = 5;
    let mut s = load_sudoku(&givens).unwrap();
    assert!(s.solve());
    assert_eq!(s.remaining, 0);
    assert_eq!(field_to_val(s.cells[0]), 5);
    let out = solve_grid(&givens).unwrap();
    assert_eq!(out[0], 5);
    assert_valid_solution(&givens, &out);
}

#[test]
fn solve_n_returns_a_solved_copy() {
    let givens = grid_from_str(PUZZLE);
    let initial = load_sudoku(&givens).unwrap();
    let s = solve_n(&initial, 3);
    assert_eq!(s.remaining, 0);
    assert_eq!(s.to_values(), grid_from_str(PUZZLE_SOLUTION));
    // the starting board is untouched: each run solves its own copy
    assert_eq!(initial.remaining, 81 - 30);
}

#[test]
fn back_out_moves_undoes_a_batch() {
    let givens = grid_from_str(PUZZLE);
    let mut s = load_sudoku(&givens).unwrap();
    let snapshot = s;
    let mut moves: Vec<usize> = Vec::new();
    for _ in 0..2 {
        let mut cell = usize::MAX;
        for i in 0..81 {
            if s.cells[i] == 0 {
                cell = i;
                break;
            }
        }
        let digit = field_to_vals(s.candidates_at(cell))[0];
        s.set_value(val_to_field(digit), cell);
        moves.push(cell);
    }
    assert_eq!(s.remaining, snapshot.remaining - 2);
    s.back_out_moves(moves);
    assert_eq!(s.cells, snapshot.cells);
    assert_eq!(s.remaining, snapshot.remaining);
}

#[test]
fn field_and_value_conversions_round_trip() {
    for d in 1..=9u8 {
        let m = val_to_field(d);
        assert_eq!(m, 1u16 << (d - 1));
        assert_eq!(field_to_val(m), d);
    }
    assert_eq!(field_to_val(0), 0);
}

#[test]
fn field_to_vals_lists_set_bits_in_order() {
    assert_eq!(field_to_vals(0), Vec::<u8>::new());
    assert_eq!(field_to_vals(0b101), vec![1, 3]);
    assert_eq!(field_to_vals(0x1FF), vec![1, 2, 3, 4, 5, 6, 7, 8, 9]);
    assert_eq!(field_to_vals(0b1_0000_0000), vec![9]);
}

#[test]
fn get_indices_maps_cells_to_their_groups() {
    assert_eq!(get_indices(0), (0, 0, 0));
    assert_eq!(get_indices(10), (0, 1, 1));
    assert_eq!(get_indices(40), (4, 4, 4));
    assert_eq!(get_indices(80), (8, 8, 8));
    // block layout follows row/3 + 3*(col/3)
    assert_eq!(get_indices(8), (6, 8, 0));
    assert_eq!(get_indices(72), (2, 0, 8));
}
