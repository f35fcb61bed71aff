//! The solving engine: propagate forced moves to a fixed point, then guess at
//! a cell with the fewest candidates and backtrack on failure. Success leaves
//! a completed grid extending the input; failure proves no completion exists
//! and restores the board exactly.

use vstd::prelude::*;
use crate::board::grid_valid;
use crate::board::load_sudoku;
use crate::board::loaded_cell;
use crate::board::seeds_consistent;
use crate::board::seeds_in_range;
use crate::board::Sudoku;
use crate::groups::get_indices;
use crate::groups::lemma_count_unsolved_none;
use crate::groups::block_cells;
use crate::groups::cell_block;
use crate::groups::cell_col;
use crate::groups::cell_row;
use crate::groups::col_cells;
use crate::groups::lemma_group_cells_in_range;
use crate::groups::lemma_mask_of_bit;
use crate::groups::lemma_mask_of_bounded;
use crate::groups::mask_of;
use crate::groups::row_cells;
use crate::groups::same_group;
use crate::masks::all_digits;
use crate::masks::digit_of;
use crate::masks::has_digit;
use crate::masks::is_digit_mask;
use crate::masks::count_candidates;
use crate::masks::field_to_vals;
use crate::masks::lemma_digit_mask_is_mask_for;
use crate::masks::lemma_digit_mask_round_trip;
use crate::masks::lemma_pop_count_one;
use crate::masks::lemma_pop_count_zero;
use crate::masks::mask_for;
use crate::masks::val_to_field;

verus! {

/// `sol` keeps every digit `base` already places.
pub open spec fn extends(base: Seq<u16>, sol: Seq<u16>) -> bool {
    forall|i: int| 0 <= i < 81 && #[trigger] base[i] != 0 ==> sol[i] == base[i]
}

/// `sol` completes `base`: a full, valid grid that keeps every solved cell of
/// `base`.
pub open spec fn is_solution_of(base: Seq<u16>, sol: Seq<u16>) -> bool {
    &&& grid_valid(sol)
    &&& forall|i: int| 0 <= i < 81 ==> #[trigger] sol[i] != 0
    &&& extends(base, sol)
}

/// Some completion of `base` exists.
pub open spec fn solvable(base: Seq<u16>) -> bool {
    exists|sol: Seq<u16>| is_solution_of(base, sol)
}

/// The two boards hold identical state, field for field.
pub open spec fn state_eq(a: Sudoku, b: Sudoku) -> bool {
    &&& a.cells@ == b.cells@
    &&& a.rows@ == b.rows@
    &&& a.cols@ == b.cols@
    &&& a.blocks@ == b.blocks@
    &&& a.remaining == b.remaining
}

/// A board's cells determine the rest of a well-formed board.
pub proof fn lemma_board_determined(a: Sudoku, b: Sudoku)
    requires
        a.wf(),
        b.wf(),
        a.cells@ == b.cells@,
    ensures
        state_eq(a, b),
{
    assert(a.rows@ =~= b.rows@);
    assert(a.cols@ =~= b.cols@);
    assert(a.blocks@ =~= b.blocks@);
}

/// A cell's candidate set stays within the nine digit bits.
pub proof fn lemma_candidates_bounded(s: Sudoku, i: int)
    requires
        s.wf(),
        0 <= i < 81,
    ensures
        s.spec_candidates(i) & all_digits() == s.spec_candidates(i),
        s.spec_candidates(i) < 0x200,
{
    lemma_mask_of_bounded(s.cells@, row_cells(cell_row(i)));
    lemma_mask_of_bounded(s.cells@, col_cells(cell_col(i)));
    lemma_mask_of_bounded(s.cells@, block_cells(cell_block(i)));
    let b = s.blocks@[cell_block(i)];
    let c = s.cols@[cell_col(i)];
    let r = s.rows@[cell_row(i)];
    assert(r & 0x1FF == r ==> ((b & c & r) & 0x1FF == (b & c & r)) && (b & c & r) < 0x200)
        by (bit_vector);
}

/// In any completion of a well-formed board, an unsolved cell only takes a
/// digit its three group masks still allow.
#[verifier::rlimit(100)]
#[verifier::spinoff_prover]
pub proof fn lemma_solution_within_candidates(s: Sudoku, sol: Seq<u16>, i: int)
    requires
        s.wf(),
        is_solution_of(s.cells@, sol),
        0 <= i < 81,
        s.cells@[i] == 0,
    ensures
        is_digit_mask(sol[i]),
        s.spec_candidates(i) & sol[i] == sol[i],
{
    let cells = s.cells@;
    let v = sol[i];
    assert(v != 0);
    assert(is_digit_mask(v));
    let r = cell_row(i);
    let c = cell_col(i);
    let b = cell_block(i);
    lemma_group_cells_in_range(r);
    lemma_group_cells_in_range(c);
    lemma_group_cells_in_range(b);
    lemma_mask_of_bit(cells, row_cells(r), v);
    lemma_mask_of_bit(cells, col_cells(c), v);
    lemma_mask_of_bit(cells, block_cells(b), v);
    assert forall|q: int| 0 <= q < 9 implies cells[#[trigger] row_cells(r)[q]] != v by {
        let j = row_cells(r)[q];
        if cells[j] == v {
            assert(cell_row(j) == r);
            assert(j != i);
            assert(sol[j] == v);
            assert(same_group(i, j));
        }
    }
    assert forall|q: int| 0 <= q < 9 implies cells[#[trigger] col_cells(c)[q]] != v by {
        let j = col_cells(c)[q];
        if cells[j] == v {
            assert(cell_col(j) == c);
            assert(j != i);
            assert(sol[j] == v);
            assert(same_group(i, j));
        }
    }
    assert forall|q: int| 0 <= q < 9 implies cells[#[trigger] block_cells(b)[q]] != v by {
        let j = block_cells(b)[q];
        if cells[j] == v {
            crate::groups::lemma_block_cells(b, j);
            assert(j != i);
            assert(sol[j] == v);
            assert(same_group(i, j));
        }
    }
    let bm = s.blocks@[b];
    let cm = s.cols@[c];
    let rm = s.rows@[r];
    assert(rm & v == v);
    assert(cm & v == v);
    assert(bm & v == v);
    assert((rm & v == v && cm & v == v && bm & v == v) ==> (bm & cm & rm) & v == v)
        by (bit_vector);
}

/// A cell with an empty candidate set admits no completion.
pub proof fn lemma_empty_candidates_unsolvable(s: Sudoku, i: int)
    requires
        s.wf(),
        0 <= i < 81,
        s.cells@[i] == 0,
        s.spec_candidates(i) == 0,
    ensures
        !solvable(s.cells@),
{
    if solvable(s.cells@) {
        let sol = choose|sol: Seq<u16>| is_solution_of(s.cells@, sol);
        lemma_solution_within_candidates(s, sol, i);
        let v = sol[i];
        assert(0u16 & v == 0) by (bit_vector);
    }
}

/// Filling an empty cell with its one open digit changes nothing about
/// whether the board can be completed.
pub proof fn lemma_forced_keeps_solvable(s: Sudoku, i: int, v: u16)
    requires
        s.wf(),
        0 <= i < 81,
        s.cells@[i] == 0,
        is_digit_mask(v),
        s.spec_candidates(i) == v,
    ensures
        solvable(s.cells@) <==> solvable(s.cells@.update(i, v)),
{
    let base = s.cells@;
    let upd = base.update(i, v);
    if solvable(base) {
        let sol = choose|sol: Seq<u16>| is_solution_of(base, sol);
        lemma_solution_within_candidates(s, sol, i);
        let w = sol[i];
        assert((is_digit_mask(w) && is_digit_mask(v) && v & w == w) ==> w == v) by (bit_vector);
        assert(is_solution_of(upd, sol));
    }
    if solvable(upd) {
        lemma_solution_back(base, i, v);
    }
}

/// A completion of a board with one more cell filled also completes the
/// board without it.
pub proof fn lemma_solution_back(base: Seq<u16>, i: int, v: u16)
    requires
        base.len() == 81,
        0 <= i < 81,
        base[i] == 0,
        solvable(base.update(i, v)),
    ensures
        solvable(base),
{
    let upd = base.update(i, v);
    let sol = choose|sol: Seq<u16>| is_solution_of(upd, sol);
    assert forall|j: int| 0 <= j < 81 && #[trigger] base[j] != 0 implies sol[j] == base[j] by {
        assert(upd[j] == base[j]);
    }
    assert(is_solution_of(base, sol));
}

/// If every digit a cell's candidate set still offers leads to an
/// uncompletable board, the board itself admits no completion.
pub proof fn lemma_no_guess_no_solution(s: Sudoku, i: int)
    requires
        s.wf(),
        0 <= i < 81,
        s.cells@[i] == 0,
        forall|d: u8|
            1 <= d <= 9 && has_digit(s.spec_candidates(i), d) ==> !solvable(
                s.cells@.update(i, mask_for(d)),
            ),
    ensures
        !solvable(s.cells@),
{
    if solvable(s.cells@) {
        let sol = choose|sol: Seq<u16>| is_solution_of(s.cells@, sol);
        lemma_solution_within_candidates(s, sol, i);
        let v = sol[i];
        lemma_digit_mask_is_mask_for(v);
        let d = digit_of(v);
        assert(mask_for(d) == v);
        assert(v != 0);
        assert(has_digit(s.spec_candidates(i), d));
        assert(is_solution_of(s.cells@.update(i, v), sol));
        assert(!solvable(s.cells@.update(i, mask_for(d))));
    }
}

impl Sudoku {
    /// Solves the board in place. Returns `true` exactly when some completion
    /// of the input exists; the board then holds one. On `false` the board is
    /// restored to the input, bit for bit.
    #[verifier::rlimit(100)]
    #[verifier::loop_isolation(false)]
    pub fn solve(&mut self) -> (r: bool)
        requires
            old(self).wf(),
        ensures
            final(self).wf(),
            r <==> solvable(old(self).cells@),
            r ==> final(self).remaining == 0 && is_solution_of(
                old(self).cells@,
                final(self).cells@,
            ),
            !r ==> state_eq(*final(self), *old(self)),
        decreases old(self).remaining,
    {
        let ghost pre = *self;
        // Forced moves made by this call, in order, for rollback on failure.
        let mut eager_moves: Vec<usize> = Vec::new();
        loop
            invariant
                self.wf(),
                pre.wf(),
                self.remaining <= pre.remaining,
                solvable(pre.cells@) <==> solvable(self.cells@),
                forall|m: int|
                    0 <= m < eager_moves@.len() ==> #[trigger] eager_moves@[m] < 81
                        && pre.cells@[eager_moves@[m] as int] == 0
                        && self.cells@[eager_moves@[m] as int] != 0,
                forall|m1: int, m2: int|
                    0 <= m1 < m2 < eager_moves@.len() ==> eager_moves@[m1] != eager_moves@[m2],
                forall|i: int|
                    0 <= i < 81 && !eager_moves@.contains(i as usize) ==> self.cells@[i]
                        == #[trigger] pre.cells@[i],
            decreases self.remaining,
        {
            let ghost pass0 = *self;
            let mut solved_count: usize = 0;
            let mut lowest_space: usize = 0;
            let mut lowest_count: u32 = u32::MAX;
            let mut lowest_possibles: u16 = 0;
            let mut i: usize = 0;
            while i < 81
                invariant
                    self.wf(),
                    pre.wf(),
                    i <= 81,
                    solved_count <= i,
                    self.remaining + solved_count == pass0.remaining,
                    self.remaining <= pre.remaining,
                    solvable(pre.cells@) <==> solvable(self.cells@),
                    forall|m: int|
                        0 <= m < eager_moves@.len() ==> #[trigger] eager_moves@[m] < 81
                            && pre.cells@[eager_moves@[m] as int] == 0
                            && self.cells@[eager_moves@[m] as int] != 0,
                    forall|m1: int, m2: int|
                        0 <= m1 < m2 < eager_moves@.len() ==> eager_moves@[m1] != eager_moves@[m2],
                    forall|j: int|
                        0 <= j < 81 && !eager_moves@.contains(j as usize) ==> self.cells@[j]
                            == #[trigger] pre.cells@[j],
                    solved_count == 0 ==> state_eq(*self, pass0),
                    lowest_space < 81,
                    solved_count == 0 && lowest_count != u32::MAX ==> self.cells@[lowest_space as int]
                        == 0 && lowest_possibles == self.spec_candidates(lowest_space as int)
                        && lowest_possibles != 0,
                    solved_count == 0 && lowest_count == u32::MAX ==> forall|j: int|
                        0 <= j < i ==> #[trigger] self.cells@[j] != 0,
                decreases 81 - i,
            {
                if self.cells[i] == 0 {
                    let (b, c, r) = get_indices(i);
                    let possibles = self.blocks[b] & self.cols[c] & self.rows[r];
                    let count = count_candidates(possibles);
                    proof {
                        lemma_candidates_bounded(*self, i as int);
                        crate::masks::lemma_pop_count_bound(possibles);
                    }
                    if count == 1 {
                        let ghost before = *self;
                        proof {
                            lemma_pop_count_one(possibles);
                            let rm = self.rows@[cell_row(i as int)];
                            let cm = self.cols@[cell_col(i as int)];
                            let bm = self.blocks@[cell_block(i as int)];
                            assert(bm & cm & rm == possibles ==> (rm & possibles == possibles && cm
                                & possibles == possibles && bm & possibles == possibles))
                                by (bit_vector);
                            lemma_forced_keeps_solvable(*self, i as int, possibles);
                            if eager_moves@.contains(i) {
                                let m = choose|m: int|
                                    0 <= m < eager_moves@.len() && eager_moves@[m] == i;
                                assert(self.cells@[eager_moves@[m] as int] != 0);
                            }
                            assert(pre.cells@[i as int] == 0);
                        }
                        self.set_value(possibles, i);
                        solved_count = solved_count + 1;
                        eager_moves.push(i);
                        proof {
                            broadcast use vstd::seq_lib::lemma_seq_contains_after_push;

                            assert(eager_moves@[eager_moves@.len() - 1] == i);
                            assert forall|j: int|
                                0 <= j < 81 && !eager_moves@.contains(j as usize) implies self.cells@[j]
                                == pre.cells@[j] by {
                                assert(j != i as int);
                                assert(self.cells@[j] == before.cells@[j]);
                            }
                        }
                    } else if count == 0 {
                        proof {
                            lemma_pop_count_zero(possibles);
                            lemma_empty_candidates_unsolvable(*self, i as int);
                        }
                        self.back_out_moves(eager_moves);
                        proof {
                            assert(self.cells@ =~= pre.cells@);
                            lemma_board_determined(*self, pre);
                        }
                        return false;
                    } else {
                        if count < lowest_count {
                            lowest_count = count;
                            lowest_space = i;
                            lowest_possibles = possibles;
                        }
                    }
                }
                i = i + 1;
            }
            if solved_count != 0 {
                // new forced moves may expose further naked singles: scan again
                continue;
            }
            if self.remaining == 0 {
                proof {
                    lemma_count_unsolved_none(self.cells@);
                    assert forall|j: int|
                        0 <= j < 81 && #[trigger] pre.cells@[j] != 0 implies self.cells@[j]
                        == pre.cells@[j] by {
                        if eager_moves@.contains(j as usize) {
                            let m = choose|m: int|
                                0 <= m < eager_moves@.len() && eager_moves@[m] == j as usize;
                            assert(pre.cells@[eager_moves@[m] as int] == 0);
                        }
                    }
                    assert(is_solution_of(pre.cells@, self.cells@));
                }
                return true;
            }
            proof {
                lemma_count_unsolved_none(self.cells@);
                if lowest_count == u32::MAX {
                    assert(forall|j: int| 0 <= j < 81 ==> #[trigger] self.cells@[j] != 0);
                    assert(false);
                }
                lemma_candidates_bounded(*self, lowest_space as int);
            }
            let possibles_list = field_to_vals(lowest_possibles);
            let ghost cur = *self;
            let ghost ls = lowest_space as int;
            let mut gi: usize = 0;
            while gi < possibles_list.len()
                invariant
                    self.wf(),
                    pre.wf(),
                    cur.wf(),
                    state_eq(*self, cur),
                    lowest_space < 81,
                    ls == lowest_space as int,
                    cur.cells@[ls] == 0,
                    lowest_possibles == cur.spec_candidates(ls),
                    lowest_possibles & all_digits() == lowest_possibles,
                    cur.remaining <= pre.remaining,
                    solvable(pre.cells@) <==> solvable(cur.cells@),
                    forall|m: int|
                        0 <= m < eager_moves@.len() ==> #[trigger] eager_moves@[m] < 81
                            && pre.cells@[eager_moves@[m] as int] == 0
                            && cur.cells@[eager_moves@[m] as int] != 0,
                    forall|m1: int, m2: int|
                        0 <= m1 < m2 < eager_moves@.len() ==> eager_moves@[m1] != eager_moves@[m2],
                    forall|j: int|
                        0 <= j < 81 && !eager_moves@.contains(j as usize) ==> cur.cells@[j]
                            == #[trigger] pre.cells@[j],
                    gi <= possibles_list@.len(),
                    forall|n: int|
                        0 <= n < possibles_list@.len() ==> 1 <= #[trigger] possibles_list@[n] <= 9
                            && has_digit(lowest_possibles, possibles_list@[n]),
                    forall|d: u8|
                        1 <= d <= 9 && has_digit(lowest_possibles, d) ==> possibles_list@.contains(
                            d,
                        ),
                    forall|m: int|
                        0 <= m < gi ==> !solvable(
                            cur.cells@.update(ls, mask_for(#[trigger] possibles_list@[m])),
                        ),
                decreases possibles_list@.len() - gi,
            {
                let guess_digit = possibles_list[gi];
                proof {
                    lemma_digit_mask_round_trip(guess_digit);
                    let gmask = mask_for(guess_digit);
                    let x = lowest_possibles;
                    assert(is_digit_mask(gmask) && x & gmask != 0 ==> x & gmask == gmask)
                        by (bit_vector);
                    let rm = self.rows@[cell_row(ls)];
                    let cm = self.cols@[cell_col(ls)];
                    let bm = self.blocks@[cell_block(ls)];
                    assert((bm & cm & rm == x && x & gmask == gmask) ==> (rm & gmask == gmask && cm
                        & gmask == gmask && bm & gmask == gmask)) by (bit_vector);
                }
                let gm = val_to_field(guess_digit);
                self.set_value(gm, lowest_space);
                let ghost mid = *self;
                if self.solve() {
                    proof {
                        assert forall|j: int|
                            0 <= j < 81 && #[trigger] pre.cells@[j] != 0 implies self.cells@[j]
                            == pre.cells@[j] by {
                            if eager_moves@.contains(j as usize) {
                                let m = choose|m: int|
                                    0 <= m < eager_moves@.len() && eager_moves@[m] == j as usize;
                                assert(pre.cells@[eager_moves@[m] as int] == 0);
                            }
                            assert(cur.cells@[j] == pre.cells@[j]);
                            assert(j != ls);
                            assert(mid.cells@[j] == pre.cells@[j]);
                        }
                        assert(is_solution_of(pre.cells@, self.cells@));
                    }
                    return true;
                }
                self.clear_value(lowest_space);
                proof {
                    assert(self.cells@ =~= cur.cells@);
                    lemma_board_determined(*self, cur);
                    assert(mid.cells@ == cur.cells@.update(ls, mask_for(guess_digit)));
                }
                gi = gi + 1;
            }
            proof {
                assert forall|d: u8|
                    1 <= d <= 9 && has_digit(cur.spec_candidates(ls), d) implies !solvable(
                    cur.cells@.update(ls, mask_for(d)),
                ) by {
                    assert(possibles_list@.contains(d));
                    let m = choose|m: int|
                        0 <= m < possibles_list@.len() && possibles_list@[m] == d;
                    assert(!solvable(cur.cells@.update(ls, mask_for(possibles_list@[m]))));
                }
                lemma_no_guess_no_solution(cur, ls);
            }
            self.back_out_moves(eager_moves);
            proof {
                assert(self.cells@ =~= pre.cells@);
                lemma_board_determined(*self, pre);
            }
            return false;
        }
    }
}

/// Solves independent copies of one starting board over and over (at least
/// once, `n` times when `n > 1`) and returns the last result.
pub fn solve_n(initial: &Sudoku, n: usize) -> (r: Sudoku)
    requires
        initial.wf(),
    ensures
        r.wf(),
        solvable(initial.cells@) ==> r.remaining == 0 && is_solution_of(initial.cells@, r.cells@),
        !solvable(initial.cells@) ==> state_eq(r, *initial),
{
    let mut s = *initial;
    s.solve();
    let mut k: usize = 1;
    while k < n
        invariant
            initial.wf(),
            s.wf(),
            solvable(initial.cells@) ==> s.remaining == 0 && is_solution_of(
                initial.cells@,
                s.cells@,
            ),
            !solvable(initial.cells@) ==> state_eq(s, *initial),
        decreases n - k,
    {
        s = *initial;
        s.solve();
        k = k + 1;
    }
    s
}

/// The cell masks 81 seed values load.
pub open spec fn loaded_cells(vals: Seq<u8>) -> Seq<u16> {
    Seq::new(81, |i: int| loaded_cell(vals[i]))
}

/// A full assignment of digits 1..=9 to all 81 cells.
pub open spec fn values_complete(out: Seq<u8>) -> bool {
    out.len() == 81 && forall|i: int| 0 <= i < 81 ==> 1 <= #[trigger] out[i] <= 9
}

/// No row, column or block repeats a digit.
pub open spec fn values_consistent(out: Seq<u8>) -> bool {
    forall|i: int, j: int|
        #![trigger out[i], out[j]]
        0 <= i < 81 && 0 <= j < 81 && i != j && same_group(i, j) ==> out[i] != out[j]
}

/// Every given digit of the input reappears unchanged.
pub open spec fn values_extend(vals: Seq<u8>, out: Seq<u8>) -> bool {
    forall|i: int| 0 <= i < 81 && #[trigger] vals[i] != 0 ==> out[i] == vals[i]
}

/// Loads 81 seed values (0 = unknown), solves, and reads the finished grid
/// back as digits. `None` exactly when a seed is out of range, two seeds
/// clash, or the puzzle has no completion.
pub fn solve_grid(values: &Vec<u8>) -> (r: Option<Vec<u8>>)
    requires
        values@.len() == 81,
    ensures
        r is Some <==> seeds_in_range(values@) && seeds_consistent(values@) && solvable(
            loaded_cells(values@),
        ),
        r matches Some(out) ==> values_complete(out@) && values_consistent(out@) && values_extend(
            values@,
            out@,
        ),
{
    let loaded = load_sudoku(values);
    match loaded {
        None => None,
        Some(mut s) => {
            proof {
                assert(s.cells@ =~= loaded_cells(values@));
            }
            if s.solve() {
                let out = s.to_values();
                proof {
                    let sol = s.cells@;
                    assert forall|i: int| 0 <= i < 81 implies 1 <= #[trigger] out@[i] <= 9 by {
                        assert(sol[i] != 0);
                        lemma_digit_mask_is_mask_for(sol[i]);
                    }
                    assert forall|i: int, j: int|
                        #![trigger out@[i], out@[j]]
                        0 <= i < 81 && 0 <= j < 81 && i != j && same_group(i, j) implies out@[i]
                        != out@[j] by {
                        assert(sol[i] != 0 && sol[j] != 0);
                        assert(sol[i] != sol[j]);
                        lemma_digit_mask_is_mask_for(sol[i]);
                        lemma_digit_mask_is_mask_for(sol[j]);
                    }
                    assert forall|i: int|
                        0 <= i < 81 && #[trigger] values@[i] != 0 implies out@[i] == values@[i] by {
                        crate::masks::lemma_digit_mask_round_trip(values@[i]);
                        assert(loaded_cells(values@)[i] == mask_for(values@[i]));
                        assert(sol[i] == mask_for(values@[i]));
                    }
                }
                Some(out)
            } else {
                None
            }
        },
    }
}

} // verus!
