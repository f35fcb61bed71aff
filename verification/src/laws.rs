//! Facts the library guarantees beyond the individual function contracts:
//! solutions repeat no digit within a group, grids with clashing seeds are
//! rejected, and the empty grid always has a completion.

use vstd::prelude::*;
use crate::board::loaded_cell;
use crate::board::seeds_consistent;
use crate::board::Sudoku;
use crate::groups::block_cells;
use crate::groups::cell_block;
use crate::groups::cell_col;
use crate::groups::cell_row;
use crate::groups::col_cells;
use crate::groups::mask_of;
use crate::groups::row_cells;
use crate::groups::same_group;
use crate::masks::lemma_digit_mask_round_trip;
use crate::masks::mask_for;
use crate::solver::is_solution_of;
use crate::solver::solvable;

verus! {

/// A produced solution never places one digit twice in a row, column or 3x3
/// block: uniqueness is built into what counts as a solution.
pub proof fn lemma_solution_no_duplicates(base: Seq<u16>, sol: Seq<u16>, i: int, j: int)
    requires
        is_solution_of(base, sol),
        0 <= i < 81,
        0 <= j < 81,
        i != j,
        same_group(i, j),
    ensures
        sol[i] != sol[j],
{
    assert(sol[i] != 0 && sol[j] != 0);
}

/// Two seeds of one row, column or block giving the same digit make the seed
/// set inconsistent, so the loader reports such a grid as unsatisfiable.
pub proof fn lemma_duplicate_seeds_rejected(vals: Seq<u8>, i: int, j: int)
    requires
        0 <= i < 81,
        0 <= j < 81,
        i != j,
        same_group(i, j),
        vals[i] != 0,
        vals[i] == vals[j],
    ensures
        !seeds_consistent(vals),
{
}

/// Loading is deterministic: any two well-formed boards holding the cells
/// that one seed sequence loads are bit-identical, masks and count included.
pub proof fn lemma_load_deterministic(a: Sudoku, b: Sudoku, vals: Seq<u8>)
    requires
        a.wf(),
        b.wf(),
        forall|i: int| 0 <= i < 81 ==> a.cells@[i] == loaded_cell(#[trigger] vals[i]),
        forall|i: int| 0 <= i < 81 ==> b.cells@[i] == loaded_cell(#[trigger] vals[i]),
    ensures
        crate::solver::state_eq(a, b),
{
    assert forall|i: int| 0 <= i < 81 implies a.cells@[i] == b.cells@[i] by {
        assert(a.cells@[i] == loaded_cell(vals[i]));
        assert(b.cells@[i] == loaded_cell(vals[i]));
    }
    assert(a.cells@ =~= b.cells@);
    crate::solver::lemma_board_determined(a, b);
}

/// On every well-formed board a cell's candidate set is exactly what its
/// block, column and row derive from the cells they hold: candidates are
/// never stored, only recomputed.
pub proof fn lemma_candidates_derived(s: Sudoku, i: int)
    requires
        s.wf(),
        0 <= i < 81,
    ensures
        s.spec_candidates(i) == mask_of(s.cells@, block_cells(cell_block(i))) & mask_of(
            s.cells@,
            col_cells(cell_col(i)),
        ) & mask_of(s.cells@, row_cells(cell_row(i))),
{
}

/// The digit the canonical completion places at cell `i`.
pub open spec fn canonical_digit(i: int) -> int {
    (3 * (cell_row(i) % 3) + cell_row(i) / 3 + cell_col(i)) % 9 + 1
}

/// The empty grid has a completion (the canonical one), so the solver must
/// succeed on a puzzle with no given cells.
pub proof fn lemma_empty_grid_solvable()
    ensures
        solvable(Seq::new(81, |i: int| 0u16)),
{
    let base = Seq::new(81, |i: int| 0u16);
    let sol = Seq::new(81, |i: int| mask_for(canonical_digit(i) as u8));
    assert forall|i: int| 0 <= i < 81 implies sol[i] != 0 && crate::masks::is_digit_mask(
        #[trigger] sol[i],
    ) by {
        assert(1 <= canonical_digit(i) <= 9);
        lemma_digit_mask_round_trip(canonical_digit(i) as u8);
    }
    assert forall|i: int, j: int|
        #![trigger sol[i], sol[j]]
        0 <= i < 81 && 0 <= j < 81 && i != j && same_group(i, j) implies sol[i] != sol[j] by {
        lemma_canonical_digits_differ(i, j);
        lemma_digit_mask_round_trip(canonical_digit(i) as u8);
        lemma_digit_mask_round_trip(canonical_digit(j) as u8);
    }
    assert(is_solution_of(base, sol));
}

/// Distinct cells of one group take distinct digits in the canonical
/// completion.
proof fn lemma_canonical_digits_differ(i: int, j: int)
    requires
        0 <= i < 81,
        0 <= j < 81,
        i != j,
        same_group(i, j),
    ensures
        canonical_digit(i) != canonical_digit(j),
{
    let r1 = cell_row(i);
    let c1 = cell_col(i);
    let r2 = cell_row(j);
    let c2 = cell_col(j);
    let a = 3 * (r1 % 3) + r1 / 3 + c1;
    let b = 3 * (r2 % 3) + r2 / 3 + c2;
    assert(i == 9 * r1 + c1);
    assert(j == 9 * r2 + c2);
    assert((r1, c1) != (r2, c2));
    if canonical_digit(i) == canonical_digit(j) {
        assert(a % 9 == b % 9);
        assert(a == 9 * (a / 9) + a % 9);
        assert(b == 9 * (b / 9) + b % 9);
        assert(a - b == 9 * (a / 9 - b / 9));
        if r1 == r2 {
            // same row: the digits differ by the column difference
            assert(a - b == c1 - c2);
            assert(-9 < a - b < 9 && a - b != 0);
        } else if c1 == c2 {
            // same column: 3*(r%3) + r/3 takes a distinct value for each row
            assert(a - b == 3 * (r1 % 3) + r1 / 3 - 3 * (r2 % 3) - r2 / 3);
            assert(r1 == 3 * (r1 / 3) + r1 % 3);
            assert(r2 == 3 * (r2 / 3) + r2 % 3);
            assert(a != b);
            assert(-9 < a - b < 9);
        } else {
            // same block: rows and columns agree on their /3 part, and the
            // remainders spread the digits over fewer than nine values
            assert(cell_block(i) == cell_block(j));
            assert(r1 / 3 + 3 * (c1 / 3) == r2 / 3 + 3 * (c2 / 3));
            assert(0 <= r1 / 3 < 3 && 0 <= r2 / 3 < 3);
            assert(r1 / 3 == r2 / 3 && c1 / 3 == c2 / 3);
            assert(c1 == 3 * (c1 / 3) + c1 % 3);
            assert(c2 == 3 * (c2 / 3) + c2 % 3);
            assert(r1 == 3 * (r1 / 3) + r1 % 3);
            assert(r2 == 3 * (r2 / 3) + r2 % 3);
            assert(a - b == 3 * (r1 % 3) + c1 % 3 - 3 * (r2 % 3) - c2 % 3);
            assert(a != b);
            assert(-9 < a - b < 9);
        }
        assert(false);
    }
}

} // verus!
