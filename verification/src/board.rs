//! The board: 81 cells plus one candidate mask per row, column and block,
//! and the count of unsolved cells. The well-formedness invariant ties every
//! mask and the count to the cells, so restoring the cells restores the whole
//! board.

use vstd::prelude::*;
use crate::groups::block_cells;
use crate::groups::cell_block;
use crate::groups::cell_col;
use crate::groups::cell_row;
use crate::groups::cells_valid_at;
use crate::groups::col_cells;
use crate::groups::count_unsolved;
use crate::groups::get_indices;
use crate::groups::lemma_block_cells;
use crate::groups::lemma_col_cells;
use crate::groups::lemma_count_unsolved_full;
use crate::groups::lemma_count_unsolved_le_len;
use crate::groups::lemma_count_unsolved_none;
use crate::groups::lemma_count_unsolved_update;
use crate::groups::lemma_mask_of_unsolved;
use crate::groups::lemma_group_cells_in_range;
use crate::groups::lemma_mask_of_assign;
use crate::groups::lemma_mask_of_bit;
use crate::groups::lemma_mask_of_clear;
use crate::groups::lemma_mask_of_frame;
use crate::groups::lemma_row_cells;
use crate::groups::mask_of;
use crate::groups::row_cells;
use crate::groups::same_group;
use crate::masks::all_digits;
use crate::masks::digit_of;
use crate::masks::field_to_val;
use crate::masks::is_digit_mask;
use crate::masks::lemma_digit_mask_round_trip;
use crate::masks::mask_for;
use crate::masks::val_to_field;

verus! {

/// Every cell is empty (0) or holds one digit's mask, and no two cells of a
/// row, column or block hold the same digit.
pub open spec fn grid_valid(cells: Seq<u16>) -> bool {
    &&& cells.len() == 81
    &&& forall|i: int| 0 <= i < 81 ==> #[trigger] cells[i] == 0 || is_digit_mask(cells[i])
    &&& forall|i: int, j: int|
        #![trigger cells[i], cells[j]]
        0 <= i < 81 && 0 <= j < 81 && i != j && same_group(i, j) && cells[i] != 0 && cells[j] != 0
            ==> cells[i] != cells[j]
}

/// The cell mask a seed value loads: empty stays empty, a digit becomes its
/// mask.
pub open spec fn loaded_cell(v: u8) -> u16 {
    if v == 0 {
        0u16
    } else {
        mask_for(v)
    }
}

/// Every seed value is 0 (unknown) or a digit 1..=9.
pub open spec fn seeds_in_range(vals: Seq<u8>) -> bool {
    forall|i: int| 0 <= i < 81 ==> #[trigger] vals[i] <= 9
}

/// No two seeds of one row, column or block give the same digit.
pub open spec fn seeds_consistent(vals: Seq<u8>) -> bool {
    forall|i: int, j: int|
        #![trigger vals[i], vals[j]]
        0 <= i < 81 && 0 <= j < 81 && i != j && same_group(i, j) && vals[i] != 0 ==> vals[i]
            != vals[j]
}

#[derive(Copy, Clone)]
pub struct Sudoku {
    /// 0 while unsolved, else the mask of the one digit placed there.
    pub cells: [u16; 81],
    /// Candidate mask still open in each 3x3 block.
    pub blocks: [u16; 9],
    /// Candidate mask still open in each column.
    pub cols: [u16; 9],
    /// Candidate mask still open in each row.
    pub rows: [u16; 9],
    /// Number of unsolved cells.
    pub remaining: usize,
}

impl Sudoku {
    /// The board invariant: cells form a valid partial grid, every group mask
    /// equals the mask its cells derive, and `remaining` counts the unsolved
    /// cells.
    pub open spec fn wf(self) -> bool {
        &&& grid_valid(self.cells@)
        &&& forall|g: int|
            0 <= g < 9 ==> #[trigger] self.rows@[g] == mask_of(self.cells@, row_cells(g))
        &&& forall|g: int|
            0 <= g < 9 ==> #[trigger] self.cols@[g] == mask_of(self.cells@, col_cells(g))
        &&& forall|g: int|
            0 <= g < 9 ==> #[trigger] self.blocks@[g] == mask_of(self.cells@, block_cells(g))
        &&& self.remaining == count_unsolved(self.cells@)
    }

    /// The candidate set of cell `i`: the digits its block, column and row
    /// all still allow.
    pub open spec fn spec_candidates(self, i: int) -> u16 {
        self.blocks@[cell_block(i)] & self.cols@[cell_col(i)] & self.rows@[cell_row(i)]
    }

    /// Pure read of a cell's candidate set.
    pub fn candidates_at(&self, cell: usize) -> (r: u16)
        requires
            cell < 81,
        ensures
            r == self.spec_candidates(cell as int),
    {
        let (blk, col, row) = get_indices(cell);
        self.blocks[blk] & self.cols[col] & self.rows[row]
    }

    /// No cell of `location`'s row, column or block holds the digit of mask
    /// `val` when that digit is still open in all three group masks.
    proof fn lemma_value_fresh(self, location: usize, val: u16)
        requires
            self.wf(),
            location < 81,
            is_digit_mask(val),
            self.rows@[cell_row(location as int)] & val == val,
            self.cols@[cell_col(location as int)] & val == val,
            self.blocks@[cell_block(location as int)] & val == val,
        ensures
            forall|j: int| 0 <= j < 81 && same_group(location as int, j) ==> self.cells@[j] != val,
    {
        let loc = location as int;
        let cells = self.cells@;
        let r = cell_row(loc);
        let c = cell_col(loc);
        let b = cell_block(loc);
        lemma_group_cells_in_range(r);
        lemma_group_cells_in_range(c);
        lemma_group_cells_in_range(b);
        lemma_mask_of_bit(cells, row_cells(r), val);
        lemma_mask_of_bit(cells, col_cells(c), val);
        lemma_mask_of_bit(cells, block_cells(b), val);
        assert(val != 0);
        assert forall|j: int| 0 <= j < 81 && same_group(loc, j) implies cells[j] != val by {
            if cell_row(j) == r {
                lemma_row_cells(r, j);
                if cells[j] == val {
                    let q = choose|q: int| 0 <= q < 9 && row_cells(r)[q] == j;
                    assert(cells[row_cells(r)[q]] == val);
                }
            } else if cell_col(j) == c {
                lemma_col_cells(c, j);
                if cells[j] == val {
                    let q = choose|q: int| 0 <= q < 9 && col_cells(c)[q] == j;
                    assert(cells[col_cells(c)[q]] == val);
                }
            } else {
                lemma_block_cells(b, j);
                if cells[j] == val {
                    let q = choose|q: int| 0 <= q < 9 && block_cells(b)[q] == j;
                    assert(cells[block_cells(b)[q]] == val);
                }
            }
        }
    }

    /// Places the digit of mask `val` in an empty cell whose three groups all
    /// still allow it, clearing the digit's bit from those groups.
    #[verifier::rlimit(60)]
    pub fn set_value(&mut self, val: u16, location: usize)
        requires
            old(self).wf(),
            location < 81,
            old(self).cells@[location as int] == 0,
            is_digit_mask(val),
            old(self).rows@[cell_row(location as int)] & val == val,
            old(self).cols@[cell_col(location as int)] & val == val,
            old(self).blocks@[cell_block(location as int)] & val == val,
        ensures
            final(self).wf(),
            final(self).cells@ == old(self).cells@.update(location as int, val),
            final(self).remaining == old(self).remaining - 1,
    {
        let ghost pre = *self;
        let ghost loc = location as int;
        proof {
            lemma_count_unsolved_none(pre.cells@);
            pre.lemma_value_fresh(location, val);
        }
        let (blk, col, row) = get_indices(location);
        self.cells[location] = val;
        self.blocks[blk] = self.blocks[blk] & !val;
        self.cols[col] = self.cols[col] & !val;
        self.rows[row] = self.rows[row] & !val;
        self.remaining = self.remaining - 1;
        proof {
            let cells = pre.cells@;
            let upd = self.cells@;
            assert(upd == cells.update(loc, val));
            lemma_count_unsolved_update(cells, loc, val);
            // the grid stays valid: the new digit clashes with no group mate
            assert forall|i: int, j: int|
                #![trigger upd[i], upd[j]]
                0 <= i < 81 && 0 <= j < 81 && i != j && same_group(i, j) && upd[i] != 0 && upd[j]
                    != 0 implies upd[i] != upd[j] by {
                if i == loc {
                    assert(cells[j] != val);
                } else if j == loc {
                    assert(same_group(loc, i));
                    assert(cells[i] != val);
                }
            }
            // each group mask matches what the updated cells derive
            assert forall|g: int| 0 <= g < 9 implies #[trigger] self.rows@[g] == mask_of(
                upd,
                row_cells(g),
            ) by {
                lemma_group_cells_in_range(g);
                lemma_row_cells(g, loc);
                if g == cell_row(loc) {
                    assert forall|q: int| 0 <= q < 9 implies cells[#[trigger] row_cells(g)[q]]
                        != val by {
                        let j = row_cells(g)[q];
                        assert(cell_row(j) == g);
                        assert(same_group(loc, j));
                    }
                    lemma_mask_of_assign(cells, row_cells(g), loc, val);
                } else {
                    lemma_mask_of_frame(cells, row_cells(g), loc, val);
                }
            }
            assert forall|g: int| 0 <= g < 9 implies #[trigger] self.cols@[g] == mask_of(
                upd,
                col_cells(g),
            ) by {
                lemma_group_cells_in_range(g);
                lemma_col_cells(g, loc);
                if g == cell_col(loc) {
                    assert forall|q: int| 0 <= q < 9 implies cells[#[trigger] col_cells(g)[q]]
                        != val by {
                        let j = col_cells(g)[q];
                        assert(cell_col(j) == g);
                        assert(same_group(loc, j));
                    }
                    lemma_mask_of_assign(cells, col_cells(g), loc, val);
                } else {
                    lemma_mask_of_frame(cells, col_cells(g), loc, val);
                }
            }
            assert forall|g: int| 0 <= g < 9 implies #[trigger] self.blocks@[g] == mask_of(
                upd,
                block_cells(g),
            ) by {
                lemma_group_cells_in_range(g);
                lemma_block_cells(g, loc);
                if g == cell_block(loc) {
                    assert forall|q: int| 0 <= q < 9 implies cells[#[trigger] block_cells(g)[q]]
                        != val by {
                        let j = block_cells(g)[q];
                        lemma_block_cells(g, j);
                        assert(same_group(loc, j));
                    }
                    lemma_mask_of_assign(cells, block_cells(g), loc, val);
                } else {
                    lemma_mask_of_frame(cells, block_cells(g), loc, val);
                }
            }
        }
    }

    /// Empties a solved cell and returns its digit's bit to the cell's three
    /// group masks: the exact inverse of `set_value`.
    #[verifier::rlimit(60)]
    pub fn clear_value(&mut self, location: usize)
        requires
            old(self).wf(),
            location < 81,
            old(self).cells@[location as int] != 0,
        ensures
            final(self).wf(),
            final(self).cells@ == old(self).cells@.update(location as int, 0u16),
            final(self).remaining == old(self).remaining + 1,
    {
        let ghost pre = *self;
        let ghost loc = location as int;
        proof {
            lemma_count_unsolved_le_len(pre.cells@);
        }
        let val = self.cells[location];
        let (blk, col, row) = get_indices(location);
        self.cells[location] = 0;
        self.blocks[blk] = self.blocks[blk] | val;
        self.cols[col] = self.cols[col] | val;
        self.rows[row] = self.rows[row] | val;
        self.remaining = self.remaining + 1;
        proof {
            let cells = pre.cells@;
            let upd = self.cells@;
            assert(upd == cells.update(loc, 0u16));
            lemma_count_unsolved_update(cells, loc, 0u16);
            assert(cells[loc] == val);
            assert(is_digit_mask(val));
            // no group mate holds the same digit, so the bit comes back clean
            assert forall|g: int| 0 <= g < 9 implies #[trigger] self.rows@[g] == mask_of(
                upd,
                row_cells(g),
            ) by {
                lemma_group_cells_in_range(g);
                lemma_row_cells(g, loc);
                if g == cell_row(loc) {
                    assert forall|q: int|
                        0 <= q < 9 && row_cells(g)[q] != loc implies cells[#[trigger] row_cells(
                        g,
                    )[q]] != val by {
                        let j = row_cells(g)[q];
                        assert(cell_row(j) == g);
                        assert(same_group(loc, j));
                    }
                    lemma_mask_of_clear(cells, row_cells(g), loc);
                } else {
                    lemma_mask_of_frame(cells, row_cells(g), loc, 0u16);
                }
            }
            assert forall|g: int| 0 <= g < 9 implies #[trigger] self.cols@[g] == mask_of(
                upd,
                col_cells(g),
            ) by {
                lemma_group_cells_in_range(g);
                lemma_col_cells(g, loc);
                if g == cell_col(loc) {
                    assert forall|q: int|
                        0 <= q < 9 && col_cells(g)[q] != loc implies cells[#[trigger] col_cells(
                        g,
                    )[q]] != val by {
                        let j = col_cells(g)[q];
                        assert(cell_col(j) == g);
                        assert(same_group(loc, j));
                    }
                    lemma_mask_of_clear(cells, col_cells(g), loc);
                } else {
                    lemma_mask_of_frame(cells, col_cells(g), loc, 0u16);
                }
            }
            assert forall|g: int| 0 <= g < 9 implies #[trigger] self.blocks@[g] == mask_of(
                upd,
                block_cells(g),
            ) by {
                lemma_group_cells_in_range(g);
                lemma_block_cells(g, loc);
                if g == cell_block(loc) {
                    assert forall|q: int|
                        0 <= q < 9 && block_cells(g)[q] != loc implies cells[#[trigger] block_cells(
                        g,
                    )[q]] != val by {
                        let j = block_cells(g)[q];
                        lemma_block_cells(g, j);
                        assert(same_group(loc, j));
                    }
                    lemma_mask_of_clear(cells, block_cells(g), loc);
                } else {
                    lemma_mask_of_frame(cells, block_cells(g), loc, 0u16);
                }
            }
        }
    }
    /// Undoes a batch of forced moves in order, emptying exactly the listed
    /// cells and touching no other.
    pub fn back_out_moves(&mut self, eager_moves: Vec<usize>)
        requires
            old(self).wf(),
            forall|m: int|
                0 <= m < eager_moves@.len() ==> #[trigger] eager_moves@[m] < 81 && old(
                    self,
                ).cells@[eager_moves@[m] as int] != 0,
            forall|m1: int, m2: int|
                0 <= m1 < m2 < eager_moves@.len() ==> eager_moves@[m1] != eager_moves@[m2],
        ensures
            final(self).wf(),
            forall|i: int|
                0 <= i < 81 ==> final(self).cells@[i] == (if eager_moves@.contains(i as usize) {
                    0u16
                } else {
                    old(self).cells@[i]
                }),
            final(self).remaining == old(self).remaining + eager_moves@.len(),
    {
        let ghost pre = *self;
        let n = eager_moves.len();
        let mut k: usize = 0;
        while k < n
            invariant
                self.wf(),
                n == eager_moves@.len(),
                k <= n,
                forall|m: int|
                    0 <= m < n ==> #[trigger] eager_moves@[m] < 81 && pre.cells@[eager_moves@[m] as int]
                        != 0,
                forall|m1: int, m2: int| 0 <= m1 < m2 < n ==> eager_moves@[m1] != eager_moves@[m2],
                forall|i: int|
                    0 <= i < 81 ==> self.cells@[i] == (if eager_moves@.take(
                        k as int,
                    ).contains(i as usize) {
                        0u16
                    } else {
                        pre.cells@[i]
                    }),
                self.remaining == pre.remaining + k,
                pre.cells@.len() == 81,
            decreases n - k,
        {
            let guess = eager_moves[k];
            proof {
                if eager_moves@.take(k as int).contains(guess) {
                    let m = choose|m: int|
                        0 <= m < k && eager_moves@.take(k as int)[m] == guess;
                    assert(eager_moves@[m] == eager_moves@[k as int]);
                }
                assert(self.cells@[guess as int] == pre.cells@[guess as int]);
            }
            self.clear_value(guess);
            proof {
                let t0 = eager_moves@.take(k as int);
                let t1 = eager_moves@.take(k as int + 1);
                assert(t1 =~= t0.push(guess));
                assert forall|i: int| 0 <= i < 81 implies self.cells@[i] == (if t1.contains(
                    i as usize,
                ) {
                    0u16
                } else {
                    pre.cells@[i]
                }) by {
                    if t1.contains(i as usize) {
                        let m = choose|m: int| 0 <= m < t1.len() && t1[m] == i as usize;
                        if m < k {
                            assert(t0[m] == i as usize);
                            assert(t0.contains(i as usize));
                        } else {
                            assert(i as usize == guess);
                        }
                    } else {
                        assert(!t0.contains(i as usize)) by {
                            if t0.contains(i as usize) {
                                let m = choose|m: int| 0 <= m < t0.len() && t0[m] == i as usize;
                                assert(t1[m] == i as usize);
                            }
                        }
                        assert(i != guess as int) by {
                            assert(t1[k as int] == guess);
                        }
                    }
                }
            }
            k = k + 1;
        }
        proof {
            assert(eager_moves@.take(n as int) =~= eager_moves@);
        }
    }

    /// Reads the grid back out as 81 digits (0 for an unsolved cell).
    pub fn to_values(&self) -> (r: Vec<u8>)
        requires
            grid_valid(self.cells@),
        ensures
            r@.len() == 81,
            forall|i: int| 0 <= i < 81 ==> r@[i] == digit_of(self.cells@[i]),
    {
        let mut r: Vec<u8> = Vec::new();
        let mut i: usize = 0;
        while i < 81
            invariant
                grid_valid(self.cells@),
                r@.len() == i,
                i <= 81,
                forall|j: int| 0 <= j < i ==> r@[j] == digit_of(self.cells@[j]),
            decreases 81 - i,
        {
            r.push(field_to_val(self.cells[i]));
            i = i + 1;
        }
        r
    }
}

/// Builds a board from 81 seed values (0 = unknown, 1..=9 = given digit),
/// applying each given digit in order. Returns `None` exactly when a seed is
/// out of range or two seeds of one group give the same digit.
#[verifier::rlimit(60)]
pub fn load_sudoku(values: &Vec<u8>) -> (r: Option<Sudoku>)
    requires
        values@.len() == 81,
    ensures
        r is Some <==> seeds_in_range(values@) && seeds_consistent(values@),
        r matches Some(s) ==> s.wf() && forall|i: int|
            0 <= i < 81 ==> s.cells@[i] == loaded_cell(values@[i]),
{
    let mut s = Sudoku {
        cells: [0u16; 81],
        blocks: [0x1FFu16; 9],
        cols: [0x1FFu16; 9],
        rows: [0x1FFu16; 9],
        remaining: 81,
    };
    proof {
        assert forall|g: int| 0 <= g < 9 implies mask_of(s.cells@, row_cells(g)) == all_digits()
            && mask_of(s.cells@, col_cells(g)) == all_digits() && mask_of(
            s.cells@,
            block_cells(g),
        ) == all_digits() by {
            lemma_group_cells_in_range(g);
            lemma_mask_of_unsolved(s.cells@, row_cells(g));
            lemma_mask_of_unsolved(s.cells@, col_cells(g));
            lemma_mask_of_unsolved(s.cells@, block_cells(g));
        }
        lemma_count_unsolved_full(s.cells@);
        assert(s.wf());
    }
    let mut i: usize = 0;
    while i < 81
        invariant
            values@.len() == 81,
            s.wf(),
            i <= 81,
            forall|j: int| 0 <= j < i ==> s.cells@[j] == loaded_cell(#[trigger] values@[j]),
            forall|j: int| i <= j < 81 ==> s.cells@[j] == 0,
            forall|j: int| 0 <= j < i ==> #[trigger] values@[j] <= 9,
        decreases 81 - i,
    {
        let v = values[i];
        if v != 0 {
            if v > 9 {
                proof {
                    assert(!seeds_in_range(values@));
                }
                return None;
            }
            proof {
                lemma_digit_mask_round_trip(v);
            }
            let m = val_to_field(v);
            let (blk, col, row) = get_indices(i);
            if s.blocks[blk] & m != m || s.cols[col] & m != m || s.rows[row] & m != m {
                proof {
                    lemma_seed_clash(s, values@, i as int, v);
                }
                return None;
            }
            s.set_value(m, i);
        }
        i = i + 1;
    }
    proof {
        assert forall|a: int, b: int|
            #![trigger values@[a], values@[b]]
            0 <= a < 81 && 0 <= b < 81 && a != b && same_group(a, b) && values@[a] != 0 implies values@[a]
            != values@[b] by {
            if values@[b] != 0 {
                lemma_digit_mask_round_trip(values@[a]);
                lemma_digit_mask_round_trip(values@[b]);
                assert(s.cells@[a] == mask_for(values@[a]));
                assert(s.cells@[b] == mask_for(values@[b]));
            }
        }
    }
    Some(s)
}

/// When a seed's digit is no longer open in one of its cell's groups, an
/// earlier seed of that group already gave the same digit.
proof fn lemma_seed_clash(s: Sudoku, vals: Seq<u8>, i: int, v: u8)
    requires
        s.wf(),
        vals.len() == 81,
        0 <= i < 81,
        1 <= v <= 9,
        vals[i] == v,
        forall|j: int| 0 <= j < i ==> s.cells@[j] == loaded_cell(#[trigger] vals[j]),
        forall|j: int| i <= j < 81 ==> s.cells@[j] == 0,
        forall|j: int| 0 <= j < i ==> #[trigger] vals[j] <= 9,
        s.blocks@[cell_block(i)] & mask_for(v) != mask_for(v) || s.cols@[cell_col(i)] & mask_for(v)
            != mask_for(v) || s.rows@[cell_row(i)] & mask_for(v) != mask_for(v),
    ensures
        !seeds_consistent(vals),
{
    let m = mask_for(v);
    lemma_digit_mask_round_trip(v);
    let cells = s.cells@;
    let idxs = if s.rows@[cell_row(i)] & m != m {
        row_cells(cell_row(i))
    } else if s.cols@[cell_col(i)] & m != m {
        col_cells(cell_col(i))
    } else {
        block_cells(cell_block(i))
    };
    let g = if s.rows@[cell_row(i)] & m != m {
        cell_row(i)
    } else if s.cols@[cell_col(i)] & m != m {
        cell_col(i)
    } else {
        cell_block(i)
    };
    lemma_group_cells_in_range(g);
    lemma_mask_of_bit(cells, idxs, m);
    assert(mask_of(cells, idxs) & m != m);
    let q = choose|q: int| 0 <= q < idxs.len() && cells[#[trigger] idxs[q]] == m;
    let j = idxs[q];
    assert(cells[j] == m);
    assert(j < i) by {
        if j >= i {
            assert(cells[j] == 0);
            assert(m != 0);
        }
    }
    assert(loaded_cell(vals[j]) == m);
    assert(vals[j] != 0);
    lemma_digit_mask_round_trip(vals[j]);
    assert(vals[j] == digit_of(m));
    assert(vals[j] == v);
    assert(same_group(j, i)) by {
        if s.rows@[cell_row(i)] & m != m {
            lemma_row_cells(cell_row(i), j);
        } else if s.cols@[cell_col(i)] & m != m {
            lemma_col_cells(cell_col(i), j);
        } else {
            lemma_block_cells(cell_block(i), j);
        }
    }
    assert(vals[j] != 0 && vals[j] == vals[i] && j != i && same_group(j, i));
}

} // verus!
