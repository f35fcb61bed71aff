//! Geometry of the 9x9 grid: how a linear cell index 0..81 maps to its row,
//! column and 3x3 block, and the candidate mask each group derives from the
//! cells it contains.

use vstd::prelude::*;
use crate::masks::all_digits;
use crate::masks::is_digit_mask;
use crate::masks::lemma_digit_masks_disjoint;

verus! {

pub open spec fn cell_row(i: int) -> int {
    i / 9
}

pub open spec fn cell_col(i: int) -> int {
    i % 9
}

pub open spec fn cell_block(i: int) -> int {
    cell_row(i) / 3 + 3 * (cell_col(i) / 3)
}

/// Two cells constrain each other: they share a row, a column or a block.
pub open spec fn same_group(i: int, j: int) -> bool {
    cell_row(i) == cell_row(j) || cell_col(i) == cell_col(j) || cell_block(i) == cell_block(j)
}

/// The nine cell indices of row `r`, left to right.
pub open spec fn row_cells(r: int) -> Seq<int> {
    Seq::new(9, |q: int| 9 * r + q)
}

/// The nine cell indices of column `c`, top to bottom.
pub open spec fn col_cells(c: int) -> Seq<int> {
    Seq::new(9, |q: int| 9 * q + c)
}

/// The nine cell indices of block `b`, row-major within the block.
pub open spec fn block_cells(b: int) -> Seq<int> {
    Seq::new(9, |q: int| 9 * (3 * (b % 3) + q / 3) + 3 * (b / 3) + q % 3)
}

pub proof fn lemma_row_cells(r: int, j: int)
    requires
        0 <= r < 9,
        0 <= j < 81,
    ensures
        row_cells(r).contains(j) <==> cell_row(j) == r,
{
    if cell_row(j) == r {
        let q = j - 9 * r;
        assert(0 <= q < 9);
        assert(row_cells(r)[q] == j);
    }
}

pub proof fn lemma_col_cells(c: int, j: int)
    requires
        0 <= c < 9,
        0 <= j < 81,
    ensures
        col_cells(c).contains(j) <==> cell_col(j) == c,
{
    if cell_col(j) == c {
        let q = j / 9;
        assert(0 <= q < 9);
        assert(col_cells(c)[q] == j);
    }
}

pub proof fn lemma_block_cells(b: int, j: int)
    requires
        0 <= b < 9,
        0 <= j < 81,
    ensures
        block_cells(b).contains(j) <==> cell_block(j) == b,
{
    if cell_block(j) == b {
        let r = cell_row(j);
        let c = cell_col(j);
        let q = 3 * (r % 3) + c % 3;
        assert(0 <= q < 9);
        assert(r / 3 == b % 3 && c / 3 == b / 3) by {
            assert(b == r / 3 + 3 * (c / 3));
            assert(0 <= r / 3 < 3 && 0 <= c / 3 < 3);
        }
        assert(3 * (b % 3) + q / 3 == r);
        assert(3 * (b / 3) + q % 3 == c);
        assert(block_cells(b)[q] == 9 * r + c);
        assert(9 * r + c == j);
    }
    if block_cells(b).contains(j) {
        let q = choose|q: int| 0 <= q < 9 && block_cells(b)[q] == j;
        let r = 3 * (b % 3) + q / 3;
        let c = 3 * (b / 3) + q % 3;
        assert(j == 9 * r + c && 0 <= c < 9 && 0 <= r < 9);
        assert(cell_row(j) == r && cell_col(j) == c);
        assert(cell_block(j) == b);
    }
}

/// Every index a group lists lies on the board.
pub proof fn lemma_group_cells_in_range(g: int)
    requires
        0 <= g < 9,
    ensures
        forall|q: int|
            0 <= q < 9 ==> 0 <= #[trigger] row_cells(g)[q] < 81 && 0 <= #[trigger] col_cells(g)[q]
                < 81 && 0 <= #[trigger] block_cells(g)[q] < 81,
        forall|q1: int, q2: int|
            0 <= q1 < q2 < 9 ==> row_cells(g)[q1] != row_cells(g)[q2] && col_cells(g)[q1]
                != col_cells(g)[q2] && block_cells(g)[q1] != block_cells(g)[q2],
{
    assert forall|q1: int, q2: int| 0 <= q1 < q2 < 9 implies block_cells(g)[q1] != block_cells(
        g,
    )[q2] by {
        if block_cells(g)[q1] == block_cells(g)[q2] {
            assert(9 * (3 * (g % 3) + q1 / 3) + 3 * (g / 3) + q1 % 3 == 9 * (3 * (g % 3) + q2 / 3)
                + 3 * (g / 3) + q2 % 3);
            assert(q1 / 3 == q2 / 3 && q1 % 3 == q2 % 3);
        }
    }
}

/// The candidate mask a group derives from its cells: every digit remains
/// except those some listed cell already holds.
pub open spec fn mask_of(cells: Seq<u16>, idxs: Seq<int>) -> u16
    decreases idxs.len(),
{
    if idxs.len() == 0 {
        all_digits()
    } else {
        mask_of(cells, idxs.drop_last()) & !cells[idxs.last()]
    }
}

/// Every cell is empty (0) or holds one digit's mask.
pub open spec fn cells_valid_at(cells: Seq<u16>, idxs: Seq<int>) -> bool {
    forall|q: int|
        0 <= q < idxs.len() ==> 0 <= #[trigger] idxs[q] < cells.len() && (cells[idxs[q]] == 0
            || is_digit_mask(cells[idxs[q]]))
}

/// A group mask never leaves the nine digit bits.
pub proof fn lemma_mask_of_bounded(cells: Seq<u16>, idxs: Seq<int>)
    ensures
        mask_of(cells, idxs) & all_digits() == mask_of(cells, idxs),
    decreases idxs.len(),
{
    if idxs.len() == 0 {
        assert(0x1FFu16 & 0x1FF == 0x1FF) by (bit_vector);
    } else {
        lemma_mask_of_bounded(cells, idxs.drop_last());
        let m = mask_of(cells, idxs.drop_last());
        let c = cells[idxs.last()];
        assert(m & 0x1FF == m ==> (m & !c) & 0x1FF == (m & !c)) by (bit_vector);
    }
}

/// A digit's bit stands in the group mask exactly when no listed cell holds
/// that digit.
pub proof fn lemma_mask_of_bit(cells: Seq<u16>, idxs: Seq<int>, v: u16)
    requires
        is_digit_mask(v),
        cells_valid_at(cells, idxs),
    ensures
        mask_of(cells, idxs) & v == (if exists|q: int|
            0 <= q < idxs.len() && cells[#[trigger] idxs[q]] == v {
            0u16
        } else {
            v
        }),
    decreases idxs.len(),
{
    if idxs.len() == 0 {
        assert(is_digit_mask(v) ==> 0x1FFu16 & v == v) by (bit_vector);
    } else {
        let prefix = idxs.drop_last();
        assert(cells_valid_at(cells, prefix));
        lemma_mask_of_bit(cells, prefix, v);
        let m = mask_of(cells, prefix);
        let c = cells[idxs.last()];
        let hit_prefix = exists|q: int| 0 <= q < prefix.len() && cells[#[trigger] prefix[q]] == v;
        let hit = exists|q: int| 0 <= q < idxs.len() && cells[#[trigger] idxs[q]] == v;
        if c == v {
            assert((m & !v) & v == 0) by (bit_vector);
            assert(cells[idxs[idxs.len() - 1]] == v);
            assert(hit);
        } else {
            if c != 0 {
                lemma_digit_masks_disjoint(c, v);
            } else {
                assert(0u16 & v == 0) by (bit_vector);
            }
            assert(c & v == 0 ==> (m & !c) & v == m & v) by (bit_vector);
            if hit {
                let q = choose|q: int| 0 <= q < idxs.len() && cells[#[trigger] idxs[q]] == v;
                assert(q < idxs.len() - 1);
                assert(prefix[q] == idxs[q]);
                assert(hit_prefix);
            }
            if hit_prefix {
                let q = choose|q: int|
                    0 <= q < prefix.len() && cells[#[trigger] prefix[q]] == v;
                assert(idxs[q] == prefix[q]);
                assert(hit);
            }
        }
    }
}

/// Changing a cell a group does not list leaves the group's mask unchanged.
pub proof fn lemma_mask_of_frame(cells: Seq<u16>, idxs: Seq<int>, i: int, v: u16)
    requires
        0 <= i < cells.len(),
        forall|q: int| 0 <= q < idxs.len() ==> 0 <= #[trigger] idxs[q] < cells.len(),
        !idxs.contains(i),
    ensures
        mask_of(cells.update(i, v), idxs) == mask_of(cells, idxs),
    decreases idxs.len(),
{
    if idxs.len() > 0 {
        let prefix = idxs.drop_last();
        assert(forall|q: int| 0 <= q < prefix.len() ==> prefix[q] == idxs[q]);
        assert(!prefix.contains(i)) by {
            if prefix.contains(i) {
                let q = choose|q: int| 0 <= q < prefix.len() && prefix[q] == i;
                assert(idxs[q] == i);
            }
        }
        lemma_mask_of_frame(cells, prefix, i, v);
        assert(idxs[idxs.len() - 1] != i);
        assert(cells.update(i, v)[idxs.last()] == cells[idxs.last()]);
    }
}

/// Solving a listed empty cell clears exactly that digit's bit from the
/// group's mask.
pub proof fn lemma_mask_of_assign(cells: Seq<u16>, idxs: Seq<int>, i: int, v: u16)
    requires
        0 <= i < cells.len(),
        cells[i] == 0,
        is_digit_mask(v),
        forall|q: int| 0 <= q < idxs.len() ==> 0 <= #[trigger] idxs[q] < cells.len(),
        forall|q: int| 0 <= q < idxs.len() ==> cells[#[trigger] idxs[q]] != v,
        forall|q1: int, q2: int| 0 <= q1 < q2 < idxs.len() ==> idxs[q1] != idxs[q2],
        idxs.contains(i),
    ensures
        mask_of(cells.update(i, v), idxs) == mask_of(cells, idxs) & !v,
    decreases idxs.len(),
{
    let prefix = idxs.drop_last();
    let last = idxs.last();
    assert(forall|q: int| 0 <= q < prefix.len() ==> prefix[q] == idxs[q]);
    let upd = cells.update(i, v);
    if last == i {
        assert(!prefix.contains(i)) by {
            if prefix.contains(i) {
                let q = choose|q: int| 0 <= q < prefix.len() && prefix[q] == i;
                assert(idxs[q] == idxs[idxs.len() - 1]);
            }
        }
        lemma_mask_of_frame(cells, prefix, i, v);
        let m = mask_of(cells, prefix);
        assert(mask_of(upd, idxs) == m & !v);
        assert(mask_of(cells, idxs) == m & !cells[i]);
        assert(m & !0u16 == m ==> (m & !0u16) & !v == m & !v) by (bit_vector);
        assert(m & !0u16 == m) by (bit_vector);
    } else {
        assert(idxs.contains(i) && idxs[idxs.len() - 1] != i);
        let qi = choose|q: int| 0 <= q < idxs.len() && idxs[q] == i;
        assert(qi < idxs.len() - 1);
        assert(prefix[qi] == i);
        assert(prefix.contains(i));
        lemma_mask_of_assign(cells, prefix, i, v);
        let m = mask_of(cells, prefix);
        let c = cells[last];
        assert(upd[last] == c);
        assert(mask_of(upd, idxs) == (m & !v) & !c);
        assert((m & !v) & !c == (m & !c) & !v) by (bit_vector);
    }
}

/// Unsolving a listed cell puts exactly its digit's bit back, provided no
/// other listed cell holds the same digit.
pub proof fn lemma_mask_of_clear(cells: Seq<u16>, idxs: Seq<int>, i: int)
    requires
        0 <= i < cells.len(),
        is_digit_mask(cells[i]),
        cells_valid_at(cells, idxs),
        forall|q: int|
            0 <= q < idxs.len() && idxs[q] != i ==> cells[#[trigger] idxs[q]] != cells[i],
        forall|q1: int, q2: int| 0 <= q1 < q2 < idxs.len() ==> idxs[q1] != idxs[q2],
        idxs.contains(i),
    ensures
        mask_of(cells.update(i, 0), idxs) == mask_of(cells, idxs) | cells[i],
    decreases idxs.len(),
{
    let v = cells[i];
    let prefix = idxs.drop_last();
    let last = idxs.last();
    assert(forall|q: int| 0 <= q < prefix.len() ==> prefix[q] == idxs[q]);
    let upd = cells.update(i, 0u16);
    if last == i {
        assert(!prefix.contains(i)) by {
            if prefix.contains(i) {
                let q = choose|q: int| 0 <= q < prefix.len() && prefix[q] == i;
                assert(idxs[q] == idxs[idxs.len() - 1]);
            }
        }
        lemma_mask_of_frame(cells, prefix, i, 0u16);
        let m = mask_of(cells, prefix);
        assert(mask_of(upd, idxs) == m & !0u16);
        assert(cells_valid_at(cells, prefix));
        assert(forall|q: int| 0 <= q < prefix.len() ==> cells[#[trigger] prefix[q]] != v);
        lemma_mask_of_bit(cells, prefix, v);
        assert(m & v == v);
        assert(mask_of(cells, idxs) == m & !v);
        assert(m & v == v ==> m & !0u16 == (m & !v) | v) by (bit_vector);
    } else {
        let qi = choose|q: int| 0 <= q < idxs.len() && idxs[q] == i;
        assert(qi < idxs.len() - 1);
        assert(prefix[qi] == i);
        assert(prefix.contains(i));
        lemma_mask_of_clear(cells, prefix, i);
        let m = mask_of(cells, prefix);
        let c = cells[last];
        assert(idxs[idxs.len() - 1] != i);
        assert(c != v);
        assert(upd[last] == c);
        assert(mask_of(upd, idxs) == (m | v) & !c);
        if c != 0 {
            lemma_digit_masks_disjoint(c, v);
        } else {
            assert(0u16 & v == 0) by (bit_vector);
        }
        assert(c & v == 0 ==> (m | v) & !c == (m & !c) | v) by (bit_vector);
    }
}

/// A group of empty cells rules nothing out.
pub proof fn lemma_mask_of_unsolved(cells: Seq<u16>, idxs: Seq<int>)
    requires
        forall|q: int|
            0 <= q < idxs.len() ==> 0 <= #[trigger] idxs[q] < cells.len() && cells[idxs[q]] == 0,
    ensures
        mask_of(cells, idxs) == all_digits(),
    decreases idxs.len(),
{
    if idxs.len() > 0 {
        let prefix = idxs.drop_last();
        assert(forall|q: int| 0 <= q < prefix.len() ==> prefix[q] == idxs[q]);
        lemma_mask_of_unsolved(cells, prefix);
        assert(cells[idxs.last()] == 0);
        assert(0x1FFu16 & !0u16 == 0x1FF) by (bit_vector);
    }
}

/// How many cells are still unsolved.
pub open spec fn count_unsolved(cells: Seq<u16>) -> nat
    decreases cells.len(),
{
    if cells.len() == 0 {
        0
    } else {
        count_unsolved(cells.drop_last()) + (if cells.last() == 0 {
            1nat
        } else {
            0nat
        })
    }
}

pub proof fn lemma_count_unsolved_le_len(cells: Seq<u16>)
    ensures
        count_unsolved(cells) <= cells.len(),
    decreases cells.len(),
{
    if cells.len() > 0 {
        lemma_count_unsolved_le_len(cells.drop_last());
    }
}

/// No unsolved cell is exactly a zero count.
pub proof fn lemma_count_unsolved_none(cells: Seq<u16>)
    ensures
        count_unsolved(cells) == 0 <==> (forall|j: int| 0 <= j < cells.len() ==> cells[j] != 0),
    decreases cells.len(),
{
    if cells.len() > 0 {
        let prefix = cells.drop_last();
        lemma_count_unsolved_none(prefix);
        assert(forall|j: int| 0 <= j < prefix.len() ==> prefix[j] == cells[j]);
        if count_unsolved(cells) == 0 {
            assert(forall|j: int| 0 <= j < cells.len() - 1 ==> cells[j] != 0);
            assert(cells[cells.len() - 1] != 0);
        }
        if forall|j: int| 0 <= j < cells.len() ==> cells[j] != 0 {
            assert(forall|j: int| 0 <= j < prefix.len() ==> prefix[j] != 0);
        }
    }
}

/// An all-empty board has every cell unsolved.
pub proof fn lemma_count_unsolved_full(cells: Seq<u16>)
    requires
        forall|j: int| 0 <= j < cells.len() ==> cells[j] == 0,
    ensures
        count_unsolved(cells) == cells.len(),
    decreases cells.len(),
{
    if cells.len() > 0 {
        let prefix = cells.drop_last();
        assert(forall|j: int| 0 <= j < prefix.len() ==> prefix[j] == cells[j]);
        lemma_count_unsolved_full(prefix);
    }
}

/// Solving or unsolving one cell moves the count by exactly one.
pub proof fn lemma_count_unsolved_update(cells: Seq<u16>, i: int, v: u16)
    requires
        0 <= i < cells.len(),
    ensures
        count_unsolved(cells.update(i, v)) == count_unsolved(cells) + (if v == 0 {
            1int
        } else {
            0int
        }) - (if cells[i] == 0 {
            1int
        } else {
            0int
        }),
    decreases cells.len(),
{
    let upd = cells.update(i, v);
    let prefix = cells.drop_last();
    assert(forall|j: int| 0 <= j < prefix.len() ==> prefix[j] == cells[j]);
    if i == cells.len() - 1 {
        assert(upd.drop_last() =~= prefix);
    } else {
        lemma_count_unsolved_update(prefix, i, v);
        assert(upd.drop_last() =~= prefix.update(i, v));
        assert(upd.last() == cells.last());
    }
}

/// Computes (block, column, row) for a cell index, as the group masks are
/// indexed.
pub fn get_indices(i: usize) -> (r: (usize, usize, usize))
    requires
        i < 81,
    ensures
        r.0 == cell_block(i as int),
        r.1 == cell_col(i as int),
        r.2 == cell_row(i as int),
        r.0 < 9 && r.1 < 9 && r.2 < 9,
{
    let row = i / 9;
    let col = i % 9;
    let blk = row / 3 + 3 * (col / 3);
    (blk, col, row)
}

} // verus!
