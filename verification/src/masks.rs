//! Candidate masks: a 9-bit set over the digits 1..=9, where bit `d - 1`
//! stands for digit `d`. A solved cell stores the mask of its digit, an
//! unsolved cell stores 0.

use vstd::prelude::*;

verus! {

/// The mask with every digit 1..=9 still possible.
pub open spec fn all_digits() -> u16 {
    0x1FF
}

/// `m` is the mask of exactly one digit 1..=9.
pub open spec fn is_digit_mask(m: u16) -> bool {
    m == 1 || m == 2 || m == 4 || m == 8 || m == 16 || m == 32 || m == 64 || m == 128 || m == 256
}

/// The mask holding digit `d` alone (meaningful for 1 <= d <= 16).
pub open spec fn mask_for(d: u8) -> u16 {
    (1u16 << ((d - 1) as u16))
}

/// The digit a solved cell's mask stands for; 0 for an unsolved cell.
pub open spec fn digit_of(m: u16) -> u8 {
    if m == 1 {
        1
    } else if m == 2 {
        2
    } else if m == 4 {
        3
    } else if m == 8 {
        4
    } else if m == 16 {
        5
    } else if m == 32 {
        6
    } else if m == 64 {
        7
    } else if m == 128 {
        8
    } else if m == 256 {
        9
    } else {
        0
    }
}

/// Digit `d`'s bit is set in the mask `x` (meaningful for 1 <= d <= 16).
pub open spec fn has_digit(x: u16, d: u8) -> bool {
    x & mask_for(d) != 0
}

/// Two distinct digit masks share no bit.
pub proof fn lemma_digit_masks_disjoint(a: u16, b: u16)
    requires
        is_digit_mask(a),
        is_digit_mask(b),
        a != b,
    ensures
        a & b == 0,
{
    assert(is_digit_mask(a) && is_digit_mask(b) && a != b ==> a & b == 0) by (bit_vector);
}

/// A digit mask carries exactly its own digit.
pub proof fn lemma_digit_mask_round_trip(d: u8)
    requires
        1 <= d <= 9,
    ensures
        is_digit_mask(mask_for(d)),
        digit_of(mask_for(d)) == d,
        mask_for(d) & all_digits() == mask_for(d),
{
    assert(1 <= d <= 9 ==> is_digit_mask(1u16 << ((d - 1) as u16)) && (1u16 << ((d - 1) as u16))
        & 0x1FF == (1u16 << ((d - 1) as u16))) by (bit_vector);
    assert(1 <= d <= 9 ==> (1u16 << ((d - 1) as u16)) == (if d == 1 {
        1u16
    } else if d == 2 {
        2u16
    } else if d == 3 {
        4u16
    } else if d == 4 {
        8u16
    } else if d == 5 {
        16u16
    } else if d == 6 {
        32u16
    } else if d == 7 {
        64u16
    } else if d == 8 {
        128u16
    } else {
        256u16
    })) by (bit_vector);
}

/// Conversely, every digit mask is `mask_for` of its digit.
pub proof fn lemma_digit_mask_is_mask_for(m: u16)
    requires
        is_digit_mask(m),
    ensures
        1 <= digit_of(m) <= 9,
        mask_for(digit_of(m)) == m,
{
    let d = digit_of(m);
    assert(1 <= d <= 9);
    lemma_digit_mask_round_trip(d);
}

/// Number of set bits in a mask: how many candidates it still holds.
pub open spec fn pop_count(m: u16) -> nat
    decreases m,
{
    if m == 0 {
        0
    } else {
        ((m % 2) + pop_count(m / 2)) as nat
    }
}

pub proof fn lemma_pop_count_zero(m: u16)
    ensures
        pop_count(m) == 0 <==> m == 0,
    decreases m,
{
    if m != 0 && m / 2 != 0 {
        lemma_pop_count_zero(m / 2);
    }
}

pub proof fn lemma_pop_count_bound(m: u16)
    ensures
        pop_count(m) <= m,
    decreases m,
{
    if m == 0 {
    } else {
        lemma_pop_count_bound(m / 2);
    }
}

/// A 9-bit mask with exactly one set bit is the mask of one digit.
pub proof fn lemma_pop_count_one(m: u16)
    requires
        pop_count(m) == 1,
        m < 0x200,
    ensures
        is_digit_mask(m),
    decreases m,
{
    lemma_pop_count_zero(m);
    if m % 2 == 1 {
        lemma_pop_count_zero(m / 2);
        assert(m == 2 * (m / 2) + 1);
    } else {
        lemma_pop_count_one(m / 2);
        assert(m == 2 * (m / 2));
    }
}

/// Counts the candidates a mask still holds.
pub(crate) fn count_candidates(m: u16) -> (c: u32)
    ensures
        c == pop_count(m),
{
    proof {
        lemma_pop_count_bound(m);
    }
    let mut c: u32 = 0;
    let mut x = m;
    while x != 0
        invariant
            c + pop_count(x) == pop_count(m),
            pop_count(m) <= m,
        decreases x,
    {
        c = c + (x % 2) as u32;
        x = x / 2;
    }
    c
}

/// Builds the mask of a single digit, as the solver stores it in a cell.
pub fn val_to_field(x: u8) -> (r: u16)
    requires
        1 <= x <= 16,
    ensures
        r == mask_for(x),
{
    1u16 << ((x - 1) as u16)
}

/// Reads the digit back out of a solved cell's mask (0 for an unsolved cell).
pub fn field_to_val(x: u16) -> (r: u8)
    requires
        x == 0 || is_digit_mask(x),
    ensures
        r == digit_of(x),
{
    if x == 0 {
        0
    } else if x == 1 {
        1
    } else if x == 2 {
        2
    } else if x == 4 {
        3
    } else if x == 8 {
        4
    } else if x == 16 {
        5
    } else if x == 32 {
        6
    } else if x == 64 {
        7
    } else if x == 128 {
        8
    } else {
        9
    }
}

/// Lists the digits a 9-bit candidate mask holds, in increasing order.
pub fn field_to_vals(x: u16) -> (r: Vec<u8>)
    requires
        x & all_digits() == x,
    ensures
        forall|n: int| 0 <= n < r@.len() ==> 1 <= #[trigger] r@[n] <= 9 && has_digit(x, r@[n]),
        forall|d: u8| 1 <= d <= 9 && has_digit(x, d) ==> r@.contains(d),
        forall|n1: int, n2: int| 0 <= n1 < n2 < r@.len() ==> r@[n1] < r@[n2],
{
    let mut ret: Vec<u8> = Vec::new();
    let mut d: u8 = 1;
    while d <= 9
        invariant
            1 <= d <= 10,
            forall|n: int| 0 <= n < ret@.len() ==> 1 <= #[trigger] ret@[n] < d && has_digit(
                x,
                ret@[n],
            ),
            forall|e: u8| 1 <= e < d && has_digit(x, e) ==> ret@.contains(e),
            forall|n1: int, n2: int| 0 <= n1 < n2 < ret@.len() ==> ret@[n1] < ret@[n2],
        decreases 10 - d,
    {
        let m = val_to_field(d);
        if x & m != 0 {
            let ghost before = ret@;
            ret.push(d);
            proof {
                assert(forall|e: u8| before.contains(e) ==> ret@.contains(e)) by {
                    assert(forall|n: int| 0 <= n < before.len() ==> ret@[n] == before[n]);
                }
                assert(ret@[ret@.len() - 1] == d);
            }
        }
        d = d + 1;
    }
    ret
}

} // verus!
