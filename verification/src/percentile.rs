//! Index-based percentile extraction over a sorted sequence: one element is
//! returned by index, never an interpolation of two.

use vstd::arithmetic::div_mod::{lemma_div_is_ordered, lemma_div_pos_is_pos};
use vstd::arithmetic::mul::lemma_mul_inequality;
use vstd::prelude::*;

verus! {

/// Index chosen by the lower-biased extraction: `floor(len * num / den)`,
/// pulled back by one so the maximum is returned only when the scaled index
/// lands past it exactly.
pub open spec fn lower_index(len: int, num: int, den: int) -> int {
    let scaled = len * num / den;
    if scaled == 0 {
        0
    } else {
        scaled - 1
    }
}

/// Index chosen by the higher-biased extraction: `floor(len * num / den)`,
/// promoted from 0 to 1 when more than one element exists, so the minimum is
/// avoided whenever possible.
pub open spec fn higher_index(len: int, num: int, den: int) -> int {
    let scaled = len * num / den;
    if scaled == 0 {
        if len == 1 {
            0
        } else {
            1
        }
    } else {
        scaled
    }
}

pub open spec fn p1_index(len: int) -> int {
    higher_index(len, 1, 100)
}

pub open spec fn p50_index(len: int) -> int {
    lower_index(len, 1, 2)
}

pub open spec fn p99_index(len: int) -> int {
    lower_index(len, 99, 100)
}

proof fn lemma_scaled_le_len(len: int, num: int, den: int)
    requires
        0 < len,
        0 < num <= den,
    ensures
        0 <= len * num / den <= len,
{
    lemma_mul_inequality(num, den, len);
    assert(len * num == num * len) by (nonlinear_arith);
    assert(len * den == den * len) by (nonlinear_arith);
    lemma_div_is_ordered(len * num, len * den, den);
    assert(len * den / den == len) by (nonlinear_arith)
        requires
            0 < den,
    ;
    lemma_div_pos_is_pos(len * num, den);
    assert(len * num >= 0) by (nonlinear_arith)
        requires
            len > 0 && num > 0,
    ;
}

proof fn lemma_scaled_lt_len(len: int, num: int, den: int)
    requires
        0 < len,
        0 < num < den,
    ensures
        0 <= len * num / den < len,
{
    lemma_scaled_le_len(len, num, den);
    assert(len * num < len * den) by (nonlinear_arith)
        requires
            0 < len && num < den,
    ;
    assert(len * num / den < len) by (nonlinear_arith)
        requires
            0 < den && len * num < len * den,
    ;
}

pub proof fn lemma_lower_index_in_bounds(len: int, num: int, den: int)
    requires
        0 < len,
        0 < num <= den,
    ensures
        0 <= lower_index(len, num, den) < len,
{
    lemma_scaled_le_len(len, num, den);
}

pub proof fn lemma_higher_index_in_bounds(len: int, num: int, den: int)
    requires
        0 < len,
        0 < num < den,
    ensures
        0 <= higher_index(len, num, den) < len,
{
    lemma_scaled_lt_len(len, num, den);
}

/// `floor(len * num / den)`, computed in a width where the product cannot
/// overflow.
fn scaled_index(len: usize, num: usize, den: usize) -> (r: usize)
    requires
        0 < num <= den,
    ensures
        r == len as int * num as int / den as int,
{
    let len_w: u128 = len as u128;
    let num_w: u128 = num as u128;
    let den_w: u128 = den as u128;
    proof {
        assert(len_w * num_w <= u128::MAX) by (nonlinear_arith)
            requires
                len_w <= 0xffff_ffff_ffff_ffffu128 && num_w <= 0xffff_ffff_ffff_ffffu128,
        ;
        lemma_scaled_le_len_u(len as int, num as int, den as int);
    }
    (len_w * num_w / den_w) as usize
}

proof fn lemma_scaled_le_len_u(len: int, num: int, den: int)
    requires
        0 <= len,
        0 < num <= den,
    ensures
        0 <= len * num / den <= len,
{
    if len > 0 {
        lemma_scaled_le_len(len, num, den);
    } else {
        assert(len * num == 0) by (nonlinear_arith)
            requires
                len == 0,
        ;
    }
}

fn p_lower<T: Copy>(values: &Vec<T>, num: usize, den: usize) -> (r: T)
    requires
        values.len() > 0,
        0 < num <= den,
    ensures
        r == values@[lower_index(values.len() as int, num as int, den as int)],
{
    proof {
        lemma_lower_index_in_bounds(values.len() as int, num as int, den as int);
    }
    let scaled: usize = scaled_index(values.len(), num, den);
    let index: usize = if scaled == 0 {
        0
    } else {
        scaled - 1
    };
    values[index]
}

fn p_higher<T: Copy>(values: &Vec<T>, num: usize, den: usize) -> (r: T)
    requires
        values.len() > 0,
        0 < num < den,
    ensures
        r == values@[higher_index(values.len() as int, num as int, den as int)],
{
    proof {
        lemma_higher_index_in_bounds(values.len() as int, num as int, den as int);
    }
    let scaled: usize = scaled_index(values.len(), num, den);
    let index: usize = if scaled == 0 {
        if values.len() == 1 {
            0
        } else {
            1
        }
    } else {
        scaled
    };
    values[index]
}

/// Returns the 1st percentile of the given values.
/// Avoids the minimum if possible.
pub fn p1<T: Copy>(values: &Vec<T>) -> (r: T)
    requires
        values.len() > 0,
    ensures
        r == values@[p1_index(values.len() as int)],
{
    p_higher(values, 1, 100)
}

/// Returns the 50th percentile of the given values.
/// Avoids the maximum if possible.
pub fn p50<T: Copy>(values: &Vec<T>) -> (r: T)
    requires
        values.len() > 0,
    ensures
        r == values@[p50_index(values.len() as int)],
{
    p_lower(values, 1, 2)
}

/// Returns the 99th percentile of the given values.
/// Avoids the maximum if possible.
pub fn p99<T: Copy>(values: &Vec<T>) -> (r: T)
    requires
        values.len() > 0,
    ensures
        r == values@[p99_index(values.len() as int)],
{
    p_lower(values, 99, 100)
}

pub open spec fn sorted_i64(v: Seq<i64>) -> bool {
    forall|i: int, j: int| 0 <= i <= j < v.len() ==> v[i] <= v[j]
}

/// On a sorted series the higher-biased 1st percentile (the worst near-minimum
/// value) never exceeds the median. This fails for lengths 2 and 3, where the
/// promotion away from the minimum overtakes the pulled-back median index, so
/// those lengths are excluded.
pub proof fn lemma_low_tail_at_most_median(v: Seq<i64>)
    requires
        sorted_i64(v),
        v.len() == 1 || v.len() >= 4,
    ensures
        v[p1_index(v.len() as int)] <= v[p50_index(v.len() as int)],
{
    let len = v.len() as int;
    lemma_higher_index_in_bounds(len, 1, 100);
    lemma_lower_index_in_bounds(len, 1, 2);
    if len >= 4 {
        assert(len / 2 >= 2) by (nonlinear_arith)
            requires
                len >= 4,
        ;
        if len / 100 >= 1 {
            let q = len / 100;
            assert(100 * q <= len) by (nonlinear_arith)
                requires
                    q == len / 100 && len >= 4,
            ;
            lemma_div_is_ordered(100 * q, len, 2);
            assert(100 * q / 2 == 50 * q) by (nonlinear_arith);
            assert(50 * q >= q + 1) by (nonlinear_arith)
                requires
                    q >= 1,
            ;
        }
        assert(p1_index(len) <= p50_index(len));
    }
}

} // verus!
