//! Rounding of offsets and lengths to the mapping granularity.
//!
//! Every mapped block must start and, where possible, end at a multiple of
//! the granularity that the mapping layer reports. The two functions here
//! round a length up or down to such a multiple.

use vstd::prelude::*;
use vstd::arithmetic::div_mod::{
    lemma_fundamental_div_mod, lemma_mod_division_less_than_divisor, lemma_mod_multiples_basic,
};

verus! {

/// The smallest multiple of `alignment` that is at least `len`.
pub open spec fn align_up(len: int, alignment: int) -> int
    recommends
        alignment >= 1,
{
    if len % alignment == 0 {
        len
    } else {
        len + (alignment - len % alignment)
    }
}

/// The largest multiple of `alignment` that is at most `len`.
pub open spec fn align_down(len: int, alignment: int) -> int
    recommends
        alignment >= 1,
{
    len - len % alignment
}

pub proof fn lemma_align_up(len: int, alignment: int)
    requires
        alignment >= 1,
        len >= 0,
    ensures
        align_up(len, alignment) % alignment == 0,
        len <= align_up(len, alignment) < len + alignment,
        len % alignment == 0 ==> align_up(len, alignment) == len,
{
    let m = len % alignment;
    let q = len / alignment;
    lemma_mod_division_less_than_divisor(len, alignment);
    lemma_fundamental_div_mod(len, alignment);
    if m != 0 {
        assert(len + (alignment - m) == (q + 1) * alignment) by {
            assert(len == alignment * q + m);
            assert((q + 1) * alignment == q * alignment + alignment) by (nonlinear_arith);
            assert(alignment * q == q * alignment) by (nonlinear_arith);
        }
        lemma_mod_multiples_basic(q + 1, alignment);
    }
}

pub proof fn lemma_align_down(len: int, alignment: int)
    requires
        alignment >= 1,
        len >= 0,
    ensures
        align_down(len, alignment) % alignment == 0,
        len - alignment < align_down(len, alignment) <= len,
        len % alignment == 0 ==> align_down(len, alignment) == len,
{
    let m = len % alignment;
    let q = len / alignment;
    lemma_mod_division_less_than_divisor(len, alignment);
    lemma_fundamental_div_mod(len, alignment);
    assert(len - m == alignment * q);
    assert(alignment * q == q * alignment) by (nonlinear_arith);
    lemma_mod_multiples_basic(q, alignment);
}

/// Rounds `len` up to the alignment.
pub fn align_add(len: usize, alignment: usize) -> (r: usize)
    requires
        alignment >= 1,
        align_up(len as int, alignment as int) <= usize::MAX,
    ensures
        r == align_up(len as int, alignment as int),
        r % alignment == 0,
        len <= r < len + alignment,
{
    proof {
        lemma_align_up(len as int, alignment as int);
    }
    let offset = len % alignment;
    if offset > 0 {
        len + (alignment - offset)
    } else {
        len
    }
}

/// Rounds `len` down to the alignment.
pub fn align_sub(len: usize, alignment: usize) -> (r: usize)
    requires
        alignment >= 1,
    ensures
        r == align_down(len as int, alignment as int),
        r % alignment == 0,
        r <= len,
{
    proof {
        lemma_align_down(len as int, alignment as int);
    }
    let factor = len / alignment;
    assert(factor * alignment == len - len % alignment) by {
        lemma_fundamental_div_mod(len as int, alignment as int);
        assert((alignment as int) * (len as int / alignment as int) == (len as int
            / alignment as int) * (alignment as int)) by (nonlinear_arith);
    }
    factor * alignment
}

} // verus!
