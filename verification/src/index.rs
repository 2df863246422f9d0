//! Arithmetic of row-major indices.

use vstd::prelude::*;
use vstd::arithmetic::div_mod::{
    lemma_fundamental_div_mod, lemma_fundamental_div_mod_converse, lemma_mod_bound,
};

verus! {

/// The quotient and remainder of `q * d + r` by `d`, for `r` below `d`.
pub proof fn lemma_split(q: int, d: int, r: int)
    requires
        d > 0,
        0 <= r < d,
    ensures
        (q * d + r) / d == q,
        (q * d + r) % d == r,
{
    assert(q * d + r == d * q + r) by (nonlinear_arith);
    lemma_fundamental_div_mod_converse(q * d + r, d, q, r);
}

/// A natural is its quotient times the divisor and its remainder, and the
/// remainder is below the divisor.
pub proof fn lemma_parts(x: int, d: int)
    requires
        d > 0,
        0 <= x,
    ensures
        x == (x / d) * d + x % d,
        0 <= x % d < d,
        0 <= x / d,
{
    lemma_fundamental_div_mod(x, d);
    lemma_mod_bound(x, d);
    assert(d * (x / d) == (x / d) * d) by (nonlinear_arith);
    assert(x / d >= 0) by (nonlinear_arith)
        requires
            x == (x / d) * d + x % d,
            0 <= x % d < d,
            x >= 0,
            d > 0,
    ;
}

/// The quotient of a natural below `m * d` by `d` is below `m`.
pub proof fn lemma_quotient_below(x: int, d: int, m: int)
    requires
        d > 0,
        0 <= x < m * d,
    ensures
        0 <= x / d < m,
{
    lemma_parts(x, d);
    assert(x / d < m) by (nonlinear_arith)
        requires
            x == (x / d) * d + x % d,
            0 <= x % d,
            x < m * d,
            d > 0,
    ;
}

/// The index `q * d + r`, for `q` below `m` and `r` below `d`, is below
/// `m * d`.
pub proof fn lemma_index_below(q: int, d: int, r: int, m: int)
    requires
        0 <= q < m,
        0 <= r < d,
    ensures
        0 <= q * d + r < m * d,
{
    assert(q * d + r < m * d) by (nonlinear_arith)
        requires
            0 <= q < m,
            0 <= r < d,
    ;
    assert(0 <= q * d) by (nonlinear_arith)
        requires
            0 <= q,
            0 < d,
    ;
}

/// Row `r` of `m` rows of `t` elements lies inside the `m * t` elements.
pub proof fn lemma_row_bounds(r: int, t: int, m: int)
    requires
        0 <= r < m,
        0 <= t,
    ensures
        0 <= r * t,
        r * t + t <= m * t,
        (r + 1) * t == r * t + t,
{
    assert(0 <= r * t) by (nonlinear_arith)
        requires
            0 <= r,
            0 <= t,
    ;
    assert(r * t + t <= m * t) by (nonlinear_arith)
        requires
            r + 1 <= m,
            0 <= t,
    ;
    assert((r + 1) * t == r * t + t) by (nonlinear_arith);
}

} // verus!
