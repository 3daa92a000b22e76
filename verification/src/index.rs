//! Row-major flat indices of small multi-dimensional coordinates.
use vstd::prelude::*;
use vstd::arithmetic::div_mod::{lemma_fundamental_div_mod, lemma_fundamental_div_mod_converse};

verus! {

/// Flat row-major index of coordinates `(a, b)` in an array whose last dimension is `nb`.
pub open spec fn flat2(a: int, b: int, nb: int) -> int {
    a * nb + b
}

/// Flat row-major index of coordinates `(a, b, c)` in an array whose trailing
/// dimensions are `nb` and `nc`.
pub open spec fn flat3(a: int, b: int, c: int, nb: int, nc: int) -> int {
    (a * nb + b) * nc + c
}

/// Flat row-major index of coordinates `(a, b, c, d)` in an array whose trailing
/// dimensions are `nb`, `nc` and `nd`.
pub open spec fn flat4(a: int, b: int, c: int, d: int, nb: int, nc: int, nd: int) -> int {
    ((a * nb + b) * nc + c) * nd + d
}

/// A flat index of a coordinate inside the bounds lies inside the array.
pub proof fn lemma_flat2_bound(a: int, b: int, na: int, nb: int)
    requires
        0 <= a < na,
        0 <= b < nb,
    ensures
        0 <= flat2(a, b, nb) < na * nb,
        a * nb + nb <= na * nb,
{
    assert((a + 1) * nb <= na * nb) by (nonlinear_arith)
        requires
            a + 1 <= na,
            nb >= 0,
    ;
    assert((a + 1) * nb == a * nb + nb) by (nonlinear_arith);
    assert(0 <= a * nb) by (nonlinear_arith)
        requires
            0 <= a,
            0 <= nb,
    ;
}

pub proof fn lemma_flat3_bound(a: int, b: int, c: int, na: int, nb: int, nc: int)
    requires
        0 <= a < na,
        0 <= b < nb,
        0 <= c < nc,
    ensures
        0 <= flat3(a, b, c, nb, nc) < na * nb * nc,
{
    lemma_flat2_bound(a, b, na, nb);
    lemma_flat2_bound(flat2(a, b, nb), c, na * nb, nc);
}

pub proof fn lemma_flat4_bound(a: int, b: int, c: int, d: int, na: int, nb: int, nc: int, nd: int)
    requires
        0 <= a < na,
        0 <= b < nb,
        0 <= c < nc,
        0 <= d < nd,
    ensures
        0 <= flat4(a, b, c, d, nb, nc, nd) < na * nb * nc * nd,
{
    lemma_flat3_bound(a, b, c, na, nb, nc);
    lemma_flat2_bound(flat3(a, b, c, nb, nc), d, na * nb * nc, nd);
}

/// Splitting a flat index by the last dimension recovers the coordinates.
pub proof fn lemma_split2(a: int, b: int, nb: int)
    requires
        0 <= b < nb,
    ensures
        flat2(a, b, nb) / nb == a,
        flat2(a, b, nb) % nb == b,
{
    lemma_fundamental_div_mod_converse(flat2(a, b, nb), nb, a, b);
}

/// Every index below `na * nb` is the flat index of its quotient and remainder by `nb`.
pub proof fn lemma_join2(k: int, na: int, nb: int)
    requires
        0 <= k < na * nb,
        nb > 0,
    ensures
        0 <= k / nb < na,
        0 <= k % nb < nb,
        k == flat2(k / nb, k % nb, nb),
{
    lemma_fundamental_div_mod(k, nb);
    assert(0 <= k / nb < na && 0 <= k % nb < nb) by (nonlinear_arith)
        requires
            0 <= k < na * nb,
            nb > 0,
            k == nb * (k / nb) + (k % nb),
    ;
    assert(nb * (k / nb) == (k / nb) * nb) by (nonlinear_arith);
}

/// Splitting a three-coordinate flat index recovers the coordinates.
pub proof fn lemma_split3(a: int, b: int, c: int, nb: int, nc: int)
    requires
        0 <= b < nb,
        0 <= c < nc,
    ensures
        flat3(a, b, c, nb, nc) / nc == flat2(a, b, nb),
        flat3(a, b, c, nb, nc) % nc == c,
        (flat3(a, b, c, nb, nc) / nc) / nb == a,
        (flat3(a, b, c, nb, nc) / nc) % nb == b,
{
    lemma_split2(flat2(a, b, nb), c, nc);
    lemma_split2(a, b, nb);
}

/// Every index below `na * nb * nc` is the flat index of the coordinates that
/// its divisions give back.
pub proof fn lemma_join3(k: int, na: int, nb: int, nc: int)
    requires
        0 <= k < na * nb * nc,
        nb > 0,
        nc > 0,
    ensures
        0 <= (k / nc) / nb < na,
        0 <= (k / nc) % nb < nb,
        0 <= k % nc < nc,
        k == flat3((k / nc) / nb, (k / nc) % nb, k % nc, nb, nc),
{
    lemma_join2(k, na * nb, nc);
    lemma_join2(k / nc, na, nb);
}

/// The partial products of a flat index never exceed it.
pub proof fn lemma_flat4_parts(a: int, b: int, c: int, d: int, nb: int, nc: int, nd: int)
    requires
        0 <= a,
        0 <= b < nb,
        0 <= c < nc,
        0 <= d < nd,
    ensures
        0 <= a * nb <= a * nb + b <= (a * nb + b) * nc <= flat3(a, b, c, nb, nc) <= flat3(a, b, c, nb, nc) * nd
            <= flat4(a, b, c, d, nb, nc, nd),
{
    assert(0 <= a * nb <= a * nb + b <= (a * nb + b) * nc <= (a * nb + b) * nc + c <= ((a * nb + b) * nc
        + c) * nd) by (nonlinear_arith)
        requires
            0 <= a,
            0 <= b < nb,
            0 <= c < nc,
            0 <= d < nd,
    ;
}

} // verus!
