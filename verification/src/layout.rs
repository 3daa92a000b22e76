//! Transposes of row-major buffers.
use vstd::prelude::*;

use crate::index::{flat2, flat3, lemma_flat3_bound, lemma_join2, lemma_split2};

verus! {

/// `out` holds `data` with its two leading axes swapped: `data` is laid out as
/// `[first, second, tail]` and `out` as `[second, first, tail]`.
pub open spec fn is_axes_swap<T>(out: Seq<T>, data: Seq<T>, first: int, second: int, tail: int) -> bool {
    &&& data.len() == first * second * tail
    &&& out.len() == data.len()
    &&& forall|i: int, j: int, t: int|
        0 <= i < first && 0 <= j < second && 0 <= t < tail ==> #[trigger] out[flat3(j, i, t, first, tail)]
            == data[flat3(i, j, t, second, tail)]
}

/// The position in the `[first, second, tail]` source buffer of the element at
/// flat position `k` of the `[second, first, tail]` swapped buffer.
pub open spec fn swap_source(k: int, first: int, second: int, tail: int) -> int {
    flat3((k / tail) % first, (k / tail) / first, k % tail, second, tail)
}

proof fn lemma_swap_source_bound(k: int, first: int, second: int, tail: int)
    requires
        0 <= k < first * second * tail,
        first >= 0,
        second >= 0,
        tail >= 0,
    ensures
        0 <= swap_source(k, first, second, tail) < first * second * tail,
        0 <= (k / tail) % first < first,
        0 <= (k / tail) / first < second,
        0 <= k % tail < tail,
{
    assert(tail > 0 && first > 0 && second > 0) by (nonlinear_arith)
        requires
            0 <= k < first * second * tail,
            first >= 0,
            second >= 0,
            tail >= 0,
    ;
    lemma_join2(k, first * second, tail);
    let q = k / tail;
    assert(second * first == first * second) by (nonlinear_arith);
    lemma_join2(q, second, first);
    lemma_flat3_bound((k / tail) % first, (k / tail) / first, k % tail, first, second, tail);
}

proof fn lemma_swap_source_at(i: int, j: int, t: int, first: int, second: int, tail: int)
    requires
        0 <= i < first,
        0 <= j < second,
        0 <= t < tail,
    ensures
        swap_source(flat3(j, i, t, first, tail), first, second, tail) == flat3(i, j, t, second, tail),
        0 <= flat3(j, i, t, first, tail) < first * second * tail,
{
    lemma_split2(flat2(j, i, first), t, tail);
    lemma_split2(j, i, first);
    lemma_flat3_bound(j, i, t, second, first, tail);
    assert(second * first * tail == first * second * tail) by (nonlinear_arith);
}

/// Swaps the two leading axes of a row-major `[first, second, tail]` buffer,
/// giving a `[second, first, tail]` buffer.
pub fn swap_leading_axes<T: Copy>(data: &[T], first: usize, second: usize, tail: usize) -> (out: Vec<T>)
    requires
        data.len() == first * second * tail,
    ensures
        is_axes_swap(out@, data@, first as int, second as int, tail as int),
{
    let n = data.len();
    let mut out: Vec<T> = Vec::with_capacity(n);
    let mut k: usize = 0;
    while k < n
        invariant
            n == data.len(),
            n == first * second * tail,
            k <= n,
            out.len() == k,
            forall|m: int|
                0 <= m < k ==> #[trigger] out[m] == data[swap_source(
                    m,
                    first as int,
                    second as int,
                    tail as int,
                )],
        decreases n - k,
    {
        proof {
            lemma_swap_source_bound(k as int, first as int, second as int, tail as int);
        }
        let u = k % tail;
        let q = k / tail;
        let i = q % first;
        let j = q / first;
        proof {
            let s = swap_source(k as int, first as int, second as int, tail as int);
            assert(s == (i * second + j) * tail + u);
            assert(i * second <= i * second + j <= (i * second + j) * tail <= s) by (nonlinear_arith)
                requires
                    j >= 0,
                    i >= 0,
                    second >= 0,
                    tail >= 1,
                    u >= 0,
                    s == (i * second + j) * tail + u,
            ;
        }
        let src = (i * second + j) * tail + u;
        out.push(data[src]);
        k = k + 1;
    }
    proof {
        assert forall|i: int, j: int, t: int|
            0 <= i < first && 0 <= j < second && 0 <= t < tail implies #[trigger] out@[flat3(
                j,
                i,
                t,
                first as int,
                tail as int,
            )] == data@[flat3(i, j, t, second as int, tail as int)] by {
            lemma_swap_source_at(i, j, t, first as int, second as int, tail as int);
        }
    }
    out
}

/// Transposes a row-major `rows x cols` matrix into a `cols x rows` one.
pub fn transpose_matrix<T: Copy>(data: &[T], rows: usize, cols: usize) -> (out: Vec<T>)
    requires
        data.len() == rows * cols,
    ensures
        is_axes_swap(out@, data@, rows as int, cols as int, 1),
{
    assert(rows * cols * 1 == rows * cols) by (nonlinear_arith);
    swap_leading_axes(data, rows, cols, 1)
}

/// Swapping the leading axes back undoes the swap: a transpose of a transpose is
/// the buffer it started from.
pub proof fn law_swap_twice_is_identity<T>(
    data: Seq<T>,
    once: Seq<T>,
    twice: Seq<T>,
    first: int,
    second: int,
    tail: int,
)
    requires
        first >= 0,
        second >= 0,
        tail >= 0,
        is_axes_swap(once, data, first, second, tail),
        is_axes_swap(twice, once, second, first, tail),
    ensures
        twice == data,
{
    assert forall|k: int| 0 <= k < data.len() implies twice[k] == data[k] by {
        assert(second * first * tail == first * second * tail) by (nonlinear_arith);
        lemma_swap_source_bound(k, second, first, tail);
        let i = (k / tail) / second;
        let j = (k / tail) % second;
        let t = k % tail;
        lemma_join2(k, second * first, tail);
        lemma_join2(k / tail, first, second);
        assert(k == flat3(i, j, t, second, tail));
        assert(twice[flat3(i, j, t, second, tail)] == once[flat3(j, i, t, first, tail)]);
        assert(once[flat3(j, i, t, first, tail)] == data[flat3(i, j, t, second, tail)]);
    }
    assert(twice =~= data);
}

} // verus!
