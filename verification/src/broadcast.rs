//! Numpy-style broadcasting of shapes, and the index maps that read a tensor
//! as if it had a larger, broadcast shape.
use vstd::prelude::*;

use crate::shape::{
    all_positive, checked_numel, lemma_positive_size_dims, lemma_prefix_positive, lemma_size_split,
    lemma_strides_fit_of_size, lemma_suffix_step, shape_size, strides_fit, strides_row_major,
    suffix_size,
};

verus! {

/// The dimension of `s` that stands `r` places from the right; 1 past its left end.
pub open spec fn dim_from_right(s: Seq<usize>, r: int) -> usize {
    if r < s.len() {
        s[s.len() - 1 - r]
    } else {
        1
    }
}

pub open spec fn max_usize(x: usize, y: usize) -> usize {
    if x >= y {
        x
    } else {
        y
    }
}

pub open spec fn broadcast_rank(a: Seq<usize>, b: Seq<usize>) -> int {
    if a.len() >= b.len() {
        a.len() as int
    } else {
        b.len() as int
    }
}

/// Two shapes broadcast together when, aligned on the right, each pair of
/// dimensions is equal or one of them is 1.
pub open spec fn broadcast_compatible(a: Seq<usize>, b: Seq<usize>) -> bool {
    forall|r: int|
        0 <= r < broadcast_rank(a, b) ==> {
            let da = #[trigger] dim_from_right(a, r);
            let db = dim_from_right(b, r);
            da == db || da == 1 || db == 1
        }
}

/// The broadcast shape: right-aligned, the larger of each pair of dimensions.
pub open spec fn broadcast_result(a: Seq<usize>, b: Seq<usize>) -> Seq<usize> {
    let n = broadcast_rank(a, b);
    Seq::new(
        n as nat,
        |k: int| max_usize(dim_from_right(a, n - 1 - k), dim_from_right(b, n - 1 - k)),
    )
}

/// A tensor of shape `src` can be read as one of shape `out`: `src` has no more
/// dimensions, and right-aligned each of its dimensions is 1 or equal to `out`'s.
pub open spec fn broadcasts_to(src: Seq<usize>, out: Seq<usize>) -> bool {
    &&& src.len() <= out.len()
    &&& forall|k: int|
        0 <= k < src.len() ==> #[trigger] src[k] == 1 || src[k] == out[out.len() - src.len() + k]
}

/// The row-major flat index into `src` read at the row-major flat position `i` of
/// `out`: the coordinates of `i` in `out`, keeping the trailing `src.len()` of them
/// and setting those of size-1 dimensions of `src` to 0.
pub open spec fn broadcast_source(i: int, out: Seq<usize>, src: Seq<usize>) -> int
    decreases src.len(),
{
    if src.len() == 0 || out.len() == 0 {
        0
    } else {
        let o = out.last() as int;
        let s = src.last() as int;
        broadcast_source(i / o, out.drop_last(), src.drop_last()) * s + (if s == 1 {
            0
        } else {
            i % o
        })
    }
}

/// The broadcast stride of dimension `d` of `target`: 0 for the leading
/// dimensions that `shape` lacks and for its size-1 dimensions, else the
/// row-major stride of `shape`.
pub open spec fn broadcast_stride(shape: Seq<usize>, target_rank: int, d: int) -> nat {
    let offset = target_rank - shape.len();
    if d < offset {
        0
    } else if shape[d - offset] == 1 {
        0
    } else {
        suffix_size(shape, d - offset + 1)
    }
}

/// Right-aligned, a zero dimension of either shape faces a zero dimension of the
/// other: the one pairing that broadcasts together but whose broadcast dimension
/// (the larger, 1) the empty side cannot be read at, is a 0 facing a 1.
pub open spec fn zeros_aligned(a: Seq<usize>, b: Seq<usize>) -> bool {
    forall|r: int|
        0 <= r < broadcast_rank(a, b) ==> (#[trigger] dim_from_right(a, r) == 0 <==> dim_from_right(b, r) == 0)
}

/// Both operands of a broadcast can be read at the broadcast shape, unless a
/// zero dimension faces a dimension of 1.
pub proof fn law_broadcast_operands_readable(a: Seq<usize>, b: Seq<usize>)
    requires
        broadcast_compatible(a, b),
        zeros_aligned(a, b),
    ensures
        broadcasts_to(a, broadcast_result(a, b)),
        broadcasts_to(b, broadcast_result(a, b)),
{
    let out = broadcast_result(a, b);
    let n = broadcast_rank(a, b);
    assert forall|k: int| 0 <= k < a.len() implies #[trigger] a[k] == 1 || a[k] == out[out.len()
        - a.len() + k] by {
        let r = a.len() - 1 - k;
        assert(dim_from_right(a, r) == a[k]);
        assert(out[n - 1 - r] == max_usize(dim_from_right(a, r), dim_from_right(b, r)));
    }
    assert forall|k: int| 0 <= k < b.len() implies #[trigger] b[k] == 1 || b[k] == out[out.len()
        - b.len() + k] by {
        let r = b.len() - 1 - k;
        assert(dim_from_right(b, r) == b[k]);
        assert(out[n - 1 - r] == max_usize(dim_from_right(a, r), dim_from_right(b, r)));
    }
}

/// Reading a tensor at its own shape is the identity: the broadcast read of shape
/// `s` at shape `s` takes position `i` from index `i`.
pub proof fn lemma_broadcast_source_identity(i: int, s: Seq<usize>)
    requires
        0 <= i < shape_size(s),
    ensures
        broadcast_source(i, s, s) == i,
    decreases s.len(),
{
    if s.len() > 0 {
        let o = s.last() as int;
        let p = shape_size(s.drop_last()) as int;
        assert(shape_size(s) == p * o);
        assert(o > 0 && i / o < p) by (nonlinear_arith)
            requires
                0 <= i < p * o,
                p >= 0,
                o >= 0,
        ;
        lemma_broadcast_source_identity(i / o, s.drop_last());
        assert(i == (i / o) * o + i % o) by (nonlinear_arith)
            requires
                o > 0,
        ;
        if o == 1 {
            assert(i % o == 0) by (nonlinear_arith)
                requires
                    o == 1,
            ;
        }
    }
}

/// A broadcast read stays inside the source tensor.
pub proof fn lemma_broadcast_source_bound(i: int, out: Seq<usize>, src: Seq<usize>)
    requires
        broadcasts_to(src, out),
        0 <= i < shape_size(out),
    ensures
        0 <= broadcast_source(i, out, src) < shape_size(src),
    decreases src.len(),
{
    if src.len() > 0 {
        let o = out.last() as int;
        let s = src.last() as int;
        let po = shape_size(out.drop_last()) as int;
        let ps = shape_size(src.drop_last()) as int;
        assert(shape_size(out) == po * o);
        assert(shape_size(src) == ps * s);
        assert(o > 0 && i / o < po && 0 <= i / o && 0 <= i % o < o) by (nonlinear_arith)
            requires
                0 <= i < po * o,
                po >= 0,
                o >= 0,
        ;
        assert(src[src.len() - 1] == 1 || src[src.len() - 1] == out[out.len() - src.len()
            + src.len() - 1]);
        let src2 = src.drop_last();
        let out2 = out.drop_last();
        assert forall|k: int| 0 <= k < src2.len() implies #[trigger] src2[k] == 1 || src2[k]
            == out2[out2.len() - src2.len() + k] by {
            assert(src[k] == 1 || src[k] == out[out.len() - src.len() + k]);
        }
        lemma_broadcast_source_bound(i / o, out2, src2);
        let f = broadcast_source(i / o, out2, src2);
        let digit = if s == 1 {
            0
        } else {
            i % o
        };
        assert(0 <= digit < s);
        assert(0 <= f * s + digit < ps * s) by (nonlinear_arith)
            requires
                0 <= f < ps,
                0 <= digit < s,
        ;
    }
}

/// Whether two shapes broadcast together.
pub fn broadcastable(a: &[usize], b: &[usize]) -> (r: bool)
    ensures
        r == broadcast_compatible(a@, b@),
{
    let rank = if a.len() >= b.len() {
        a.len()
    } else {
        b.len()
    };
    let mut i: usize = 0;
    while i < rank
        invariant
            rank == broadcast_rank(a@, b@),
            i <= rank,
            forall|r: int|
                0 <= r < i ==> {
                    let da = #[trigger] dim_from_right(a@, r);
                    let db = dim_from_right(b@, r);
                    da == db || da == 1 || db == 1
                },
        decreases rank - i,
    {
        let da = if i < a.len() {
            a[a.len() - 1 - i]
        } else {
            1
        };
        let db = if i < b.len() {
            b[b.len() - 1 - i]
        } else {
            1
        };
        assert(da == dim_from_right(a@, i as int));
        assert(db == dim_from_right(b@, i as int));
        if !(da == db || da == 1 || db == 1) {
            return false;
        }
        i = i + 1;
    }
    true
}

/// The shape that two shapes that broadcast together broadcast to.
pub fn broadcast_shape(a: &[usize], b: &[usize]) -> (out: Vec<usize>)
    requires
        broadcast_compatible(a@, b@),
    ensures
        out@ == broadcast_result(a@, b@),
{
    let rank = if a.len() >= b.len() {
        a.len()
    } else {
        b.len()
    };
    let mut out: Vec<usize> = vec![1usize; rank];
    let mut i: usize = 0;
    while i < rank
        invariant
            rank == broadcast_rank(a@, b@),
            i <= rank,
            out.len() == rank,
            forall|r: int|
                0 <= r < i ==> out[rank - 1 - r] == max_usize(
                    #[trigger] dim_from_right(a@, r),
                    dim_from_right(b@, r),
                ),
        decreases rank - i,
    {
        let da = if i < a.len() {
            a[a.len() - 1 - i]
        } else {
            1
        };
        let db = if i < b.len() {
            b[b.len() - 1 - i]
        } else {
            1
        };
        assert(da == dim_from_right(a@, i as int));
        assert(db == dim_from_right(b@, i as int));
        let m = if da >= db {
            da
        } else {
            db
        };
        out.set(rank - 1 - i, m);
        i = i + 1;
    }
    let ghost expect = broadcast_result(a@, b@);
    assert forall|k: int| 0 <= k < rank implies out@[k] == expect[k] by {
        let r = rank - 1 - k;
        assert(dim_from_right(a@, r) == dim_from_right(a@, r));
    }
    assert(out@ =~= expect);
    out
}

/// Broadcast strides of `shape` read as a tensor of rank `target.len()`.
pub fn broadcast_strides(shape: &[usize], target: &[usize]) -> (strides: Vec<usize>)
    requires
        shape.len() <= target.len(),
        strides_fit(shape@),
    ensures
        strides.len() == target.len(),
        forall|d: int|
            0 <= d < target.len() ==> #[trigger] strides[d] == broadcast_stride(
                shape@,
                target.len() as int,
                d,
            ),
{
    let own = strides_row_major(shape);
    let rank = target.len();
    let offset = rank - shape.len();
    let mut strides: Vec<usize> = vec![0usize; rank];
    let mut i: usize = 0;
    while i < shape.len()
        invariant
            own.len() == shape.len(),
            forall|j: int| 0 <= j < shape.len() ==> #[trigger] own[j] == suffix_size(shape@, j + 1),
            rank == target.len(),
            offset == rank - shape.len(),
            i <= shape.len(),
            strides.len() == rank,
            forall|d: int|
                0 <= d < rank ==> #[trigger] strides[d] == (if offset <= d < offset + i {
                    broadcast_stride(shape@, rank as int, d)
                } else {
                    0
                }),
        decreases shape.len() - i,
    {
        if shape[i] != 1 {
            strides.set(offset + i, own[i]);
        }
        i = i + 1;
    }
    strides
}

/// The flat index into `src` read at flat position `i` of `out`, from the
/// broadcast strides of `src`.
fn broadcast_source_index(i: usize, out: &[usize], src: &[usize], strides: &Vec<usize>) -> (r: usize)
    requires
        broadcasts_to(src@, out@),
        i < shape_size(out@),
        shape_size(out@) <= usize::MAX,
        strides.len() == out.len(),
        forall|d: int|
            0 <= d < out.len() ==> #[trigger] strides[d] == broadcast_stride(
                src@,
                out.len() as int,
                d,
            ),
    ensures
        r == broadcast_source(i as int, out@, src@),
{
    let n = out.len();
    let offset = n - src.len();
    let ghost final_index = broadcast_source(i as int, out@, src@);
    proof {
        lemma_broadcast_source_bound(i as int, out@, src@);
        lemma_positive_size_dims(out@);
        assert(shape_size(src@) <= usize::MAX) by {
            lemma_positive_size_dims(src@);
            assert forall|k: int| 0 <= k < src.len() implies #[trigger] src@[k] > 0 by {
                assert(src@[k] == 1 || src@[k] == out@[out.len() - src.len() + k]);
            }
            lemma_broadcast_size_le(out@, src@);
        }
        assert(out@.subrange(0, n as int) =~= out@);
        assert(src@.subrange(0, src.len() as int) =~= src@);
        assert(src@.subrange(src.len() as int, src.len() as int) =~= Seq::<usize>::empty());
        assert(shape_size(Seq::<usize>::empty()) == 1);
        let one = suffix_size(src@, src.len() as int);
        assert(one == 1);
        assert(final_index * one == final_index) by (nonlinear_arith)
            requires
                one == 1,
        ;
    }
    let mut rem: usize = i;
    let mut acc: usize = 0;
    let mut d: usize = n;
    while d > 0
        invariant
            n == out.len(),
            offset == n - src.len(),
            offset <= n,
            d <= n,
            strides.len() == n,
            forall|e: int|
                0 <= e < n ==> #[trigger] strides[e] == broadcast_stride(src@, n as int, e),
            all_positive(out@),
            0 <= final_index < shape_size(src@) <= usize::MAX,
            final_index == broadcast_source(
                rem as int,
                out@.subrange(0, d as int),
                src@.subrange(0, (if d > offset { d - offset } else { 0 }) as int),
            ) * suffix_size(src@, (if d > offset { d - offset } else { 0 }) as int) + acc,
        decreases d,
    {
        let ghost sd: int = if d > offset {
            (d - offset) as int
        } else {
            0
        };
        let ghost sd2: int = if d - 1 > offset {
            (d - 1 - offset) as int
        } else {
            0
        };
        let ghost op = out@.subrange(0, d as int);
        let ghost sp = src@.subrange(0, sd);
        let od = out[d - 1];
        assert(od > 0);
        let c = rem % od;
        let next_rem = rem / od;
        proof {
            assert(op.drop_last() =~= out@.subrange(0, d - 1));
            assert(op.last() == od);
            let mult = suffix_size(src@, sd);
            if d > offset {
                assert(sp.drop_last() =~= src@.subrange(0, sd2));
                assert(sp.last() == src@[sd - 1]);
                lemma_suffix_step(src@, sd - 1);
                let s = src@[sd - 1] as int;
                let f = broadcast_source(next_rem as int, out@.subrange(0, d - 1), src@.subrange(0, sd2));
                let digit: int = if s == 1 {
                    0
                } else {
                    c as int
                };
                assert(broadcast_source(rem as int, op, sp) == f * s + digit);
                assert(strides[d - 1] == (if s == 1 {
                    0
                } else {
                    mult
                }));
                assert((f * s + digit) * mult + acc == f * (s * mult) + (digit * mult + acc))
                    by (nonlinear_arith);
                assert(suffix_size(src@, sd2) == s * mult);
                lemma_broadcast_source_nonneg(next_rem as int, out@.subrange(0, d - 1), src@.subrange(0, sd2));
                assert(f * (s * mult) >= 0) by (nonlinear_arith)
                    requires
                        f >= 0,
                        s >= 0,
                        mult >= 0,
                ;
                assert(c * strides[d - 1] == digit * mult);
            } else {
                assert(sp =~= Seq::<usize>::empty());
                assert(src@.subrange(0, sd2) =~= Seq::<usize>::empty());
                assert(strides[d - 1] == 0);
                let z = strides[d - 1] as int;
                assert(c * z == 0) by (nonlinear_arith)
                    requires
                        z == 0,
                ;
            }
        }
        acc = acc + c * strides[d - 1];
        rem = next_rem;
        d = d - 1;
    }
    proof {
        assert(out@.subrange(0, 0) =~= Seq::<usize>::empty());
    }
    acc
}

pub proof fn lemma_broadcast_source_nonneg(i: int, out: Seq<usize>, src: Seq<usize>)
    requires
        i >= 0,
        all_positive(out),
    ensures
        broadcast_source(i, out, src) >= 0,
    decreases src.len(),
{
    if src.len() > 0 && out.len() > 0 {
        let o = out.last() as int;
        assert(out[out.len() - 1] > 0);
        assert(i / o >= 0 && i % o >= 0) by (nonlinear_arith)
            requires
                i >= 0,
                o > 0,
        ;
        let out2 = out.drop_last();
        assert forall|k: int| 0 <= k < out2.len() implies #[trigger] out2[k] > 0 by {
            assert(out[k] > 0);
        }
        lemma_broadcast_source_nonneg(i / o, out2, src.drop_last());
        let f = broadcast_source(i / o, out2, src.drop_last());
        let s = src.last() as int;
        assert(f * s >= 0) by (nonlinear_arith)
            requires
                f >= 0,
                s >= 0,
        ;
    }
}

/// With no zero dimension, a shape that broadcasts to `out` has no more elements.
pub proof fn lemma_broadcast_size_le(out: Seq<usize>, src: Seq<usize>)
    requires
        broadcasts_to(src, out),
        all_positive(out),
        all_positive(src),
    ensures
        shape_size(src) <= shape_size(out),
    decreases src.len(),
{
    if src.len() == 0 {
        lemma_prefix_positive(out, out.len() as int);
        assert(out.subrange(0, out.len() as int) =~= out);
    } else {
        let out2 = out.drop_last();
        let src2 = src.drop_last();
        assert forall|k: int| 0 <= k < src2.len() implies #[trigger] src2[k] == 1 || src2[k]
            == out2[out2.len() - src2.len() + k] by {
            assert(src[k] == 1 || src[k] == out[out.len() - src.len() + k]);
        }
        assert forall|k: int| 0 <= k < out2.len() implies #[trigger] out2[k] > 0 by {
            assert(out[k] > 0);
        }
        assert forall|k: int| 0 <= k < src2.len() implies #[trigger] src2[k] > 0 by {
            assert(src[k] > 0);
        }
        lemma_broadcast_size_le(out2, src2);
        let a = shape_size(src2);
        let b = shape_size(out2);
        let s = src.last() as nat;
        let o = out.last() as nat;
        assert(src[src.len() - 1] == 1 || src[src.len() - 1] == out[out.len() - 1]);
        assert(out[out.len() - 1] > 0);
        assert(s <= o);
        assert(a * s <= b * o) by (nonlinear_arith)
            requires
                a <= b,
                s <= o,
        ;
    }
}

/// For each flat position of `out`, the flat index into `src` that a broadcast
/// read of `src` at shape `out` takes; `None` when `out` has elements but `src`
/// cannot be read at shape `out`.
pub fn broadcast_index_map(out: &[usize], src: &[usize]) -> (map: Option<Vec<usize>>)
    requires
        src.len() <= out.len(),
        shape_size(out@) <= usize::MAX,
    ensures
        map is Some <==> (broadcasts_to(src@, out@) || shape_size(out@) == 0),
        map matches Some(m) ==> {
            &&& m.len() == shape_size(out@)
            &&& forall|i: int|
                0 <= i < m.len() ==> #[trigger] m[i] == broadcast_source(i, out@, src@) && m[i]
                    < shape_size(src@)
            &&& src@ == out@ ==> forall|i: int| 0 <= i < m.len() ==> #[trigger] m[i] == i
        },
{
    let mut map: Vec<usize> = Vec::new();
    let total = match checked_numel(out) {
        Some(t) => t,
        None => {
            proof {
                if shape_size(out@) > 0 {
                    lemma_positive_size_dims(out@);
                    assert forall|k: int| 0 <= k <= out.len() implies #[trigger] shape_size(
                        out@.subrange(0, k),
                    ) <= usize::MAX by {
                        lemma_size_split(out@, k);
                        lemma_suffix_positive(out@, k);
                        let p = shape_size(out@.subrange(0, k));
                        let q = suffix_size(out@, k);
                        assert(q >= 1 ==> p <= p * q) by (nonlinear_arith);
                    }
                }
            }
            return Some(map);
        },
    };
    if total == 0 {
        return Some(map);
    }
    if !reads_as(src, out) {
        return None;
    }
    proof {
        lemma_positive_size_dims(out@);
        assert forall|k: int| 0 <= k < src.len() implies #[trigger] src@[k] > 0 by {
            assert(src@[k] == 1 || src@[k] == out@[out.len() - src.len() + k]);
        }
        lemma_broadcast_size_le(out@, src@);
        lemma_prefix_positive(src@, src.len() as int);
        assert(src@.subrange(0, src.len() as int) =~= src@);
        lemma_strides_fit_of_size(src@);
    }
    let strides = broadcast_strides(src, out);
    let mut i: usize = 0;
    while i < total
        invariant
            total == shape_size(out@),
            total <= usize::MAX,
            broadcasts_to(src@, out@),
            i <= total,
            map.len() == i,
            strides.len() == out.len(),
            forall|d: int|
                0 <= d < out.len() ==> #[trigger] strides[d] == broadcast_stride(
                    src@,
                    out.len() as int,
                    d,
                ),
            forall|j: int|
                0 <= j < i ==> #[trigger] map[j] == broadcast_source(j, out@, src@) && map[j]
                    < shape_size(src@),
        decreases total - i,
    {
        let r = broadcast_source_index(i, out, src, &strides);
        proof {
            lemma_broadcast_source_bound(i as int, out@, src@);
        }
        map.push(r);
        i = i + 1;
    }
    proof {
        if src@ == out@ {
            assert forall|i: int| 0 <= i < map.len() implies #[trigger] map[i] == i by {
                lemma_broadcast_source_identity(i, out@);
            }
        }
    }
    Some(map)
}

/// Whether a tensor of shape `src` can be read at shape `out`.
pub fn reads_as(src: &[usize], out: &[usize]) -> (r: bool)
    ensures
        r == broadcasts_to(src@, out@),
{
    if src.len() > out.len() {
        return false;
    }
    let offset = out.len() - src.len();
    let mut k: usize = 0;
    while k < src.len()
        invariant
            src.len() <= out.len(),
            offset == out.len() - src.len(),
            k <= src.len(),
            forall|j: int| 0 <= j < k ==> #[trigger] src@[j] == 1 || src@[j] == out@[out.len() - src.len() + j],
        decreases src.len() - k,
    {
        if !(src[k] == 1 || src[k] == out[offset + k]) {
            return false;
        }
        k = k + 1;
    }
    true
}

pub proof fn lemma_suffix_positive(s: Seq<usize>, k: int)
    requires
        0 <= k <= s.len(),
        all_positive(s),
    ensures
        suffix_size(s, k) >= 1,
{
    let t = s.subrange(k, s.len() as int);
    assert forall|j: int| 0 <= j < t.len() implies #[trigger] t[j] > 0 by {
        assert(s[k + j] > 0);
    }
    lemma_prefix_positive(t, t.len() as int);
    assert(t.subrange(0, t.len() as int) =~= t);
}

/// Broadcasting is symmetric: two shapes broadcast together in either order,
/// and to the same shape.
pub proof fn law_broadcast_symmetric(a: Seq<usize>, b: Seq<usize>)
    ensures
        broadcast_compatible(a, b) == broadcast_compatible(b, a),
        broadcast_result(a, b) == broadcast_result(b, a),
{
    assert(broadcast_rank(a, b) == broadcast_rank(b, a));
    assert(broadcast_result(a, b) =~= broadcast_result(b, a));
}

/// Two shapes broadcast together exactly when, aligned on their last
/// dimensions, every pair of dimensions that both shapes have is equal or has a
/// 1 in it; the dimensions that only the longer shape has never stand in the way.
pub proof fn law_broadcast_rule(a: Seq<usize>, b: Seq<usize>)
    ensures
        broadcast_compatible(a, b) <==> forall|i: int, j: int|
            #![trigger a[i], b[j]]
            0 <= i < a.len() && 0 <= j < b.len() && a.len() - i == b.len() - j ==> a[i] == b[j] || a[i]
                == 1 || b[j] == 1,
{
    if broadcast_compatible(a, b) {
        assert forall|i: int, j: int|
            #![trigger a[i], b[j]]
            0 <= i < a.len() && 0 <= j < b.len() && a.len() - i == b.len() - j implies a[i] == b[j]
                || a[i] == 1 || b[j] == 1 by {
            let r = a.len() - 1 - i;
            assert(dim_from_right(a, r) == a[i]);
            assert(dim_from_right(b, r) == b[j]);
        }
    }
    if forall|i: int, j: int|
        #![trigger a[i], b[j]]
        0 <= i < a.len() && 0 <= j < b.len() && a.len() - i == b.len() - j ==> a[i] == b[j] || a[i]
            == 1 || b[j] == 1 {
        assert forall|r: int| 0 <= r < broadcast_rank(a, b) implies {
            let da = #[trigger] dim_from_right(a, r);
            let db = dim_from_right(b, r);
            da == db || da == 1 || db == 1
        } by {
            if r < a.len() && r < b.len() {
                let i = a.len() - 1 - r;
                let j = b.len() - 1 - r;
                assert(a[i] == b[j] || a[i] == 1 || b[j] == 1);
            }
        }
    }
}

/// A shape broadcasts with itself with its last dimension set to 1, to itself
/// when that dimension is not 0.
pub proof fn law_broadcast_unit_last(a: Seq<usize>)
    requires
        a.len() > 0,
    ensures
        broadcast_compatible(a, a.update(a.len() - 1, 1)),
        a.last() > 0 ==> broadcast_result(a, a.update(a.len() - 1, 1)) == a,
{
    let b = a.update(a.len() - 1, 1);
    law_broadcast_rule(a, b);
    assert forall|i: int, j: int|
        #![trigger a[i], b[j]]
        0 <= i < a.len() && 0 <= j < b.len() && a.len() - i == b.len() - j implies a[i] == b[j] || a[i]
            == 1 || b[j] == 1 by {
        assert(i == j);
    }
    if a.last() > 0 {
        assert(broadcast_result(a, b) =~= a);
    }
}

/// A shape broadcast with itself is unchanged.
pub proof fn law_broadcast_self(a: Seq<usize>)
    ensures
        broadcast_compatible(a, a),
        broadcast_result(a, a) == a,
{
    assert(broadcast_result(a, a) =~= a);
}

} // verus!
