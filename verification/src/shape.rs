//! Shapes of row-major tensors: element counts and strides.
use vstd::prelude::*;

verus! {

/// Number of elements of a tensor of the given shape (the empty shape holds one element).
pub open spec fn shape_size(shape: Seq<usize>) -> nat
    decreases shape.len(),
{
    if shape.len() == 0 {
        1
    } else {
        shape_size(shape.drop_last()) * (shape.last() as nat)
    }
}

/// Number of elements spanned by the dimensions of `shape` from position `k` on:
/// the row-major stride of dimension `k - 1`.
pub open spec fn suffix_size(shape: Seq<usize>, k: int) -> nat {
    shape_size(shape.subrange(k, shape.len() as int))
}

/// Every partial product met while multiplying the dimensions from left to right
/// fits in a `usize`.
pub open spec fn prefix_sizes_fit(shape: Seq<usize>) -> bool {
    forall|k: int| 0 <= k <= shape.len() ==> #[trigger] shape_size(shape.subrange(0, k)) <= usize::MAX
}

/// Every row-major stride of the shape fits in a `usize`.
pub open spec fn strides_fit(shape: Seq<usize>) -> bool {
    forall|k: int| 1 <= k <= shape.len() ==> #[trigger] suffix_size(shape, k) <= usize::MAX
}

/// Every dimension is nonzero.
pub open spec fn all_positive(shape: Seq<usize>) -> bool {
    forall|k: int| 0 <= k < shape.len() ==> #[trigger] shape[k] > 0
}

pub proof fn lemma_size_concat(a: Seq<usize>, b: Seq<usize>)
    ensures
        shape_size(a + b) == shape_size(a) * shape_size(b),
    decreases b.len(),
{
    if b.len() == 0 {
        assert(a + b =~= a);
        assert(shape_size(b) == 1);
        assert(shape_size(a + b) == shape_size(a));
    } else {
        lemma_size_concat(a, b.drop_last());
        assert((a + b).drop_last() =~= a + b.drop_last());
        assert((a + b).last() == b.last());
        assert(shape_size(b) == shape_size(b.drop_last()) * (b.last() as nat));
        assert(shape_size(a + b) == shape_size(a + b.drop_last()) * (b.last() as nat));
        let x = shape_size(a);
        let y = shape_size(b.drop_last());
        let z = b.last() as nat;
        assert(x * y * z == x * (y * z)) by (nonlinear_arith);
        assert(shape_size(a + b) == x * y * z);
        assert(shape_size(b) == y * z);
    }
}

/// Splitting a shape at any position splits its size into a product.
pub proof fn lemma_size_split(s: Seq<usize>, k: int)
    requires
        0 <= k <= s.len(),
    ensures
        shape_size(s) == shape_size(s.subrange(0, k)) * suffix_size(s, k),
{
    lemma_size_concat(s.subrange(0, k), s.subrange(k, s.len() as int));
    assert(s.subrange(0, k) + s.subrange(k, s.len() as int) =~= s);
}

/// Moving one dimension from the front of a suffix into its stride multiplies it in.
pub proof fn lemma_suffix_step(s: Seq<usize>, k: int)
    requires
        0 <= k < s.len(),
    ensures
        suffix_size(s, k) == (s[k] as nat) * suffix_size(s, k + 1),
{
    let t = s.subrange(k, s.len() as int);
    lemma_size_split(t, 1);
    let head = t.subrange(0, 1);
    assert(head.drop_last() =~= Seq::<usize>::empty());
    assert(shape_size(head.drop_last()) == 1);
    assert(head.last() == s[k]);
    assert(shape_size(head) == shape_size(head.drop_last()) * (head.last() as nat));
    assert(t.subrange(1, t.len() as int) =~= s.subrange(k + 1, s.len() as int));
    let a = suffix_size(s, k + 1);
    let b = s[k] as nat;
    let e = shape_size(head.drop_last());
    assert(e * b == b) by (nonlinear_arith)
        requires
            e == 1,
    ;
    assert(b * a == a * b) by (nonlinear_arith);
}

/// A shape with a nonzero element count has no zero dimension.
pub proof fn lemma_positive_size_dims(s: Seq<usize>)
    requires
        shape_size(s) > 0,
    ensures
        all_positive(s),
    decreases s.len(),
{
    if s.len() > 0 {
        let x = shape_size(s.drop_last());
        let y = s.last() as nat;
        assert(x * y > 0 ==> x > 0 && y > 0) by (nonlinear_arith);
        lemma_positive_size_dims(s.drop_last());
        assert forall|k: int| 0 <= k < s.len() implies #[trigger] s[k] > 0 by {
            if k < s.len() - 1 {
                assert(s.drop_last()[k] == s[k]);
            }
        }
    }
}

/// With no zero dimension, each stride is at most the element count.
pub proof fn lemma_suffix_le_size(s: Seq<usize>, k: int)
    requires
        0 <= k <= s.len(),
        all_positive(s),
    ensures
        suffix_size(s, k) <= shape_size(s),
{
    lemma_size_split(s, k);
    lemma_prefix_positive(s, k);
    let p = shape_size(s.subrange(0, k));
    let q = suffix_size(s, k);
    assert(p >= 1 ==> q <= p * q) by (nonlinear_arith);
}

pub proof fn lemma_prefix_positive(s: Seq<usize>, k: int)
    requires
        0 <= k <= s.len(),
        all_positive(s),
    ensures
        shape_size(s.subrange(0, k)) >= 1,
    decreases k,
{
    if k > 0 {
        lemma_prefix_positive(s, k - 1);
        assert(s.subrange(0, k).drop_last() =~= s.subrange(0, k - 1));
        let x = shape_size(s.subrange(0, k - 1));
        let y = s[k - 1] as nat;
        assert(x >= 1 && y >= 1 ==> x * y >= 1) by (nonlinear_arith);
    }
}

/// A tensor whose element count fits in a `usize` and is nonzero has strides that fit.
pub proof fn lemma_strides_fit_of_size(s: Seq<usize>)
    requires
        0 < shape_size(s) <= usize::MAX,
    ensures
        strides_fit(s),
{
    lemma_positive_size_dims(s);
    assert forall|k: int| 1 <= k <= s.len() implies #[trigger] suffix_size(s, k) <= usize::MAX by {
        lemma_suffix_le_size(s, k);
    }
}

/// The element count of a shape, multiplying the dimensions from left to right;
/// `None` when a partial product overflows a `usize`.
pub fn checked_numel(shape: &[usize]) -> (n: Option<usize>)
    ensures
        n is Some <==> prefix_sizes_fit(shape@),
        n matches Some(v) ==> v == shape_size(shape@),
{
    let mut acc: usize = 1;
    let mut i: usize = 0;
    assert(shape@.subrange(0, 0) =~= Seq::<usize>::empty());
    while i < shape.len()
        invariant
            i <= shape.len(),
            acc == shape_size(shape@.subrange(0, i as int)),
            forall|k: int| 0 <= k <= i ==> #[trigger] shape_size(shape@.subrange(0, k)) <= usize::MAX,
        decreases shape.len() - i,
    {
        assert(shape@.subrange(0, i + 1).drop_last() =~= shape@.subrange(0, i as int));
        match acc.checked_mul(shape[i]) {
            Some(next) => {
                acc = next;
                i = i + 1;
            },
            None => {
                assert(shape_size(shape@.subrange(0, i + 1)) > usize::MAX);
                return None;
            },
        }
    }
    assert(shape@.subrange(0, shape.len() as int) =~= shape@);
    Some(acc)
}

/// Row-major strides: the stride of dimension `i` is the product of the dimensions after it.
pub fn strides_row_major(shape: &[usize]) -> (strides: Vec<usize>)
    requires
        strides_fit(shape@),
    ensures
        strides.len() == shape.len(),
        forall|i: int| 0 <= i < shape.len() ==> #[trigger] strides[i] == suffix_size(shape@, i + 1),
{
    let n = shape.len();
    let mut strides: Vec<usize> = vec![1usize; n];
    if n == 0 {
        return strides;
    }
    proof {
        assert(shape@.subrange(n as int, n as int) =~= Seq::<usize>::empty());
    }
    let mut i: usize = n - 1;
    while i > 0
        invariant
            n == shape.len(),
            n > 0,
            i < n,
            strides.len() == n,
            strides_fit(shape@),
            forall|j: int| i <= j < n ==> #[trigger] strides[j] == suffix_size(shape@, j + 1),
        decreases i,
    {
        proof {
            lemma_suffix_step(shape@, i as int);
            assert(suffix_size(shape@, i as int) <= usize::MAX);
            assert(strides[i as int] * shape[i as int] == suffix_size(shape@, i as int)) by (nonlinear_arith)
                requires
                    strides[i as int] == suffix_size(shape@, i + 1),
                    suffix_size(shape@, i as int) == (shape@[i as int] as nat) * suffix_size(shape@, i + 1),
            ;
        }
        let next = strides[i] * shape[i];
        strides.set(i - 1, next);
        i = i - 1;
    }
    strides
}

} // verus!
