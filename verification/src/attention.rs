//! Geometry of multi-head causal self-attention over `[batch, seq_len, d_model]`
//! tensors: which elements make up each head.
use vstd::prelude::*;

use crate::index::{flat2, flat3, lemma_flat2_bound, lemma_flat3_bound, lemma_flat4_parts};

verus! {

/// The sizes of an attention: `num_heads` heads of `head_dim` features each.
pub struct AttentionGeometry {
    pub batch: usize,
    pub seq_len: usize,
    pub num_heads: usize,
    pub head_dim: usize,
}

/// The attention weights, `batch * num_heads * seq_len * seq_len` of them,
/// counted from the left without overflowing a `usize`.
pub open spec fn weights_fit(batch: int, num_heads: int, seq_len: int) -> bool {
    &&& batch * num_heads <= usize::MAX
    &&& batch * num_heads * seq_len <= usize::MAX
    &&& batch * num_heads * seq_len * seq_len <= usize::MAX
}

/// Attention over queries, keys and values of these shapes with this many heads
/// is defined: all three shapes are the same `[batch, seq_len, d_model]`, the
/// heads split `d_model` evenly, and the attention weights fit in memory.
pub open spec fn attention_valid(q: Seq<usize>, k: Seq<usize>, v: Seq<usize>, num_heads: usize) -> bool {
    &&& q.len() == 3
    &&& k == q
    &&& v == q
    &&& num_heads > 0
    &&& q[2] % num_heads == 0
    &&& weights_fit(q[0] as int, num_heads as int, q[1] as int)
}

/// Attention is defined exactly when queries, keys and values share one 3-D
/// shape `[batch, seq_len, d_model]`, there is at least one head, the heads
/// split `d_model` evenly, and the `batch * num_heads * seq_len * seq_len`
/// attention weights (and the partial products on the way) fit in a `usize`.
pub proof fn law_attention_defined(q: Seq<usize>, k: Seq<usize>, v: Seq<usize>, num_heads: usize)
    ensures
        attention_valid(q, k, v, num_heads) <==> {
            &&& q.len() == 3
            &&& k == q
            &&& v == q
            &&& num_heads >= 1
            &&& q[2] % num_heads == 0
            &&& q[0] * num_heads <= usize::MAX
            &&& q[0] * num_heads * q[1] <= usize::MAX
            &&& q[0] * num_heads * q[1] * q[1] <= usize::MAX
        },
{
}

/// Attention with a single head is defined for every `[batch, seq_len, d_model]`
/// shape whose attention weights fit in a `usize`.
pub proof fn law_single_head_attention(q: Seq<usize>)
    requires
        q.len() == 3,
        q[0] * q[1] <= usize::MAX,
        q[0] * q[1] * q[1] <= usize::MAX,
    ensures
        attention_valid(q, q, q, 1),
{
    law_attention_defined(q, q, q, 1);
    assert(q[2] % 1 == 0);
    assert(q[0] * 1 == q[0]);
}

impl AttentionGeometry {
    pub open spec fn spec_d_model(&self) -> int {
        self.num_heads * self.head_dim
    }

    pub open spec fn wf(&self) -> bool {
        &&& self.spec_d_model() <= usize::MAX
        &&& self.batch * self.seq_len * self.spec_d_model() <= usize::MAX
        &&& weights_fit(self.batch as int, self.num_heads as int, self.seq_len as int)
    }

    /// The geometry of attention over `q`, `k`, `v` of the given shapes; `None`
    /// when it is not defined.
    pub fn new(q_shape: &[usize], k_shape: &[usize], v_shape: &[usize], num_heads: usize) -> (g: Option<
        AttentionGeometry,
    >)
        requires
            q_shape.len() == 3 ==> q_shape[0] * q_shape[1] * q_shape[2] <= usize::MAX,
        ensures
            g is Some <==> attention_valid(q_shape@, k_shape@, v_shape@, num_heads),
            g matches Some(g) ==> {
                &&& g.wf()
                &&& g.batch == q_shape[0]
                &&& g.seq_len == q_shape[1]
                &&& g.num_heads == num_heads
                &&& g.head_dim == q_shape[2] / num_heads
                &&& g.spec_d_model() == q_shape[2]
            },
    {
        if q_shape.len() != 3 {
            return None;
        }
        if !same(q_shape, k_shape) || !same(q_shape, v_shape) {
            return None;
        }
        let batch = q_shape[0];
        let seq_len = q_shape[1];
        let d_model = q_shape[2];
        if num_heads == 0 || d_model % num_heads != 0 {
            return None;
        }
        let bh = match batch.checked_mul(num_heads) {
            Some(x) => x,
            None => {
                return None;
            },
        };
        let bhs = match bh.checked_mul(seq_len) {
            Some(x) => x,
            None => {
                return None;
            },
        };
        if bhs.checked_mul(seq_len).is_none() {
            return None;
        }
        let head_dim = d_model / num_heads;
        proof {
            assert(num_heads * head_dim == d_model) by (nonlinear_arith)
                requires
                    num_heads > 0,
                    d_model % num_heads == 0,
                    head_dim == d_model / num_heads,
            ;
        }
        Some(AttentionGeometry { batch, seq_len, num_heads, head_dim })
    }

    pub fn d_model(&self) -> (n: usize)
        requires
            self.wf(),
        ensures
            n == self.spec_d_model(),
    {
        self.num_heads * self.head_dim
    }

    /// Where the attention weights of head `head_index` of batch element
    /// `batch_index` start in the `[batch, num_heads, seq_len, seq_len]` buffer.
    pub fn weights_offset(&self, batch_index: usize, head_index: usize) -> (o: usize)
        requires
            self.wf(),
            batch_index < self.batch,
            head_index < self.num_heads,
        ensures
            o == flat2(batch_index as int, head_index as int, self.num_heads as int) * self.seq_len
                * self.seq_len,
            o + self.seq_len * self.seq_len <= self.batch * self.num_heads * self.seq_len
                * self.seq_len,
    {
        proof {
            lemma_flat2_bound(batch_index as int, head_index as int, self.batch as int, self.num_heads as int);
        }
        let bh = batch_index * self.num_heads + head_index;
        proof {
            let s = self.seq_len as int;
            let n = self.batch * self.num_heads;
            assert(bh * s * s + s * s <= n * s * s && bh * s <= bh * s * s + s * s && bh * s * s + s * s
                <= n * s * s && 0 <= bh * s) by (nonlinear_arith)
                requires
                    0 <= bh < n,
                    s >= 0,
            ;
            assert(n * s * s <= usize::MAX);
            assert(bh * s <= n * s || s == 0) by (nonlinear_arith)
                requires
                    0 <= bh < n,
                    s >= 0,
            ;
        }
        bh * self.seq_len * self.seq_len
    }

    /// The indices, in the `[batch, seq_len, d_model]` buffer, of the
    /// `[seq_len, head_dim]` block of head `head_index` of batch element `batch_index`.
    pub fn head_indices(&self, batch_index: usize, head_index: usize) -> (m: Vec<usize>)
        requires
            self.wf(),
            batch_index < self.batch,
            head_index < self.num_heads,
        ensures
            m.len() == self.seq_len * self.head_dim,
            forall|row: int, c: int|
                0 <= row < self.seq_len && 0 <= c < self.head_dim ==> #[trigger] m@[flat2(
                    row,
                    c,
                    self.head_dim as int,
                )] == flat3(
                    batch_index as int,
                    row,
                    head_index * self.head_dim + c,
                    self.seq_len as int,
                    self.spec_d_model(),
                ),
            forall|i: int|
                0 <= i < m.len() ==> #[trigger] m@[i] < self.batch * self.seq_len
                    * self.spec_d_model(),
    {
        let hd = self.head_dim;
        let seq = self.seq_len;
        let dm = self.d_model();
        let mut m: Vec<usize> = Vec::new();
        let mut row: usize = 0;
        while row < seq
            invariant
                self.wf(),
                hd == self.head_dim,
                seq == self.seq_len,
                dm == self.spec_d_model(),
                batch_index < self.batch,
                head_index < self.num_heads,
                row <= seq,
                m.len() == row * hd,
                forall|r: int, c: int|
                    0 <= r < row && 0 <= c < hd ==> #[trigger] m@[flat2(r, c, hd as int)] == flat3(
                        batch_index as int,
                        r,
                        head_index * hd + c,
                        seq as int,
                        dm as int,
                    ),
                forall|i: int| 0 <= i < m.len() ==> #[trigger] m@[i] < self.batch * seq * dm,
            decreases seq - row,
        {
            let mut c: usize = 0;
            while c < hd
                invariant
                    self.wf(),
                    hd == self.head_dim,
                    seq == self.seq_len,
                    dm == self.spec_d_model(),
                    batch_index < self.batch,
                    head_index < self.num_heads,
                    row < seq,
                    c <= hd,
                    m.len() == row * hd + c,
                    forall|r: int, cc: int|
                        (0 <= r < row && 0 <= cc < hd || r == row && 0 <= cc < c) ==> #[trigger] m@[flat2(
                            r,
                            cc,
                            hd as int,
                        )] == flat3(batch_index as int, r, head_index * hd + cc, seq as int, dm as int),
                    forall|i: int| 0 <= i < m.len() ==> #[trigger] m@[i] < self.batch * seq * dm,
                decreases hd - c,
            {
                let idx = self.head_index_at(batch_index, head_index, row, c);
                proof {
                    assert forall|r: int, cc: int|
                        (0 <= r < row && 0 <= cc < hd || r == row && 0 <= cc < c) implies flat2(
                        r,
                        cc,
                        hd as int,
                    ) < row * hd + c by {
                        if r < row {
                            assert(r * hd + cc < row * hd) by (nonlinear_arith)
                                requires
                                    0 <= r < row,
                                    0 <= cc < hd,
                            ;
                        }
                    }
                }
                m.push(idx);
                c = c + 1;
            }
            proof {
                assert(row * hd + hd == (row + 1) * hd) by (nonlinear_arith);
            }
            row = row + 1;
        }
        m
    }

    fn head_index_at(&self, batch_index: usize, head_index: usize, row: usize, c: usize) -> (i: usize)
        requires
            self.wf(),
            batch_index < self.batch,
            head_index < self.num_heads,
            row < self.seq_len,
            c < self.head_dim,
        ensures
            i == flat3(
                batch_index as int,
                row as int,
                head_index * self.head_dim + c,
                self.seq_len as int,
                self.spec_d_model(),
            ),
            i < self.batch * self.seq_len * self.spec_d_model(),
    {
        let dm = self.d_model();
        proof {
            lemma_flat2_bound(head_index as int, c as int, self.num_heads as int, self.head_dim as int);
            lemma_flat3_bound(
                batch_index as int,
                row as int,
                head_index * self.head_dim + c,
                self.batch as int,
                self.seq_len as int,
                dm as int,
            );
            lemma_flat4_parts(
                batch_index as int,
                row as int,
                head_index * self.head_dim + c,
                0,
                self.seq_len as int,
                dm as int,
                1,
            );
            assert(0 <= head_index * self.head_dim <= head_index * self.head_dim + c) by (nonlinear_arith)
                requires
                    head_index >= 0,
                    self.head_dim >= 0,
                    c >= 0,
            ;
        }
        (batch_index * self.seq_len + row) * dm + head_index * self.head_dim + c
    }
}

fn same(a: &[usize], b: &[usize]) -> (r: bool)
    ensures
        r == (a@ == b@),
{
    if a.len() != b.len() {
        return false;
    }
    let mut i: usize = 0;
    while i < a.len()
        invariant
            a.len() == b.len(),
            i <= a.len(),
            forall|j: int| 0 <= j < i ==> a@[j] == b@[j],
        decreases a.len() - i,
    {
        if a[i] != b[i] {
            return false;
        }
        i = i + 1;
    }
    assert(a@ =~= b@);
    true
}

} // verus!
