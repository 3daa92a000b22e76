//! Embedding lookups: which rows of a `[num_embeddings, dim]` table make up the output.
use vstd::prelude::*;

use crate::index::{flat2, lemma_flat2_bound};

verus! {

/// Every index names a row of a table of `num_embeddings` rows.
pub open spec fn indices_in_range(indices: Seq<usize>, num_embeddings: int) -> bool {
    forall|r: int| 0 <= r < indices.len() ==> #[trigger] indices[r] < num_embeddings
}

/// For each element of the `[indices.len(), dim]` output, its index in the table;
/// `Err` with the first index that names no row.
pub fn embedding_index_map(indices: &[usize], num_embeddings: usize, dim: usize) -> (r: Result<
    Vec<usize>,
    usize,
>)
    requires
        num_embeddings * dim <= usize::MAX,
        indices.len() * dim <= usize::MAX,
    ensures
        match r {
            Ok(m) => {
                &&& indices_in_range(indices@, num_embeddings as int)
                &&& m.len() == indices.len() * dim
                &&& forall|row: int, d: int|
                    0 <= row < indices.len() && 0 <= d < dim ==> #[trigger] m@[flat2(row, d, dim as int)]
                        == flat2(indices@[row] as int, d, dim as int)
                &&& forall|i: int| 0 <= i < m.len() ==> #[trigger] m@[i] < num_embeddings * dim
            },
            Err(bad) => exists|p: int|
                0 <= p < indices.len() && indices_in_range(indices@.subrange(0, p), num_embeddings as int)
                    && indices@[p] >= num_embeddings && bad == indices@[p],
        },
{
    let mut m: Vec<usize> = Vec::new();
    let mut row: usize = 0;
    while row < indices.len()
        invariant
            num_embeddings * dim <= usize::MAX,
            indices.len() * dim <= usize::MAX,
            row <= indices.len(),
            m.len() == row * dim,
            indices_in_range(indices@.subrange(0, row as int), num_embeddings as int),
            forall|r: int, d: int|
                0 <= r < row && 0 <= d < dim ==> #[trigger] m@[flat2(r, d, dim as int)] == flat2(
                    indices@[r] as int,
                    d,
                    dim as int,
                ),
            forall|i: int| 0 <= i < m.len() ==> #[trigger] m@[i] < num_embeddings * dim,
        decreases indices.len() - row,
    {
        let index = indices[row];
        if index >= num_embeddings {
            return Err(index);
        }
        let mut d: usize = 0;
        while d < dim
            invariant
                num_embeddings * dim <= usize::MAX,
                index == indices@[row as int],
                index < num_embeddings,
                row < indices.len(),
                d <= dim,
                m.len() == row * dim + d,
                forall|r: int, dd: int|
                    (0 <= r < row && 0 <= dd < dim || r == row && 0 <= dd < d) ==> #[trigger] m@[flat2(
                        r,
                        dd,
                        dim as int,
                    )] == flat2(indices@[r] as int, dd, dim as int),
                forall|i: int| 0 <= i < m.len() ==> #[trigger] m@[i] < num_embeddings * dim,
            decreases dim - d,
        {
            proof {
                lemma_flat2_bound(index as int, d as int, num_embeddings as int, dim as int);
                assert(0 <= index * dim) by (nonlinear_arith)
                    requires
                        index >= 0,
                        dim >= 0,
                ;
                assert forall|r: int, dd: int|
                    (0 <= r < row && 0 <= dd < dim || r == row && 0 <= dd < d) implies flat2(
                    r,
                    dd,
                    dim as int,
                ) < row * dim + d by {
                    if r < row {
                        assert(r * dim + dd < row * dim) by (nonlinear_arith)
                            requires
                                0 <= r < row,
                                0 <= dd < dim,
                        ;
                    }
                }
            }
            m.push(index * dim + d);
            d = d + 1;
        }
        proof {
            assert(row * dim + dim == (row + 1) * dim) by (nonlinear_arith);
            assert(indices@.subrange(0, row + 1).drop_last() =~= indices@.subrange(0, row as int));
            assert forall|r: int| 0 <= r < row + 1 implies #[trigger] indices@.subrange(0, row + 1)[r]
                < num_embeddings by {
                if r < row {
                    assert(indices@.subrange(0, row + 1)[r] == indices@.subrange(0, row as int)[r]);
                }
            }
        }
        row = row + 1;
    }
    assert(indices@.subrange(0, indices.len() as int) =~= indices@);
    Ok(m)
}

} // verus!
