//! Parameter-free layers: their settings and the shapes they produce.
use vstd::prelude::*;

use crate::shape::{checked_numel, lemma_size_concat, prefix_sizes_fit, shape_size};

verus! {

/// Flattens every dimension after the first into one.
pub struct Flatten;

impl Flatten {
    /// The shape `[n, rest]` that an input of shape `shape` is flattened to;
    /// `None` when the shape is empty or the product of the trailing dimensions
    /// overflows a `usize`.
    pub fn output_shape(&self, shape: &[usize]) -> (out: Option<Vec<usize>>)
        ensures
            out is Some <==> (shape.len() >= 1 && prefix_sizes_fit(shape@.drop_first())),
            out matches Some(s) ==> s@ == seq![shape@[0], shape_size(shape@.drop_first()) as usize],
    {
        if shape.len() == 0 {
            return None;
        }
        let mut rest_dims: Vec<usize> = Vec::new();
        let mut i: usize = 1;
        while i < shape.len()
            invariant
                1 <= i <= shape.len(),
                rest_dims@ == shape@.subrange(1, i as int),
            decreases shape.len() - i,
        {
            rest_dims.push(shape[i]);
            assert(rest_dims@ =~= shape@.subrange(1, i + 1));
            i = i + 1;
        }
        assert(rest_dims@ =~= shape@.drop_first());
        match checked_numel(rest_dims.as_slice()) {
            Some(rest) => {
                let mut s: Vec<usize> = Vec::new();
                s.push(shape[0]);
                s.push(rest);
                assert(s@ =~= seq![shape@[0], shape_size(shape@.drop_first()) as usize]);
                Some(s)
            },
            None => None,
        }
    }
}

/// Flattening keeps the element count: the shape `[n, rest]` that `Flatten`
/// gives holds as many elements as the shape it was given.
pub proof fn law_flatten_preserves_size(shape: Seq<usize>)
    requires
        shape.len() >= 1,
        prefix_sizes_fit(shape.drop_first()),
    ensures
        shape_size(seq![shape[0], shape_size(shape.drop_first()) as usize]) == shape_size(shape),
{
    let rest_dims = shape.drop_first();
    assert(rest_dims.subrange(0, rest_dims.len() as int) =~= rest_dims);
    assert(shape_size(rest_dims.subrange(0, rest_dims.len() as int)) <= usize::MAX);
    let rest = shape_size(rest_dims);
    let one = seq![shape[0]];
    lemma_size_concat(one, rest_dims);
    assert(one + rest_dims =~= shape);
    assert(one.drop_last() =~= Seq::<usize>::empty());
    assert(shape_size(Seq::<usize>::empty()) == 1);
    assert(shape_size(one) == shape[0] as nat);
    let two = seq![shape[0], rest as usize];
    assert(two.drop_last() =~= one);
    assert(shape_size(two) == shape_size(one) * rest);
    assert((shape[0] as nat) * rest == shape_size(one) * rest);
}

/// How a linear layer with `out_features` outputs reads an input of shape
/// `shape`: the number of rows, the product of all dimensions but the last, and
/// the output shape, those dimensions followed by `out_features`. `None` when the
/// shape is empty or the row count overflows a `usize`.
pub fn linear_shapes(shape: &[usize], out_features: usize) -> (r: Option<(usize, Vec<usize>)>)
    ensures
        r is Some <==> (shape.len() >= 1 && prefix_sizes_fit(shape@.drop_last())),
        r matches Some((rows, out)) ==> {
            &&& rows == shape_size(shape@.drop_last())
            &&& out@ == shape@.drop_last().push(out_features)
            &&& shape_size(out@) == rows * out_features
        },
{
    if shape.len() == 0 {
        return None;
    }
    let mut leading: Vec<usize> = Vec::new();
    let mut i: usize = 0;
    while i + 1 < shape.len()
        invariant
            shape.len() >= 1,
            i <= shape.len() - 1,
            leading@ == shape@.subrange(0, i as int),
        decreases shape.len() - i,
    {
        leading.push(shape[i]);
        assert(leading@ =~= shape@.subrange(0, i + 1));
        i = i + 1;
    }
    assert(leading@ =~= shape@.drop_last());
    match checked_numel(leading.as_slice()) {
        Some(rows) => {
            leading.push(out_features);
            assert(leading@.drop_last() =~= shape@.drop_last());
            Some((rows, leading))
        },
        None => None,
    }
}

/// Max pooling over square windows.
pub struct MaxPool2d {
    pub kernel: usize,
    pub stride: usize,
}

impl MaxPool2d {
    pub fn new(kernel: usize, stride: usize) -> (p: MaxPool2d)
        ensures
            p.kernel == kernel,
            p.stride == stride,
    {
        MaxPool2d { kernel, stride }
    }
}

/// Average pooling over square windows.
pub struct AvgPool2d {
    pub kernel: usize,
    pub stride: usize,
}

impl AvgPool2d {
    pub fn new(kernel: usize, stride: usize) -> (p: AvgPool2d)
        ensures
            p.kernel == kernel,
            p.stride == stride,
    {
        AvgPool2d { kernel, stride }
    }
}

} // verus!
