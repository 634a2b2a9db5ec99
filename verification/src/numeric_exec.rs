//! Dense row-major tensors for the numeric engine.
//!
//! A [`NumTensor`] holds its elements in row-major order together with its
//! shape; it is well formed when the number of elements is the product of the
//! dimensions. The element type is a parameter: the engine computes on `f32`,
//! and every operation here only moves elements.

use crate::computation_graph::GraphError;
use vstd::prelude::*;

verus! {

/// The number of elements of a tensor of the given shape: the product of its
/// dimensions (1 for a scalar).
pub open spec fn shape_size(shape: Seq<usize>) -> nat
    decreases shape.len(),
{
    if shape.len() == 0 {
        1
    } else {
        shape_size(shape.drop_last()) * (shape.last() as nat)
    }
}

/// A dense row-major tensor.
#[derive(Debug, Clone, PartialEq)]
pub struct NumTensor<T> {
    /// Elements in row-major order.
    pub data: Vec<T>,
    /// Extent of each dimension.
    pub shape: Vec<usize>,
}

impl<T> NumTensor<T> {
    /// The element count matches the shape.
    pub open spec fn well_formed(&self) -> bool {
        self.data@.len() == shape_size(self.shape@)
    }

    /// Build a tensor from row-major `data` and `shape`; fails with
    /// `ShapeMismatch` when the element count is not the product of the shape.
    pub fn new(data: Vec<T>, shape: Vec<usize>) -> (r: Result<Self, GraphError>)
        ensures
            r is Ok <==> data@.len() == shape_size(shape@),
            r matches Ok(t) ==> t.data@ == data@ && t.shape@ == shape@,
            r matches Err(e) ==> e is ShapeMismatch,
    {
        let len = data.len();
        let size = checked_shape_size(&shape);
        match size {
            Some(n) => {
                if n == len {
                    Ok(NumTensor { data, shape })
                } else {
                    Err(GraphError::ShapeMismatch("tensor data length does not match its shape".to_owned()))
                }
            },
            None => {
                Err(GraphError::ShapeMismatch("tensor shape has more elements than memory can hold".to_owned()))
            },
        }
    }
}

proof fn lemma_shape_size_zero(shape: Seq<usize>, i: int)
    requires
        0 <= i < shape.len(),
        shape[i] == 0,
    ensures
        shape_size(shape) == 0,
    decreases shape.len(),
{
    if i < shape.len() - 1 {
        lemma_shape_size_zero(shape.drop_last(), i);
    }
    let a = shape_size(shape.drop_last());
    let b = shape.last();
    assert(a * b == 0 || b != 0) by (nonlinear_arith)
        requires
            a == 0 || b == 0,
    ;
}

proof fn lemma_shape_size_grows(shape: Seq<usize>, i: int)
    requires
        0 <= i <= shape.len(),
        forall|k: int| 0 <= k < shape.len() ==> shape[k] >= 1,
    ensures
        shape_size(shape.take(i)) <= shape_size(shape),
    decreases shape.len(),
{
    if i < shape.len() {
        assert(shape.drop_last().take(i) =~= shape.take(i));
        lemma_shape_size_grows(shape.drop_last(), i);
        let a = shape_size(shape.drop_last());
        let b = shape.last() as int;
        assert(a <= a * b) by (nonlinear_arith)
            requires
                b >= 1,
                a >= 0,
        ;
    } else {
        assert(shape.take(i) =~= shape);
    }
}

/// The product of the dimensions, or `None` when it exceeds `usize::MAX`.
pub fn checked_shape_size(shape: &Vec<usize>) -> (r: Option<usize>)
    ensures
        match r {
            Some(n) => n == shape_size(shape@),
            None => shape_size(shape@) > usize::MAX,
        },
{
    let mut k: usize = 0;
    while k < shape.len()
        invariant
            k <= shape@.len(),
            forall|j: int| 0 <= j < k ==> shape@[j] >= 1,
        decreases shape@.len() - k,
    {
        if shape[k] == 0 {
            proof {
                lemma_shape_size_zero(shape@, k as int);
            }
            return Some(0);
        }
        k += 1;
    }
    let mut prod: usize = 1;
    let mut i: usize = 0;
    while i < shape.len()
        invariant
            i <= shape@.len(),
            forall|j: int| 0 <= j < shape@.len() ==> shape@[j] >= 1,
            prod == shape_size(shape@.take(i as int)),
        decreases shape@.len() - i,
    {
        assert(shape@.take(i + 1).drop_last() =~= shape@.take(i as int));
        match prod.checked_mul(shape[i]) {
            Some(p) => {
                prod = p;
            },
            None => {
                proof {
                    lemma_shape_size_grows(shape@, i + 1);
                }
                return None;
            },
        }
        i += 1;
    }
    assert(shape@.take(shape@.len() as int) =~= shape@);
    Some(prod)
}

} // verus!
