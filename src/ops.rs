use vstd::prelude::*;

use crate::op::{ArrRepr, ComputeResults, Op, OpError};

verus! {

/// The identity in the forward pass that blocks gradients: it delegates its
/// output to its first input.
pub struct StopGradient;

impl<A> Op<A> for StopGradient {
    fn name(&self) -> &str {
        "StopGradient"
    }

    fn compute(&self, _xs: &Vec<&A>) -> (r: ComputeResults<A>)
        ensures
            r@ == seq![Some(Err::<ArrRepr<A>, OpError>(OpError::Delegate { to: 0 }))],
    {
        let mut ys: ComputeResults<A> = Vec::new();
        ys.push(Some(Err(OpError::Delegate { to: 0 })));
        ys
    }
}

/// Removes the listed axes, one after the other, from its input.
pub struct Squeeze {
    pub axes: Vec<isize>,
}

/// The axis that the `k`-th removal of a squeeze takes out of an array of
/// rank `ndim - k`: `-1` stands for that rank, and each earlier removal
/// shifts the index down by one.
pub open spec fn squeeze_axis(axes: Seq<isize>, ndim: int, k: int) -> int {
    (if axes[k] == -1 {
        ndim - k
    } else {
        axes[k] as int
    }) - k
}

/// Every removal of a squeeze names an axis of the array it applies to.
pub open spec fn squeeze_ok(axes: Seq<isize>, ndim: int) -> bool {
    forall|k: int|
        0 <= k < axes.len() ==> (#[trigger] axes[k]) >= -1 && 0 <= squeeze_axis(axes, ndim, k) < ndim - k
}

impl Squeeze {
    /// The axes to remove, in order, from an input of rank `ndim`; `None` when
    /// one of them does not exist at its turn.
    pub fn removal_axes(&self, ndim: usize) -> (r: Option<Vec<usize>>)
        ensures
            r is Some <==> squeeze_ok(self.axes@, ndim as int),
            r matches Some(v) ==> v@.len() == self.axes@.len() && forall|k: int|
                0 <= k < v@.len() ==> (#[trigger] v@[k]) == squeeze_axis(self.axes@, ndim as int, k),
    {
        let mut out: Vec<usize> = Vec::new();
        let mut k: usize = 0;
        while k < self.axes.len()
            invariant
                0 <= k <= self.axes@.len(),
                out@.len() == k,
                forall|q: int|
                    0 <= q < k ==> (#[trigger] self.axes@[q]) >= -1 && 0 <= squeeze_axis(self.axes@, ndim as int, q)
                        < ndim - q,
                forall|q: int| 0 <= q < k ==> (#[trigger] out@[q]) == squeeze_axis(self.axes@, ndim as int, q),
            decreases self.axes@.len() - k,
        {
            if k >= ndim {
                return None;
            }
            let cur: usize = ndim - k;
            let i = self.axes[k];
            let axis: usize = if i == -1 {
                cur
            } else if i < 0 {
                return None;
            } else {
                i as usize
            };
            if axis < k || axis - k >= cur {
                return None;
            }
            out.push(axis - k);
            k = k + 1;
        }
        Some(out)
    }
}

/// The label shapes a sparse softmax cross entropy takes: logits of rank 2,
/// and labels of shape `[n]` or `[n, 1]`.
pub open spec fn sparse_shapes_ok(x_shape: Seq<usize>, t_shape: Seq<usize>) -> bool {
    &&& x_shape.len() == 2
    &&& (t_shape.len() == 1 || (t_shape.len() == 2 && t_shape[1] == 1))
}

pub fn check_sparse_shapes(x_shape: &Vec<usize>, t_shape: &Vec<usize>) -> (r: bool)
    ensures
        r == sparse_shapes_ok(x_shape@, t_shape@),
{
    if x_shape.len() != 2 {
        return false;
    }
    if t_shape.len() == 2 {
        t_shape[1] == 1
    } else {
        t_shape.len() == 1
    }
}

/// Picks one element per row of a row-major `rows x cols` matrix: the one in
/// the column that `classes` gives for that row. `None` when the sizes do not
/// match or a class is not a column.
pub fn gather_per_row<T: Copy>(flat: &Vec<T>, cols: usize, classes: &Vec<usize>) -> (r: Option<Vec<T>>)
    ensures
        r is Some <==> (flat@.len() == classes@.len() * cols && forall|i: int|
            0 <= i < classes@.len() ==> (#[trigger] classes@[i]) < cols),
        r matches Some(v) ==> v@.len() == classes@.len() && forall|i: int|
            0 <= i < classes@.len() ==> (#[trigger] v@[i]) == flat@[i * cols + classes@[i]],
{
    let rows = classes.len();
    if cols == 0 {
        if flat.len() != 0 || rows != 0 {
            if rows > 0 {
                proof {
                    assert(classes@[0] >= cols);
                }
            } else {
                proof {
                    assert(classes@.len() * cols == 0);
                }
            }
            return None;
        }
        proof {
            assert(classes@.len() * cols == 0);
        }
        return Some(Vec::new());
    }
    if flat.len() / cols != rows || flat.len() % cols != 0 {
        proof {
            if flat@.len() == classes@.len() * cols {
                vstd::arithmetic::div_mod::lemma_fundamental_div_mod_converse(
                    flat@.len() as int, cols as int, rows as int, 0);
            }
        }
        return None;
    }
    let flen = flat.len();
    proof {
        vstd::arithmetic::div_mod::lemma_fundamental_div_mod(flat@.len() as int, cols as int);
        let q = flat@.len() as int / cols as int;
        assert(q == rows);
        assert(flat@.len() == cols * q);
        assert(cols * q == q * cols) by (nonlinear_arith);
        assert(flat@.len() == classes@.len() * cols);
    }
    let mut out: Vec<T> = Vec::new();
    let mut i: usize = 0;
    while i < rows
        invariant
            0 <= i <= rows,
            rows == classes@.len(),
            cols > 0,
            flat@.len() == rows * cols,
            flat@.len() == flen,
            out@.len() == i,
            forall|q: int| 0 <= q < i ==> (#[trigger] classes@[q]) < cols,
            forall|q: int| 0 <= q < i ==> (#[trigger] out@[q]) == flat@[q * cols + classes@[q]],
        decreases rows - i,
    {
        let c = classes[i];
        if c >= cols {
            return None;
        }
        proof {
            assert(i * cols + c < rows * cols) by (nonlinear_arith)
                requires
                    i < rows,
                    c < cols,
            ;
            assert(i * cols + c >= 0) by (nonlinear_arith)
                requires
                    i >= 0,
                    cols > 0,
                    c >= 0,
            ;
        }
        let idx = i * cols + c;
        out.push(flat[idx]);
        i = i + 1;
    }
    Some(out)
}

} // verus!
