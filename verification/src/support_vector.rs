use vstd::prelude::*;

use crate::scalar::Scalar;

verus! {

/// An element-for-element copy of a vector of plain scalars.
pub fn copy_vec<V: Copy>(v: &Vec<V>) -> (r: Vec<V>)
    ensures
        r@ == v@,
{
    let mut r: Vec<V> = Vec::new();
    let mut i: usize = 0;
    while i < v.len()
        invariant
            i <= v@.len(),
            r@ == v@.take(i as int),
        decreases v@.len() - i,
    {
        r.push(v[i]);
        proof {
            assert(v@.take(i + 1) =~= v@.take(i as int).push(v@[i as int]));
        }
        i += 1;
    }
    proof {
        assert(v@.take(v@.len() as int) =~= v@);
    }
    r
}

/// The mutable optimization record for one sample admitted to the active set.
pub struct SupportVector<V> {
    /// Position of the sample in the original dataset; the stable identity
    /// used as a cache-key component and for output mapping.
    pub index: usize,
    /// The sample's feature vector, owned by the record.
    pub x: Vec<V>,
    /// The signed Lagrange multiplier. The label's sign is folded in: a
    /// positive sample moves in `[0, c]`, a negative one in `[-c, 0]`.
    pub alpha: V,
    /// The current partial derivative of the dual objective with respect to
    /// this multiplier, maintained incrementally.
    pub grad: V,
    /// Lower box bound, fixed at creation from the label sign.
    pub cmin: V,
    /// Upper box bound, fixed at creation from the label sign.
    pub cmax: V,
    /// The self-kernel value for this sample, computed once at insertion.
    pub k: V,
}

impl<V: Scalar> SupportVector<V> {
    /// A fresh record: multiplier zero, gradient as handed in, and box bounds
    /// `[0, c]` for a positive label, `[-c, 0]` for a negative one.
    pub fn new(index: usize, x: Vec<V>, y: V, grad: V, c: V, k: V) -> (r: SupportVector<V>)
        ensures
            r.index == index,
            r.x == x,
            r.alpha == V::s_zero(),
            r.grad == grad,
            r.k == k,
            V::s_zero().s_lt(y) ==> r.cmin == V::s_zero() && r.cmax == c,
            !V::s_zero().s_lt(y) ==> r.cmin == c.s_neg() && r.cmax == V::s_zero(),
    {
        let (cmin, cmax) = if V::zero().lt(y) {
            (V::zero(), c)
        } else {
            (c.neg(), V::zero())
        };
        SupportVector { index, x, grad, k, alpha: V::zero(), cmin, cmax }
    }
}

} // verus!
