use vstd::prelude::*;

use crate::scalar::Scalar;

verus! {

/// A similarity function between two feature vectors, supplied by the caller
/// before training. The solver requires it to be symmetric (see
/// [`symmetric`]); it never calls it on vectors of different lengths.
pub trait Kernel<V> {
    /// What the kernel computes, as a function of the two vectors.
    spec fn s_compute(&self, x: Seq<V>, y: Seq<V>) -> V;

    /// Which kind of kernel this is.
    spec fn s_type(&self) -> KernelType<V>;

    fn compute(&self, x: &Vec<V>, y: &Vec<V>) -> (r: V)
        ensures
            r == self.s_compute(x@, y@),
    ;

    fn type_of(&self) -> (r: KernelType<V>)
        ensures
            r == self.s_type(),
    ;
}

/// A kernel is symmetric when swapping its arguments never changes the value.
pub open spec fn symmetric<V, K: Kernel<V>>(k: K) -> bool {
    forall|x: Seq<V>, y: Seq<V>| #[trigger] k.s_compute(x, y) == k.s_compute(y, x)
}

/// Serializable description of a kernel choice: the plain dot product, or a
/// radial basis function with its width parameter.
pub enum KernelType<V> {
    Linear,
    RBF(V),
}

/// The dot product of the first `n` coordinates, summed left to right.
pub open spec fn s_dot_prefix<V: Scalar>(x: Seq<V>, y: Seq<V>, n: int) -> V
    decreases n,
{
    if n <= 0 {
        V::s_zero()
    } else {
        s_dot_prefix(x, y, n - 1).s_add(x[n - 1].s_mul(y[n - 1]))
    }
}

/// The dot product over the coordinates the two vectors share.
pub open spec fn s_dot<V: Scalar>(x: Seq<V>, y: Seq<V>) -> V {
    s_dot_prefix(x, y, if x.len() <= y.len() { x.len() as int } else { y.len() as int })
}

/// The dot product is symmetric in its two vectors.
pub proof fn lemma_dot_prefix_symmetric<V: Scalar>(x: Seq<V>, y: Seq<V>, n: int)
    ensures
        s_dot_prefix(x, y, n) == s_dot_prefix(y, x, n),
    decreases n,
{
    if n > 0 {
        lemma_dot_prefix_symmetric(x, y, n - 1);
        V::mul_comm(x[n - 1], y[n - 1]);
    }
}

pub struct LinearKernel {}

impl Default for LinearKernel {
    fn default() -> (r: LinearKernel)
        ensures
            r == (LinearKernel {  }),
    {
        LinearKernel {  }
    }
}

impl LinearKernel {
    pub fn new() -> (r: LinearKernel)
        ensures
            r == (LinearKernel {  }),
    {
        LinearKernel {  }
    }
}

impl<V: Scalar> Kernel<V> for LinearKernel {
    open spec fn s_compute(&self, x: Seq<V>, y: Seq<V>) -> V {
        s_dot(x, y)
    }

    open spec fn s_type(&self) -> KernelType<V> {
        KernelType::Linear
    }

    fn compute(&self, x: &Vec<V>, y: &Vec<V>) -> (r: V)
        ensures
            r == self.s_compute(x@, y@),
    {
        let n = if x.len() <= y.len() {
            x.len()
        } else {
            y.len()
        };
        let mut acc = V::zero();
        let mut i: usize = 0;
        while i < n
            invariant
                n <= x@.len() && n <= y@.len(),
                i <= n,
                acc == s_dot_prefix(x@, y@, i as int),
            decreases n - i,
        {
            acc = acc.add(x[i].mul(y[i]));
            i += 1;
        }
        acc
    }

    fn type_of(&self) -> KernelType<V> {
        KernelType::Linear
    }
}

/// Every linear kernel is symmetric.
pub proof fn lemma_linear_symmetric<V: Scalar>(k: LinearKernel)
    ensures
        symmetric::<V, LinearKernel>(k),
{
    assert forall|x: Seq<V>, y: Seq<V>| #[trigger]
        Kernel::<V>::s_compute(&k, x, y) == Kernel::<V>::s_compute(&k, y, x) by {
        if x.len() <= y.len() {
            lemma_dot_prefix_symmetric::<V>(x, y, x.len() as int);
        } else {
            lemma_dot_prefix_symmetric::<V>(x, y, y.len() as int);
        }
    }
}

/// Radial-basis-function kernel parameters. The exponential itself involves
/// transcendental arithmetic the verified core does not perform, so the
/// evaluation lives with the embedding that picks the number type; this type
/// carries the width parameter `gamma` through configuration and
/// serialization.
pub struct RBFKernel<V> {
    pub gamma: V,
}

impl<V: Copy> RBFKernel<V> {
    pub fn new(gamma: V) -> (r: RBFKernel<V>)
        ensures
            r.gamma == gamma,
    {
        RBFKernel { gamma }
    }

    pub fn with_gamma(self, gamma: V) -> (r: RBFKernel<V>)
        ensures
            r.gamma == gamma,
    {
        RBFKernel { gamma }
    }
}

} // verus!
