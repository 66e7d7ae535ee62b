use vstd::prelude::*;

use crate::kernel::Kernel;
use crate::scalar::Scalar;

verus! {

/// The weights and the bias a training run produces.
pub type AlphasB<V> = (Vec<V>, V);

/// A trainer: consumes the samples and their labels, drives its internal
/// state to convergence, and hands back the surviving feature vectors, their
/// weights, and the bias.
pub trait Optimizer<V: Scalar, K: Kernel<V>>: Sized {
    /// When a training run may be started.
    spec fn optimize_req(self, x: Seq<Vec<V>>, y: Seq<i32>, kernel: K) -> bool;

    /// What a finished training run guarantees.
    spec fn optimize_ens(
        pre: Self,
        post: Self,
        x: Seq<Vec<V>>,
        y: Seq<i32>,
        kernel: K,
        r: (Vec<Vec<V>>, Vec<V>, V),
    ) -> bool;

    fn optimize(&mut self, x: &Vec<Vec<V>>, y: &Vec<i32>, kernel: &K) -> (r: (
        Vec<Vec<V>>,
        Vec<V>,
        V,
    ))
        requires
            old(self).optimize_req(x@, y@, *kernel),
        ensures
            Self::optimize_ens(*old(self), *final(self), x@, y@, *kernel, r),
    ;
}

} // verus!
