use vstd::prelude::*;

use crate::scalar::Scalar;

verus! {

/// A trainable binary classifier over feature rows and labels in `{+1, -1}`.
pub trait SVM<V: Scalar>: Sized {
    /// When training may be called.
    spec fn fit_req(self, x: Seq<Vec<V>>, y: Seq<i32>) -> bool;

    /// What training guarantees.
    spec fn fit_ens(pre: Self, post: Self, x: Seq<Vec<V>>, y: Seq<i32>) -> bool;

    /// When prediction may be called.
    spec fn predict_req(self, x: Seq<Vec<V>>) -> bool;

    /// What each returned label is.
    spec fn predict_ens(self, x: Seq<Vec<V>>, r: Seq<i32>) -> bool;

    fn fit(&mut self, x: &Vec<Vec<V>>, y: &Vec<i32>)
        requires
            old(self).fit_req(x@, y@),
        ensures
            Self::fit_ens(*old(self), *final(self), x@, y@),
    ;

    fn predict(&self, x: &Vec<Vec<V>>) -> (r: Vec<i32>)
        requires
            self.predict_req(x@),
        ensures
            self.predict_ens(x@, r@),
    ;
}

} // verus!
