use vstd::prelude::*;

use crate::kernel::Kernel;
use crate::optimizer::Optimizer;
use crate::parameters::Parameters;
use crate::scalar::Scalar;
use crate::smo::SMO;
use crate::support_vector::copy_vec;
use crate::svm::SVM;

verus! {


/// The decision value over the first `n` support vectors: the bias, plus each
/// weight times the kernel value between the query row and that support
/// vector, summed in order.
pub open spec fn s_decision<V: Scalar, K: Kernel<V>>(
    x: Seq<V>,
    w: Seq<V>,
    svs: Seq<Vec<V>>,
    b: V,
    k: K,
    n: int,
) -> V
    decreases n,
{
    if n <= 0 {
        b
    } else {
        s_decision(x, w, svs, b, k, n - 1).s_add(w[n - 1].s_mul(k.s_compute(x, svs[n - 1]@)))
    }
}

/// The decision value of one query row against the model, pairing weights
/// with support vectors as far as both lists reach.
pub open spec fn s_predict_row<V: Scalar, K: Kernel<V>>(
    x: Seq<V>,
    w: Seq<V>,
    svs: Seq<Vec<V>>,
    b: V,
    k: K,
) -> V {
    s_decision(
        x,
        w,
        svs,
        b,
        k,
        if w.len() <= svs.len() {
            w.len() as int
        } else {
            svs.len() as int
        },
    )
}

/// The classifier wrapper: training configuration, and the trained model -
/// the surviving feature vectors, their weights (signed multipliers), their
/// labels, and the bias - once `fit` has run.
pub struct SVC<V, K> {
    pub parameters: Parameters<V, K>,
    pub alphas: Option<Vec<V>>,
    pub support_vectors: Option<Vec<Vec<V>>>,
    pub support_labels: Option<Vec<V>>,
    pub w: Option<Vec<V>>,
    pub b: Option<V>,
}

impl<V: Scalar, K: Kernel<V>> SVC<V, K> {
    /// A model is trained once the support vectors, weights, and bias exist.
    pub open spec fn trained(self) -> bool {
        self.support_vectors is Some && self.w is Some && self.b is Some
    }

    pub fn new(parameters: Parameters<V, K>) -> (r: SVC<V, K>)
        ensures
            r.parameters == parameters,
            r.alphas is None,
            r.support_vectors is None,
            r.support_labels is None,
            r.w is None,
            r.b is None,
    {
        SVC {
            parameters,
            alphas: None,
            support_vectors: None,
            support_labels: None,
            w: None,
            b: None,
        }
    }

    /// The decision value of one row: the bias plus the weighted kernel sum
    /// against the support vectors.
    pub fn predict_row(
        x_i: &Vec<V>,
        w: &Vec<V>,
        support_vectors: &Vec<Vec<V>>,
        b: V,
        kernel: &K,
    ) -> (r: V)
        ensures
            r == s_predict_row(x_i@, w@, support_vectors@, b, *kernel),
    {
        let n = if w.len() <= support_vectors.len() {
            w.len()
        } else {
            support_vectors.len()
        };
        let mut sum = b;
        let mut i: usize = 0;
        while i < n
            invariant
                n <= w@.len() && n <= support_vectors@.len(),
                i <= n,
                sum == s_decision(x_i@, w@, support_vectors@, b, *kernel, i as int),
            decreases n - i,
        {
            let kv = kernel.compute(x_i, &support_vectors[i]);
            sum = sum.add(w[i].mul(kv));
            i += 1;
        }
        sum
    }

    /// The decision values of a batch of query rows against the trained
    /// model.
    pub fn decision_function(&self, x: &Vec<Vec<V>>) -> (r: Vec<V>)
        requires
            self.trained(),
        ensures
            r@.len() == x@.len(),
            forall|i: int| #![trigger r@[i]]
                0 <= i < x@.len() ==> r@[i] == s_predict_row(
                    x@[i]@,
                    self.w->Some_0@,
                    self.support_vectors->Some_0@,
                    self.b->Some_0,
                    self.parameters.kernel,
                ),
    {
        let support_vectors = match &self.support_vectors {
            Some(svs) => svs,
            None => vstd::pervasive::unreached(),
        };
        let w = match &self.w {
            Some(w) => w,
            None => vstd::pervasive::unreached(),
        };
        let b = match &self.b {
            Some(b) => *b,
            None => vstd::pervasive::unreached(),
        };
        let mut r: Vec<V> = Vec::new();
        let mut i: usize = 0;
        while i < x.len()
            invariant
                self.trained(),
                support_vectors == &self.support_vectors->Some_0,
                w == &self.w->Some_0,
                b == self.b->Some_0,
                i <= x@.len(),
                r@.len() == i,
                forall|j: int| #![trigger r@[j]]
                    0 <= j < i ==> r@[j] == s_predict_row(
                        x@[j]@,
                        self.w->Some_0@,
                        self.support_vectors->Some_0@,
                        self.b->Some_0,
                        self.parameters.kernel,
                    ),
            decreases x@.len() - i,
        {
            let row = Self::predict_row(&x[i], w, support_vectors, b, &self.parameters.kernel);
            r.push(row);
            i += 1;
        }
        r
    }
}

impl<V: Scalar, K: Kernel<V>> SVM<V> for SVC<V, K> {
    /// Training demands equally many rows and labels, labels from the two
    /// classes, and a symmetric kernel.
    open spec fn fit_req(self, x: Seq<Vec<V>>, y: Seq<i32>) -> bool {
        &&& x.len() == y.len()
        &&& (forall|j: int| 0 <= j < y.len() ==> y[j] == 1 || y[j] == -1)
        &&& crate::kernel::symmetric(self.parameters.kernel)
    }

    /// Training leaves the configuration alone and installs exactly the
    /// output of one solver run: a fresh solver with this configuration,
    /// trained on the dataset, produced the stored support vectors, weights,
    /// and bias, and each stored label is the dataset label of the surviving
    /// entry's index.
    open spec fn fit_ens(pre: Self, post: Self, x: Seq<Vec<V>>, y: Seq<i32>) -> bool {
        &&& post.trained()
        &&& post.support_labels is Some
        &&& post.parameters == pre.parameters
        &&& post.alphas == pre.alphas
        &&& post.w->Some_0@.len() == post.support_vectors->Some_0@.len()
        &&& post.support_labels->Some_0@.len() == post.support_vectors->Some_0@.len()
        &&& (exists|s0: SMO<V>, s1: SMO<V>| #![trigger s0.sv@, s1.sv@]
            s0.wf() && s0.sv@.len() == 0 && s0.cache@ == Map::<(usize, usize), V>::empty()
                && s0.recalculate_min_max && s0.c == pre.parameters.c && s0.tol
                == pre.parameters.tol && s0.epochs == pre.parameters.epochs && s0.seed
                == Option::<usize>::None && crate::optimizer::Optimizer::optimize_ens(
                s0,
                s1,
                x,
                y,
                pre.parameters.kernel,
                (post.support_vectors->Some_0, post.w->Some_0, post.b->Some_0),
            ) && post.support_labels->Some_0@.len() == s1.sv@.len() && (forall|j: int|
                0 <= j < s1.sv@.len() ==> post.support_labels->Some_0@[j] == V::s_label(
                    y[#[trigger] s1.sv@[j].index as int] == 1,
                )))
    }

    open spec fn predict_req(self, x: Seq<Vec<V>>) -> bool {
        self.trained()
    }

    /// Each returned label is the sign of the row's decision value: `1` when
    /// it is above zero, `-1` otherwise.
    open spec fn predict_ens(self, x: Seq<Vec<V>>, r: Seq<i32>) -> bool {
        &&& r.len() == x.len()
        &&& (forall|i: int| #![trigger r[i]]
            0 <= i < x.len() ==> r[i] == (if V::s_zero().s_lt(
                s_predict_row(
                    x[i]@,
                    self.w->Some_0@,
                    self.support_vectors->Some_0@,
                    self.b->Some_0,
                    self.parameters.kernel,
                ),
            ) {
                1i32
            } else {
                -1i32
            }))
    }

    /// Train: run the decomposition solver on the dataset and keep its
    /// surviving feature vectors, weights, and bias, plus the label of each
    /// surviving sample.
    fn fit(&mut self, x: &Vec<Vec<V>>, y: &Vec<i32>) {
        let mut smo = SMO::new(self.parameters.c, self.parameters.tol, self.parameters.epochs);
        let ghost s0 = smo;
        let (svs, w, b) = smo.optimize(x, y, &self.parameters.kernel);
        let ghost s1 = smo;
        let mut labels: Vec<V> = Vec::new();
        let mut j: usize = 0;
        while j < smo.sv.len()
            invariant
                smo == s1,
                y@.len() == x@.len(),
                j <= smo.sv@.len(),
                labels@.len() == j,
                forall|p: int| #![trigger smo.sv@[p]]
                    0 <= p < smo.sv@.len() ==> smo.sv@[p].index < y@.len(),
                forall|p: int| #![trigger labels@[p]]
                    0 <= p < j ==> labels@[p] == V::s_label(y@[smo.sv@[p].index as int] == 1),
            decreases smo.sv@.len() - j,
        {
            let gi = smo.sv[j].index;
            labels.push(V::label(y[gi] == 1));
            j += 1;
        }
        proof {
            assert(labels@.len() == svs@.len());
        }
        self.support_vectors = Some(svs);
        self.support_labels = Some(labels);
        self.w = Some(w);
        self.b = Some(b);
        proof {
            assert(crate::optimizer::Optimizer::optimize_ens(
                s0,
                s1,
                x@,
                y@,
                self.parameters.kernel,
                (self.support_vectors->Some_0, self.w->Some_0, self.b->Some_0),
            ));
        }
    }

    /// Predict: the sign of each row's decision value.
    fn predict(&self, x: &Vec<Vec<V>>) -> (r: Vec<i32>) {
        let y_hat = self.decision_function(x);
        let mut r: Vec<i32> = Vec::new();
        let mut i: usize = 0;
        while i < y_hat.len()
            invariant
                self.trained(),
                y_hat@.len() == x@.len(),
                forall|j: int| #![trigger y_hat@[j]]
                    0 <= j < x@.len() ==> y_hat@[j] == s_predict_row(
                        x@[j]@,
                        self.w->Some_0@,
                        self.support_vectors->Some_0@,
                        self.b->Some_0,
                        self.parameters.kernel,
                    ),
                i <= y_hat@.len(),
                r@.len() == i,
                forall|j: int| #![trigger r@[j]]
                    0 <= j < i ==> r@[j] == (if V::s_zero().s_lt(y_hat@[j]) {
                        1i32
                    } else {
                        -1i32
                    }),
            decreases y_hat@.len() - i,
        {
            let v = if V::zero().lt(y_hat[i]) {
                1i32
            } else {
                -1i32
            };
            r.push(v);
            i += 1;
        }
        r
    }
}

} // verus!
