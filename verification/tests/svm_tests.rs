use svm::cache::Cache;
use svm::kernel::{Kernel, KernelType, LinearKernel, RBFKernel};
use svm::parameters::Parameters;
use svm::scalar::{IntScalar, Scalar};
use svm::smo::SMO;
use svm::support_vector::SupportVector;
use svm::svc::SVC;
use svm::svm::SVM;

/// Double-precision scalars for the solver.
#[derive(Clone, Copy, PartialEq, Debug)]
struct F(f64);

// The `s_*` and law members of the library's traits are specification-level:
// they are erased from every call site when the library is compiled, so these
// bodies never run.
impl Scalar for F {
    fn s_zero() -> F {
        unreachable!()
    }
    fn s_huge() -> F {
        unreachable!()
    }
    fn s_tau() -> F {
        unreachable!()
    }
    fn s_coarse() -> F {
        unreachable!()
    }
    fn s_label(_: bool) -> F {
        unreachable!()
    }
    fn s_neg(self) -> F {
        unreachable!()
    }
    fn s_add(self, _: F) -> F {
        unreachable!()
    }
    fn s_sub(self, _: F) -> F {
        unreachable!()
    }
    fn s_mul(self, _: F) -> F {
        unreachable!()
    }
    fn s_div(self, _: F) -> F {
        unreachable!()
    }
    fn s_half(self) -> F {
        unreachable!()
    }
    fn s_lt(self, _: F) -> bool {
        unreachable!()
    }
    fn lt_irrefl(_: F) {}
    fn lt_trans(_: F, _: F, _: F) {}
    fn lt_neg_trans(_: F, _: F, _: F) {}
    fn mul_comm(_: F, _: F) {}
    fn label_sign(_: bool) {}
    fn huge_is_max(_: F) {}
    fn zero() -> F {
        F(0.0)
    }
    fn huge() -> F {
        F(f64::INFINITY)
    }
    fn tau() -> F {
        F(1e-12)
    }
    fn coarse() -> F {
        F(1000.0)
    }
    fn label(positive: bool) -> F {
        if positive {
            F(1.0)
        } else {
            F(-1.0)
        }
    }
    fn neg(self) -> F {
        F(-self.0)
    }
    fn add(self, o: F) -> F {
        F(self.0 + o.0)
    }
    fn sub(self, o: F) -> F {
        F(self.0 - o.0)
    }
    fn mul(self, o: F) -> F {
        F(self.0 * o.0)
    }
    fn div(self, o: F) -> F {
        F(self.0 / o.0)
    }
    fn half(self) -> F {
        F(self.0 / 2.0)
    }
    fn lt(self, o: F) -> bool {
        self.0 < o.0
    }
}

/// Radial-basis-function kernel over double-precision scalars.
struct Rbf {
    gamma: f64,
}

impl Kernel<F> for Rbf {
    fn s_compute(&self, _: vstd::seq::Seq<F>, _: vstd::seq::Seq<F>) -> F {
        unreachable!()
    }
    fn s_type(&self) -> KernelType<F> {
        unreachable!()
    }
    fn compute(&self, x: &Vec<F>, y: &Vec<F>) -> F {
        let s: f64 = x
            .iter()
            .zip(y.iter())
            .map(|(&xi, &yi)| (xi.0 - yi.0).powi(2))
            .sum();
        F((-self.gamma * s).exp())
    }
    fn type_of(&self) -> KernelType<F> {
        KernelType::RBF(F(self.gamma))
    }
}

fn fv(v: &[f64]) -> Vec<F> {
    v.iter().map(|&x| F(x)).collect()
}

fn fm(m: &[Vec<f64>]) -> Vec<Vec<F>> {
    m.iter().map(|r| fv(r)).collect()
}

#[test]
fn test_cache() {
    let mut cache: Cache<f64> = Cache::new();

    cache.insert((0, 0), 1.0);
    cache.insert((0, 1), 2.0);
    cache.insert((1, 0), 3.0);
    cache.insert((1, 1), 4.0);

    assert_eq!(cache.get(0, 0), Some(&1.0));
    assert_eq!(cache.get(0, 1), Some(&2.0));
    assert_eq!(cache.get(1, 0), Some(&3.0));
    assert_eq!(cache.get(1, 1), Some(&4.0));
    assert_eq!(cache.get(2, 2), None);
}

#[test]
fn linear_kernel() {
    let v1 = fv(&[1., 2., 3.]);
    let v2 = fv(&[4., 5., 6.]);

    let result = LinearKernel::default().compute(&v1, &v2);

    assert_eq!(F(32.0), result);
}

#[test]
fn mod_it_works() {
    let rbf = Rbf { gamma: 1.0 };
    let x = fv(&[1.0, 2.0, 3.0]);
    let y = fv(&[1.0, 2.0, 3.0]);
    let result = rbf.compute(&x, &y);
    assert_eq!(result, F(1.0));
}

#[test]
fn mod_rbf_kernel() {
    let v1 = fv(&[1., 2., 3.]);
    let v2 = fv(&[4., 5., 6.]);

    let result = Rbf { gamma: 0.055 }.compute(&v1, &v2).0.abs();

    assert!((0.2265f64 - result) < 1e-4);
}

#[test]
fn rbf_rbf_kernel() {
    let v1 = fv(&[1., 2., 3.]);
    let v2 = fv(&[4., 5., 6.]);

    let result = Rbf { gamma: 0.055 }.compute(&v1, &v2).0.abs();

    assert!((0.2265f64 - result) < 1e-4);
}

#[test]
fn rbf_kernel_builders_carry_gamma() {
    let k = RBFKernel::new(F(1.0)).with_gamma(F(0.055));
    assert_eq!(k.gamma, F(0.055));
}

#[test]
fn test_parameters() {
    let mut params = Parameters::new(Rbf { gamma: 1.0 }, F(1.0), F(1e-3), 5);
    assert_eq!(params.c, F(1.0));
    assert_eq!(params.tol, F(1e-3));
    assert_eq!(params.epochs, 5);

    params.with_c(F(2.0)).with_tol(F(2e-3)).with_max_passes(10);
    assert_eq!(params.c, F(2.0));
    assert_eq!(params.tol, F(2e-3));
    assert_eq!(params.epochs, 10);
}

#[test]
fn new_support_vector() {
    let x = fv(&[1.0, 2.0, 3.0]);
    let y = F(1.0);
    let grad = F(0.1);
    let c = F(1.0);
    let k = F(0.5);

    let sv = SupportVector::new(0, x.clone(), y, grad, c, k);

    assert_eq!(x, sv.x);
    assert_eq!(grad, sv.grad);
    assert_eq!(k, sv.k);
    assert_eq!(F(0.0), sv.cmin);
    assert_eq!(F(1.0), sv.cmax);
}

#[test]
fn svc_it_works() {
    let parameters = Parameters::new(LinearKernel::new(), F(1.0), F(1e-3), 5);
    let mut svc = SVC::new(parameters);

    let x = fm(&[vec![1.0], vec![2.0], vec![3.0]]);
    let y = vec![-1, -1, 1];

    svc.fit(&x, &y);

    let predictions = svc.predict(&x);

    assert_eq!(predictions.len(), x.len());
}

fn iris_rows() -> Vec<Vec<f64>> {
    vec![
        vec![5.1, 3.5, 1.4, 0.2],
        vec![4.9, 3.0, 1.4, 0.2],
        vec![4.7, 3.2, 1.3, 0.2],
        vec![4.6, 3.1, 1.5, 0.2],
        vec![5.0, 3.6, 1.4, 0.2],
        vec![5.4, 3.9, 1.7, 0.4],
        vec![4.6, 3.4, 1.4, 0.3],
        vec![5.0, 3.4, 1.5, 0.2],
        vec![4.4, 2.9, 1.4, 0.2],
        vec![4.9, 3.1, 1.5, 0.1],
        vec![7.0, 3.2, 4.7, 1.4],
        vec![6.4, 3.2, 4.5, 1.5],
        vec![6.9, 3.1, 4.9, 1.5],
        vec![5.5, 2.3, 4.0, 1.3],
        vec![6.5, 2.8, 4.6, 1.5],
        vec![5.7, 2.8, 4.5, 1.3],
        vec![6.3, 3.3, 4.7, 1.6],
        vec![4.9, 2.4, 3.3, 1.0],
        vec![6.6, 2.9, 4.6, 1.3],
        vec![5.2, 2.7, 3.9, 1.4],
    ]
}

fn iris_labels() -> Vec<i32> {
    vec![-1, -1, -1, -1, -1, -1, -1, -1, 1, 1, 1, 1, 1, 1, 1, 1, 1, 1, 1, 1]
}

#[test]
fn svc_fit_predict_rbf() {
    let x = fm(&iris_rows());
    let y = iris_labels();

    let parameters = Parameters::new(Rbf { gamma: 0.7 }, F(1.0), F(1e-3), 5);
    let mut svc = SVC::new(parameters);

    svc.fit(&x, &y);

    let predictions = svc.predict(&x);

    let correct_predictions = predictions
        .iter()
        .zip(y.iter())
        .filter(|(&pred, &true_label)| (pred > 0) == (true_label > 0))
        .count();
    let accuracy = correct_predictions as f64 / x.len() as f64;

    assert!(
        accuracy >= 0.9,
        "Accuracy ({accuracy}) is not larger or equal to 0.9"
    );
}

#[test]
fn svc_fit_predict_linear() {
    let x = fm(&iris_rows());
    let y = iris_labels();

    let parameters = Parameters::new(LinearKernel::new(), F(1.0), F(1e-3), 5);
    let mut svc = SVC::new(parameters);

    svc.fit(&x, &y);

    let predictions = svc.predict(&x);

    let correct_predictions = predictions
        .iter()
        .zip(y.iter())
        .filter(|(&pred, &true_label)| (pred > 0) == (true_label > 0))
        .count();
    let accuracy = correct_predictions as f64 / x.len() as f64;

    assert!(
        accuracy >= 0.9,
        "Accuracy ({accuracy}) is not larger or equal to 0.9"
    );
}

#[test]
fn test_predict_w_b() {
    let x = fm(&[vec![1.0, 1.0], vec![2.0, 2.0], vec![3.0, 3.0]]);
    let support_vectors = fm(&[vec![1.0, 1.0], vec![2.0, 2.0]]);

    let w = vec![F(1.0)];
    let b = F(0.0);

    let kernel = LinearKernel::default();

    let result = SVC::predict_row(&x[0], &w, &support_vectors, b, &kernel);
    assert_eq!(result, F(2.0));

    let result = SVC::predict_row(&x[1], &w, &support_vectors, b, &kernel);
    assert_eq!(result, F(4.0));
}

#[test]
fn test_decision_function() {
    let x = fm(&[vec![1.0, 1.0], vec![2.0, 2.0], vec![3.0, 3.0]]);
    let support_vectors = fm(&[vec![1.0, 1.0], vec![2.0, 2.0]]);

    let w = vec![F(1.0)];
    let b = F(0.0);

    let parameters = Parameters::new(LinearKernel::new(), F(1.0), F(1e-3), 5);

    let svc = SVC {
        parameters,
        alphas: None,
        support_vectors: Some(support_vectors),
        support_labels: None,
        w: Some(w),
        b: Some(b),
    };

    let result = svc.decision_function(&x);
    assert_eq!(result, vec![F(2.0), F(4.0), F(6.0)]);
}

#[test]
fn test_predict() {
    let x = fm(&[vec![1.0, 1.0], vec![2.0, 2.0], vec![3.0, 3.0]]);
    let support_vectors = fm(&[vec![1.0, 1.0], vec![2.0, 2.0]]);

    let w = vec![F(1.0)];
    let b = F(0.0);

    let parameters = Parameters::new(LinearKernel::new(), F(1.0), F(1e-3), 5);

    let svc = SVC {
        parameters,
        alphas: None,
        support_vectors: Some(support_vectors),
        support_labels: None,
        w: Some(w),
        b: Some(b),
    };

    let result = svc.predict(&x);
    assert_eq!(result, vec![1, 1, 1]);
}

/// Every multiplier stays inside its box after every decomposition step.
fn assert_boxes(solver: &SMO<F>) {
    for v in solver.sv.iter() {
        assert!(
            v.cmin.0 <= v.alpha.0 && v.alpha.0 <= v.cmax.0,
            "alpha {} outside [{}, {}]",
            v.alpha.0,
            v.cmin.0,
            v.cmax.0
        );
    }
}

#[test]
fn box_constraint_holds_during_training() {
    let kernel = LinearKernel::new();
    let x = fm(&[vec![1.0], vec![2.0], vec![3.0]]);
    let y = vec![-1, -1, 1];
    let mut solver: SMO<F> = SMO::new(F(1.0), F(1e-3), 5);
    solver.with_seed(Some(7));
    for i in 0..x.len() {
        solver.process(i, &x[i], y[i], &kernel);
        assert_boxes(&solver);
    }
    for _ in 0..20 {
        solver.smo(None, None, F(1e-3), &kernel);
        assert_boxes(&solver);
    }
    solver.finish(&kernel);
    assert_boxes(&solver);
}

#[test]
fn cache_lookup_is_order_insensitive() {
    // A symmetric value function: both key orders must come back equal, on a
    // miss-miss, hit-miss, and hit-hit pair.
    let mut cache: Cache<f64> = Cache::new();
    let a = cache.get_or_insert((3, 5), || 6.25);
    let b = cache.get_or_insert((5, 3), || 6.25);
    assert_eq!(a, b);
    let c = cache.get_or_insert((3, 5), || -1.0);
    let d = cache.get_or_insert((5, 3), || -1.0);
    assert_eq!(c, d);
    assert_eq!(a, c);
}

#[test]
fn cache_lookup_is_lazy_on_hit() {
    let mut cache: Cache<f64> = Cache::new();
    cache.insert((1, 2), 0.5);
    let hit = cache.get_or_insert((1, 2), || panic!("computed on a hit"));
    assert_eq!(hit, 0.5);
}

#[test]
fn process_is_idempotent() {
    let kernel = LinearKernel::new();
    let x = fm(&[vec![1.0], vec![2.0], vec![3.0]]);
    let y = vec![-1, -1, 1];
    let mut solver: SMO<F> = SMO::new(F(1.0), F(1e-3), 5);
    for i in 0..x.len() {
        solver.process(i, &x[i], y[i], &kernel);
    }
    let size_before = solver.sv.len();
    let admitted = solver.process(0, &x[0], y[0], &kernel);
    assert!(admitted);
    assert_eq!(solver.sv.len(), size_before);
}

#[test]
fn gradient_gap_is_monotone_in_finish_sweeps() {
    let kernel = LinearKernel::new();
    let x = fm(&[vec![1.0], vec![2.0], vec![3.0]]);
    let y = vec![-1, -1, 1];
    let mut solver: SMO<F> = SMO::new(F(1.0), F(1e-3), 5);
    solver.with_seed(Some(3));
    for i in 0..x.len() {
        solver.process(i, &x[i], y[i], &kernel);
    }
    solver.find_min_max_gradient();
    let mut gap = solver.max_grad.0 - solver.min_grad.0;
    for _ in 0..10 {
        if !solver.smo(None, None, F(1e-3), &kernel) {
            break;
        }
        let next = solver.max_grad.0 - solver.min_grad.0;
        assert!(
            next <= gap,
            "gradient gap grew from {gap} to {next} within one convergence cycle"
        );
        gap = next;
    }
}

#[test]
fn shrink_invalidates_cache_entries() {
    // A very small regularization constant forces multipliers onto their
    // bounds, so shrinking removes entries; afterwards no cache key may
    // reference an index that is no longer active.
    let kernel = LinearKernel::new();
    let x = fm(&[
        vec![1.0, 0.5],
        vec![2.0, 1.5],
        vec![3.0, 2.5],
        vec![4.0, 3.5],
        vec![0.5, 0.2],
        vec![3.5, 3.0],
    ]);
    let y = vec![-1, -1, 1, 1, -1, 1];
    let mut solver: SMO<F> = SMO::new(F(1e-6), F(1e-3), 5);
    solver.with_seed(Some(11));
    let (_svs, _w, _b) = svm::optimizer::Optimizer::optimize(&mut solver, &x, &y, &kernel);
    let active: Vec<usize> = solver.sv.iter().map(|v| v.index).collect();
    for (a, b) in solver.cache.keys() {
        assert!(
            active.contains(&a) && active.contains(&b),
            "cache key ({a}, {b}) references an inactive index"
        );
    }
}

#[test]
fn incremental_gradients_match_recomputation() {
    // The solver never recomputes gradients from scratch; after training they
    // must still equal the closed form: the entry's label minus the weighted
    // kernel sum over all active entries.
    let kernel = LinearKernel::new();
    let x = fm(&[vec![1.0, 2.0], vec![2.0, 1.0], vec![3.0, 3.5], vec![4.0, 3.0]]);
    let y = vec![-1, -1, 1, 1];
    let mut solver: SMO<F> = SMO::new(F(1.0), F(1e-3), 5);
    solver.with_seed(Some(13));
    let _ = svm::optimizer::Optimizer::optimize(&mut solver, &x, &y, &kernel);
    for v in solver.sv.iter() {
        let label = if v.cmax.0 > 0.0 { 1.0 } else { -1.0 };
        let mut expected = label;
        for u in solver.sv.iter() {
            expected -= u.alpha.0 * kernel.compute(&u.x, &v.x).0;
        }
        assert!(
            (v.grad.0 - expected).abs() < 1e-9,
            "incremental gradient {} drifted from recomputed {expected}",
            v.grad.0
        );
    }
}

#[test]
fn separable_scenario_trains_to_its_labels() {
    let x = fm(&[vec![1.0], vec![2.0], vec![3.0]]);
    let y = vec![-1, -1, 1];
    let parameters = Parameters::new(LinearKernel::new(), F(1.0), F(1e-3), 5);
    let mut svc = SVC::new(parameters);
    svc.fit(&x, &y);
    let predictions = svc.predict(&x);
    assert_eq!(predictions, y);
}

#[test]
fn permutation_covers_all_indices() {
    let perm = SMO::<F>::permutate(100, Some(1));
    assert_eq!(perm.len(), 100);
    let mut sorted = perm.clone();
    sorted.sort();
    let identity: Vec<usize> = (0..100).collect();
    assert_eq!(sorted, identity);
    // A shuffle that handed its input back unchanged would return the
    // identity permutation here.
    assert_ne!(perm, identity);
}

#[test]
fn solver_runs_on_exact_integer_scalars() {
    let kernel = LinearKernel::new();
    let x = vec![
        vec![IntScalar(-2)],
        vec![IntScalar(-1)],
        vec![IntScalar(1)],
        vec![IntScalar(2)],
    ];
    let y = vec![-1, -1, 1, 1];
    let mut solver: SMO<IntScalar> = SMO::new(IntScalar(1), IntScalar(0), 2);
    solver.with_seed(Some(5));
    let (svs, w, _b) = svm::optimizer::Optimizer::optimize(&mut solver, &x, &y, &kernel);
    assert_eq!(svs.len(), w.len());
    for v in solver.sv.iter() {
        assert!(v.cmin.0 <= v.alpha.0 && v.alpha.0 <= v.cmax.0);
    }
    let mut indices: Vec<usize> = solver.sv.iter().map(|v| v.index).collect();
    indices.sort();
    indices.dedup();
    assert_eq!(indices.len(), solver.sv.len());
}

#[test]
fn seeded_permutations_are_reproducible() {
    let a = SMO::<F>::permutate(50, Some(42));
    let b = SMO::<F>::permutate(50, Some(42));
    assert_eq!(a, b);
    let c = SMO::<F>::permutate(50, Some(43));
    assert_ne!(a, c);
}

#[test]
fn builders_replace_each_setting() {
    let mut solver: SMO<F> = SMO::new(F(1.0), F(1e-3), 5);
    solver
        .with_c(F(2.0))
        .with_tol(F(1e-4))
        .with_epochs(7)
        .with_seed(Some(9));
    assert_eq!(solver.c, F(2.0));
    assert_eq!(solver.tol, F(1e-4));
    assert_eq!(solver.epochs, 7);
    assert_eq!(solver.seed, Some(9));
}
