use vstd::prelude::*;

verus! {

/// Training configuration: the kernel, the regularization constant `c`, the
/// numerical tolerance `tol`, and the number of training passes.
pub struct Parameters<V, K> {
    /// The similarity function training and prediction use.
    pub kernel: K,
    /// Regularization constant.
    pub c: V,
    /// Numerical tolerance on the gradient gap.
    pub tol: V,
    /// Number of passes over the permuted dataset.
    pub epochs: usize,
}

impl<V, K> Parameters<V, K> {
    pub fn new(kernel: K, c: V, tol: V, epochs: usize) -> (r: Self)
        ensures
            r.kernel == kernel,
            r.c == c,
            r.tol == tol,
            r.epochs == epochs,
    {
        Parameters { kernel, c, tol, epochs }
    }

    pub fn with_kernel(&mut self, kernel: K) -> (r: &mut Self)
        ensures
            *r == (Parameters { kernel, ..*old(self) }),
            *final(self) == *final(r),
    {
        self.kernel = kernel;
        self
    }

    pub fn with_c(&mut self, c: V) -> (r: &mut Self)
        ensures
            *r == (Parameters { c, ..*old(self) }),
            *final(self) == *final(r),
    {
        self.c = c;
        self
    }

    pub fn with_tol(&mut self, tol: V) -> (r: &mut Self)
        ensures
            *r == (Parameters { tol, ..*old(self) }),
            *final(self) == *final(r),
    {
        self.tol = tol;
        self
    }

    pub fn with_max_passes(&mut self, max_passes: usize) -> (r: &mut Self)
        ensures
            *r == (Parameters { epochs: max_passes, ..*old(self) }),
            *final(self) == *final(r),
    {
        self.epochs = max_passes;
        self
    }
}

} // verus!
