//! A support-vector-machine trainer built around an incremental
//! decomposition solver (sequential minimal optimization with a
//! maximum-violating-pair heuristic), a kernel-value cache, and an active
//! support-vector set with shrinking.
//!
//! The solver is generic over the [`scalar::Scalar`] numbers it optimizes and
//! the [`kernel::Kernel`] similarity function it is given.

pub mod cache;
pub mod kernel;
pub mod optimizer;
pub mod parameters;
pub mod scalar;
pub mod smo;
pub mod support_vector;
pub mod svc;
pub mod svm;

pub use kernel::Kernel;

/// The specification-level sequence type that `kernel::Kernel::s_compute`
/// speaks of, re-exported so that embedders implementing the trait can name
/// its (erased, never run) specification members.
pub use vstd::seq::Seq as SpecSeq;

pub use kernel::RBFKernel;
pub use parameters::Parameters;
pub use scalar::Scalar;
pub use svc::SVC;
pub use svm::SVM;
