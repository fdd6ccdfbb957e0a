//! Polynomial arithmetic, commitments and proof construction over the Pasta cycle of
//! curves.
//!
//! Contracts speak of integers: a field element is its canonical representative, a
//! polynomial the sequence of its coefficients, a point its discrete logarithm. What they
//! state of a computation is a statement about integers modulo the size of a field.

pub mod accel;
pub mod builder;
pub mod bytes;
pub mod claims;
pub mod curve;
pub mod cycle;
pub mod domain;
pub mod field;
pub mod fp;
pub mod fq;
pub mod fuse;
pub mod laws;
pub mod layout;
pub mod modular;
pub mod msm;
pub mod pallas;
pub mod pcd;
pub mod poly;
pub mod product;
pub mod quotients;
pub mod rank;
pub mod sparse;
pub mod sums;
pub mod util;
pub mod vesta;

pub use accel::{
    accel_msm_stats, mul, mul_with_accel_config, reset_accel_msm_stats, AccelBackend,
    AccelMsmConfig, AccelMsmStats,
};
pub use curve::CurveAffine;
pub use cycle::{Cycle, FixedGenerators, PoseidonPermutation};
pub use domain::{Domain, Ring};
pub use field::DeferredField;
pub use msm::batch_to_affine;
pub use util::{
    decomp_product_poly, dot, eval, factor, factor_iter, geosum, low_u64, poly_mul,
    poly_with_roots,
};
