//! Multi-scalar multiplication over the BLS12-381 G1 group, computed with the
//! signed-digit bucket (Pippenger) method and GLV endomorphism splitting.
//!
//! The crate decomposes each scalar into fixed-width signed windowed digits,
//! routes each (point, digit) pair into a per-window bucket arena with
//! collision-aware batching, and reduces the buckets into a single group
//! element. The underlying curve arithmetic and the GLV scalar decomposition
//! are supplied by the `ark` crates through a small set of trusted wrappers;
//! everything around them is verified against an integer model of the group.

pub mod bitmap;
pub mod types;
pub mod scalar;
pub mod curve;
pub mod bucket_msm;
pub mod collision_method_pippenger;
