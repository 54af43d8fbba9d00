use vstd::prelude::*;

verus! {

/// Bit width of a GLV-decomposed scalar component: both components of a
/// BLS12-381 scalar fit in this many bits. The slicer works on one extra
/// headroom bit so the signed re-encoding's final carry can be absorbed.
pub const G1_SCALAR_SIZE_GLV: u32 = 128;

/// Errors surfaced by the MSM driver and the scalar slicer.
///
/// Index errors (a bucket, window or bitset index outside its derived range)
/// have no variant here: the contracts of the accumulation engine rule them
/// out, so no code path can produce one.
#[derive(Clone, Copy, Debug, PartialEq, Eq, Structural)]
pub enum MsmError {
    /// The window width lies outside `1..=31`, or a digit sequence cannot
    /// carry the scalar it was asked to hold (the signed re-encoding ended
    /// with a non-zero carry, or the scalar is wider than the windows).
    ConfigurationError,
    /// The point and scalar sequences differ in length.
    LengthMismatchError,
}

} // verus!
