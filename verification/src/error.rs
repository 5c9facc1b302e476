use vstd::prelude::*;

verus! {

/// Why a fit, an update or a transform was refused.
#[derive(Debug, Clone, Copy, PartialEq, Eq)]
pub enum ScalingError {
    /// A first fit was asked of a batch without samples.
    EmptyInput,
    /// The scale is not usable: a batch has too few samples for the
    /// degrees-of-freedom correction, or the standard deviation is zero.
    DegenerateScale,
}

} // verus!
