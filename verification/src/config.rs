use crate::transformer::StandardScaler;
use crate::Blueprint;
use vstd::prelude::*;

verus! {

/// How a standardizer is to be fitted.
#[derive(Debug, Clone, Copy, PartialEq, Eq)]
pub struct Config {
    /// Delta degrees of freedom: the variance of `n` samples is their sum of
    /// squared deviations over `n - ddof`. With 1 this is the sample
    /// variance, with 0 the population variance.
    pub ddof: u64,
}

impl Default for Config {
    /// The sample standard deviation.
    fn default() -> (config: Self)
        ensures
            config.ddof == 1,
    {
        Config { ddof: 1 }
    }
}

/// A configuration is the blueprint of a `StandardScaler`.
impl Blueprint<Vec<i32>, Vec<i128>> for Config {
    type Transformer = StandardScaler;
}

} // verus!
