//! Streaming standardization: the mean and the standard deviation of a stream
//! of samples are estimated batch by batch, and used to rescale values to zero
//! mean and unit variance.
//!
//! An [`OnlineOptimizer`] fits a [`StandardScaler`] to a first batch and
//! absorbs further batches into it; each update gives a new standardizer and
//! leaves the earlier one as it was. A `StandardScaler` transforms any batch
//! at any time.
//!
//! Samples are 32-bit integers, and a standardizer summarizes at most
//! `u32::MAX` of them. It keeps their sums exactly, so that merging batches
//! loses nothing: the mean and the variance it stands for are the exact
//! fractions of [`model`]. Whatever is not a whole number is read out in
//! units of `1 / SCALE`, which is `2^-48`, rounded toward zero, see [`fixed`].
//! Standard scores are taken with a standard deviation that falls short of the
//! true one by less than one part in `2^62`; [`laws`] bounds what this and the
//! rounding do to a batch that is standardized by its own fit.
//!
//! The traits of this module are the shape of the pipeline: a [`Blueprint`]
//! is fitted into a [`Transformer`] by [`Fit`], which [`IncrementalFit`] then
//! refines with further data. Each step has a specification of its own, which
//! an implementation states and is then held to; one that states nothing
//! promises nothing.
mod algebra;
pub mod config;
pub mod error;
pub mod fixed;
pub mod laws;
pub mod model;
pub mod optimizer;
pub mod statistics;
pub mod transformer;

pub use config::Config;
pub use error::ScalingError;
pub use optimizer::OnlineOptimizer;
pub use transformer::StandardScaler;

use vstd::prelude::*;

verus! {

/// Something that takes an input and returns an output, however its settings
/// were found.
pub trait Transformer<I, O> {
    type Error;

    /// What `transform` promises of its outcome on `inputs`.
    open spec fn transform_ensures(&self, inputs: &I, outcome: &Result<O, Self::Error>) -> bool {
        true
    }

    fn transform(&self, inputs: &I) -> (outcome: Result<O, Self::Error>)
        ensures
            self.transform_ensures(inputs, &outcome),
    ;
}

/// A starting point from which transformers of one type are built.
pub trait Blueprint<I, O> {
    type Transformer: Transformer<I, O>;
}

/// The step from a blueprint to a transformer.
pub trait Fit<B, I, O> where B: Blueprint<I, O> {
    type Error;

    /// What `fit` asks of its arguments.
    open spec fn fit_requires(&self, inputs: &I, targets: &O, blueprint: &B) -> bool {
        true
    }

    /// What `fit` promises: `self` is the state before the call, `after` the
    /// state it leaves.
    open spec fn fit_ensures(
        &self,
        inputs: &I,
        targets: &O,
        blueprint: &B,
        after: &Self,
        outcome: &Result<B::Transformer, Self::Error>,
    ) -> bool {
        true
    }

    fn fit(&mut self, inputs: &I, targets: &O, blueprint: B) -> (outcome: Result<
        B::Transformer,
        Self::Error,
    >)
        requires
            old(self).fit_requires(inputs, targets, &blueprint),
        ensures
            old(self).fit_ensures(inputs, targets, &blueprint, final(self), &outcome),
    ;
}

/// The step from a transformer to the same transformer after more data.
pub trait IncrementalFit<T, I, O> where T: Transformer<I, O> {
    type Error;

    /// What `incremental_fit` asks of its arguments.
    open spec fn incremental_fit_requires(&self, inputs: &I, targets: &O, transformer: &T) -> bool {
        true
    }

    /// What `incremental_fit` promises: `self` is the state before the call,
    /// `after` the state it leaves.
    open spec fn incremental_fit_ensures(
        &self,
        inputs: &I,
        targets: &O,
        transformer: &T,
        after: &Self,
        outcome: &Result<T, Self::Error>,
    ) -> bool {
        true
    }

    fn incremental_fit(&mut self, inputs: &I, targets: &O, transformer: T) -> (outcome: Result<
        T,
        Self::Error,
    >)
        requires
            old(self).incremental_fit_requires(inputs, targets, &transformer),
        ensures
            old(self).incremental_fit_ensures(inputs, targets, &transformer, final(self), &outcome),
    ;
}

/// A source of blueprints, to try several settings for one transformer type.
pub trait BlueprintGenerator<B, I, O> where B: Blueprint<I, O> {
    type Error;

    /// What `generate` promises of its outcome.
    open spec fn generate_ensures(&self, outcome: &Result<Vec<B>, Self::Error>) -> bool {
        true
    }

    fn generate(&self) -> (outcome: Result<Vec<B>, Self::Error>)
        ensures
            self.generate_ensures(&outcome),
    ;
}

/// Every blueprint that can be cloned generates itself: one clone, and
/// nothing else.
impl<B, I, O> BlueprintGenerator<B, I, O> for B where B: Blueprint<I, O> + Clone {
    type Error = core::convert::Infallible;

    open spec fn generate_ensures(
        &self,
        outcome: &Result<Vec<B>, core::convert::Infallible>,
    ) -> bool {
        &&& outcome is Ok
        &&& outcome->Ok_0@.len() == 1
        &&& cloned(*self, outcome->Ok_0@[0])
    }

    fn generate(&self) -> (outcome: Result<Vec<B>, core::convert::Infallible>) {
        let mut blueprints: Vec<B> = Vec::new();
        blueprints.push(self.clone());
        Ok(blueprints)
    }
}

} // verus!
