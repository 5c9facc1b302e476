use crate::config::Config;
use crate::error::ScalingError;
use crate::transformer::StandardScaler;
use crate::Fit;
use crate::IncrementalFit;
use vstd::prelude::*;

verus! {

/// Keeps count of the samples seen so far, and fits and updates
/// standardizers batch by batch.
#[derive(Debug, Clone, Copy, PartialEq, Eq)]
pub struct OnlineOptimizer {
    pub n_samples: u64,
}

impl Default for OnlineOptimizer {
    /// An optimizer that has seen no sample.
    fn default() -> (optimizer: Self)
        ensures
            optimizer.n_samples == 0,
    {
        OnlineOptimizer { n_samples: 0 }
    }
}

/// The sum of a batch's samples and the sum of their squares.
fn accumulate(batch: &Vec<i32>) -> (sums: (i128, u128))
    requires
        batch.len() <= u32::MAX,
    ensures
        sums.0 as real == crate::model::batch_sum(batch@),
        sums.1 as real == crate::model::batch_sum_sq(batch@),
        -(batch.len() * 0x8000_0000) <= sums.0 <= batch.len() * 0x8000_0000,
        sums.1 <= batch.len() * 0x4000_0000_0000_0000,
        sums.0 * sums.0 <= batch.len() * sums.1,
{
    let mut sum: i128 = 0;
    let mut sum_sq: u128 = 0;
    let mut done: usize = 0;
    while done < batch.len()
        invariant
            done <= batch.len() <= u32::MAX,
            sum as real == crate::model::batch_sum(batch@.take(done as int)),
            sum_sq as real == crate::model::batch_sum_sq(batch@.take(done as int)),
            -(done * 0x8000_0000) <= sum <= done * 0x8000_0000,
            sum_sq <= done * 0x4000_0000_0000_0000,
        decreases batch.len() - done,
    {
        let x: i128 = batch[done] as i128;
        proof {
            assert(0 <= x * x <= 0x4000_0000_0000_0000) by (nonlinear_arith)
                requires
                    -0x8000_0000 <= x <= 0x8000_0000,
            ;
            let before = crate::statistics::samples(batch@.take(done as int));
            let after = crate::statistics::samples(batch@.take(done + 1));
            assert(after.drop_last() =~= before);
            assert(after.last() == x as real);
            crate::algebra::lemma_cast_product(x as int, x as int);
        }
        let square: u128 = (x * x) as u128;
        sum = sum + x;
        sum_sq = sum_sq + square;
        done = done + 1;
    }
    proof {
        assert(batch@.take(done as int) =~= batch@);
        crate::model::lemma_sums_spread(batch@);
        crate::algebra::lemma_cast_product(sum as int, sum as int);
        crate::algebra::lemma_cast_product(batch.len() as int, sum_sq as int);
    }
    (sum, sum_sq)
}

impl OnlineOptimizer {
    /// Fits a standardizer to a first batch and starts counting anew from it.
    ///
    /// An empty batch is refused, and so is one with no more samples than
    /// `config.ddof`, whose variance is not defined; a refusal leaves the
    /// count as it was.
    pub fn fit(&mut self, batch: &Vec<i32>, config: Config) -> (outcome: Result<
        StandardScaler,
        ScalingError,
    >)
        requires
            batch.len() <= u32::MAX,
        ensures
            match outcome {
                Ok(scaler) => {
                    &&& batch.len() > config.ddof
                    &&& scaler@ == crate::model::fitted(batch@, config.ddof as nat)
                    &&& scaler.count() == batch.len()
                    &&& final(self).n_samples == batch.len()
                },
                Err(error) => {
                    &&& batch.len() <= config.ddof
                    &&& error == if batch.len() == 0 {
                        ScalingError::EmptyInput
                    } else {
                        ScalingError::DegenerateScale
                    }
                    &&& final(self).n_samples == old(self).n_samples
                },
            },
    {
        if batch.len() == 0 {
            return Err(ScalingError::EmptyInput);
        }
        let count: u64 = batch.len() as u64;
        if count <= config.ddof {
            return Err(ScalingError::DegenerateScale);
        }
        let sums: (i128, u128) = accumulate(batch);
        let scaler: StandardScaler = StandardScaler::from_sums(config.ddof, count, sums.0, sums.1);
        proof {
            crate::model::lemma_fitted_from_sums(batch@, config.ddof as nat);
        }
        self.n_samples = count;
        Ok(scaler)
    }

    /// Absorbs a further batch into `current`, the standardizer that this
    /// optimizer returned last, and adds the batch to the count.
    ///
    /// An empty batch changes nothing. A batch with no more samples than the
    /// correction `ddof`, whose variance is not defined, is refused, and the
    /// count stays as it was.
    pub fn update(&mut self, batch: &Vec<i32>, current: StandardScaler) -> (outcome: Result<
        StandardScaler,
        ScalingError,
    >)
        requires
            batch.len() > 0 ==> old(self).n_samples == current.count(),
            batch.len() > 0 ==> old(self).n_samples + batch.len() <= u32::MAX,
        ensures
            match outcome {
                Ok(scaler) => {
                    &&& batch.len() == 0 || batch.len() > current@.ddof
                    &&& scaler@ == crate::model::updated(
                        current@,
                        old(self).n_samples as nat,
                        batch@,
                    )
                    &&& batch.len() == 0 ==> scaler == current
                    &&& scaler.count() == current.count() + batch.len()
                    &&& final(self).n_samples == old(self).n_samples + batch.len()
                },
                Err(error) => {
                    &&& 0 < batch.len() <= current@.ddof
                    &&& error == ScalingError::DegenerateScale
                    &&& final(self).n_samples == old(self).n_samples
                },
            },
    {
        if batch.len() == 0 {
            return Ok(current);
        }
        let added: u64 = batch.len() as u64;
        let held: (u64, u64, i128, u128) = current.sums();
        if added <= held.0 {
            return Err(ScalingError::DegenerateScale);
        }
        let sums: (i128, u128) = accumulate(batch);
        let count: u64 = held.1 + added;
        proof {
            crate::algebra::lemma_cast_product(held.2 as int, held.2 as int);
            crate::algebra::lemma_cast_product(held.1 as int, held.3 as int);
            crate::algebra::lemma_cast_product(sums.0 as int, sums.0 as int);
            crate::algebra::lemma_cast_product(added as int, sums.1 as int);
            crate::algebra::lemma_cast_product(held.2 + sums.0, held.2 + sums.0);
            crate::algebra::lemma_cast_product(count as int, held.3 + sums.1);
            crate::algebra::lemma_pooled_spread_nonnegative(
                held.1 as real,
                held.2 as real,
                held.3 as real,
                added as real,
                sums.0 as real,
                sums.1 as real,
            );
            crate::model::lemma_merged_from_sums(
                held.0 as nat,
                held.1 as nat,
                held.2 as real,
                held.3 as real,
                batch@,
            );
        }
        let scaler: StandardScaler = StandardScaler::from_sums(
            held.0,
            count,
            held.2 + sums.0,
            held.3 + sums.1,
        );
        self.n_samples = count;
        Ok(scaler)
    }
}

impl Fit<Config, Vec<i32>, Vec<i128>> for OnlineOptimizer {
    type Error = ScalingError;

    open spec fn fit_requires(
        &self,
        inputs: &Vec<i32>,
        targets: &Vec<i128>,
        blueprint: &Config,
    ) -> bool {
        inputs.len() <= u32::MAX
    }

    open spec fn fit_ensures(
        &self,
        inputs: &Vec<i32>,
        targets: &Vec<i128>,
        blueprint: &Config,
        after: &Self,
        outcome: &Result<StandardScaler, ScalingError>,
    ) -> bool {
        match *outcome {
            Ok(scaler) => {
                &&& inputs.len() > blueprint.ddof
                &&& scaler@ == crate::model::fitted(inputs@, blueprint.ddof as nat)
                &&& scaler.count() == inputs.len()
                &&& after.n_samples == inputs.len()
            },
            Err(error) => {
                &&& inputs.len() <= blueprint.ddof
                &&& error == if inputs.len() == 0 {
                    ScalingError::EmptyInput
                } else {
                    ScalingError::DegenerateScale
                }
                &&& after.n_samples == self.n_samples
            },
        }
    }

    /// Fits a standardizer to `inputs`; the targets play no part.
    fn fit(
        &mut self,
        inputs: &Vec<i32>,
        targets: &Vec<i128>,
        blueprint: Config,
    ) -> (outcome: Result<StandardScaler, ScalingError>) {
        self.fit(inputs, blueprint)
    }
}

impl IncrementalFit<StandardScaler, Vec<i32>, Vec<i128>> for OnlineOptimizer {
    type Error = ScalingError;

    open spec fn incremental_fit_requires(
        &self,
        inputs: &Vec<i32>,
        targets: &Vec<i128>,
        transformer: &StandardScaler,
    ) -> bool {
        inputs.len() > 0 ==> {
            &&& self.n_samples == transformer.count()
            &&& self.n_samples + inputs.len() <= u32::MAX
        }
    }

    open spec fn incremental_fit_ensures(
        &self,
        inputs: &Vec<i32>,
        targets: &Vec<i128>,
        transformer: &StandardScaler,
        after: &Self,
        outcome: &Result<StandardScaler, ScalingError>,
    ) -> bool {
        match *outcome {
            Ok(scaler) => {
                &&& inputs.len() == 0 || inputs.len() > transformer@.ddof
                &&& scaler@ == crate::model::updated(
                    transformer@,
                    self.n_samples as nat,
                    inputs@,
                )
                &&& inputs.len() == 0 ==> scaler == *transformer
                &&& scaler.count() == transformer.count() + inputs.len()
                &&& after.n_samples == self.n_samples + inputs.len()
            },
            Err(error) => {
                &&& 0 < inputs.len() <= transformer@.ddof
                &&& error == ScalingError::DegenerateScale
                &&& after.n_samples == self.n_samples
            },
        }
    }

    /// Absorbs `inputs` into `transformer`; the targets play no part.
    fn incremental_fit(
        &mut self,
        inputs: &Vec<i32>,
        targets: &Vec<i128>,
        transformer: StandardScaler,
    ) -> (outcome: Result<StandardScaler, ScalingError>) {
        self.update(inputs, transformer)
    }
}

} // verus!
