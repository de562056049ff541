use vstd::prelude::*;

verus! {

/// Computes per-patch baselines and scaled residuals.
#[derive(Clone, Copy, Debug, Default)]
pub struct ResidualCalculator;

/// Extracts slope, volatility, curvature, and missingness descriptors.
#[derive(Clone, Copy, Debug, Default)]
pub struct FeatureExtractor;

/// Converts continuous value patches into discrete regime tokens with a quantizer `Q`.
#[derive(Clone, Debug)]
pub struct RegimeTokenizer<Q> {
    residuals: ResidualCalculator,
    features: FeatureExtractor,
    quantizer: Q,
}

impl<Q> RegimeTokenizer<Q> {
    pub closed spec fn spec_quantizer(self) -> Q {
        self.quantizer
    }

    pub fn new(quantizer: Q) -> (tokenizer: Self)
        ensures
            tokenizer.spec_quantizer() == quantizer,
    {
        RegimeTokenizer { residuals: ResidualCalculator, features: FeatureExtractor, quantizer }
    }

    pub fn quantizer(&self) -> (quantizer: &Q)
        ensures
            *quantizer == self.spec_quantizer(),
    {
        &self.quantizer
    }
}

} // verus!
