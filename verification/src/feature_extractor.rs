//! Feature extraction vocabulary: which statistic to extract from a tensor
//! slice, and the extractor's configuration.

use vstd::prelude::*;

verus! {

/// Which feature to extract from a tensor slice.
#[derive(Clone, Debug, PartialEq, Eq, Hash, Structural)]
pub enum FeatureKind {
    /// Arithmetic mean: Σxᵢ / n  (0.0 when empty)
    Mean,
    /// Population variance: E\[x²\] − E\[x\]²  (0.0 when empty)
    Variance,
    /// Standardised third central moment: E[(x−μ)³] / σ³  (0.0 when σ=0 or empty)
    Skewness,
    /// Minimum element  (0.0 when empty)
    Min,
    /// Maximum element  (0.0 when empty)
    Max,
    /// Range: max − min  (0.0 when empty)
    Range,
    /// L¹ norm: Σ|xᵢ|
    L1Norm,
    /// L² norm: √(Σxᵢ²)
    L2Norm,
    /// Histogram: divide [min, max] into `bins` equal-width buckets and count elements.
    /// Produces `bins` values.  When min == max every element falls in bucket 0.
    Histogram {
        /// Number of equal-width histogram bins.
        bins: usize,
    },
}

/// Configuration of the feature extractor.
#[derive(Clone, Debug)]
pub struct ExtractorConfig {
    /// Ordered list of features to extract.
    pub features: Vec<FeatureKind>,
    /// Default bin count for histogram features.
    pub histogram_bins: usize,
}

impl Default for ExtractorConfig {
    /// Mean, variance, min, max and L² norm, with 10 histogram bins.
    fn default() -> (c: Self)
        ensures
            c.features@ == seq![
                FeatureKind::Mean,
                FeatureKind::Variance,
                FeatureKind::Min,
                FeatureKind::Max,
                FeatureKind::L2Norm,
            ],
            c.histogram_bins == 10,
    {
        let mut features: Vec<FeatureKind> = Vec::new();
        features.push(FeatureKind::Mean);
        features.push(FeatureKind::Variance);
        features.push(FeatureKind::Min);
        features.push(FeatureKind::Max);
        features.push(FeatureKind::L2Norm);
        ExtractorConfig { features, histogram_bins: 10 }
    }
}

} // verus!
