use ipfrs_tensorlogic::feature_extractor::{ExtractorConfig, FeatureKind};

#[test]
fn test_default_config_features() {
    let cfg = ExtractorConfig::default();
    assert!(cfg.features.contains(&FeatureKind::Mean));
    assert!(cfg.features.contains(&FeatureKind::Variance));
    assert!(cfg.features.contains(&FeatureKind::Min));
    assert!(cfg.features.contains(&FeatureKind::Max));
    assert!(cfg.features.contains(&FeatureKind::L2Norm));
    assert_eq!(cfg.histogram_bins, 10);
}

#[test]
fn default_config_order_and_absentees() {
    let cfg = ExtractorConfig::default();
    assert_eq!(
        cfg.features,
        vec![
            FeatureKind::Mean,
            FeatureKind::Variance,
            FeatureKind::Min,
            FeatureKind::Max,
            FeatureKind::L2Norm
        ]
    );
    assert!(!cfg.features.contains(&FeatureKind::Skewness));
    assert!(!cfg.features.contains(&FeatureKind::Histogram { bins: 10 }));
}
