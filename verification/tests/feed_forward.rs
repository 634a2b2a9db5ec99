use ipfrs_tensorlogic::feed_forward::{FFStats, FeedForwardActivation};

#[test]
fn test_activation_enum_equality() {
    assert_eq!(FeedForwardActivation::ReLU, FeedForwardActivation::ReLU);
    assert_ne!(FeedForwardActivation::ReLU, FeedForwardActivation::GELU);
    assert_ne!(FeedForwardActivation::SiLU, FeedForwardActivation::Linear);
}

#[test]
fn stats_default_is_zero() {
    let s = FFStats::default();
    assert_eq!(s.total_forward_calls, 0);
    assert_eq!(s.total_tokens_processed, 0);
}
