use ipfrs_tensorlogic::differential_privacy::xorshift64;

#[test]
fn test_xorshift64_non_zero() {
    let mut state = 0x00DE_ADBE_EF42_u64;
    let v = xorshift64(&mut state);
    assert_ne!(v, 0);
    assert_ne!(state, 0x00DE_ADBE_EF42_u64);
}

#[test]
fn test_xorshift64_deterministic() {
    let mut s1 = 12345u64;
    let mut s2 = 12345u64;
    for _ in 0..100 {
        assert_eq!(xorshift64(&mut s1), xorshift64(&mut s2));
    }
}

#[test]
fn test_xorshift64_different_outputs() {
    let mut state = 1u64;
    let a = xorshift64(&mut state);
    let b = xorshift64(&mut state);
    assert_ne!(a, b);
}

#[test]
fn xorshift64_zero_state_stays_zero() {
    let mut state = 0u64;
    assert_eq!(xorshift64(&mut state), 0);
    assert_eq!(state, 0);
}
