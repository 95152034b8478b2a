use lru_loader::limiter::PermitCounter;

#[test]
fn zero_limit_is_rejected() {
    assert!(PermitCounter::new(0).is_none());
}

#[test]
fn permits_never_exceed_limit() {
    let mut c = PermitCounter::new(2).unwrap();
    assert!(c.try_acquire());
    assert!(c.try_acquire());
    assert!(!c.try_acquire());
    assert_eq!(c.outstanding(), 2);
    assert_eq!(c.limit(), 2);
}

#[test]
fn release_lets_permit_be_taken_again() {
    let mut c = PermitCounter::new(1).unwrap();
    for _ in 0..5 {
        assert!(c.try_acquire());
        assert!(!c.try_acquire());
        c.release();
        assert_eq!(c.outstanding(), 0);
    }
}
