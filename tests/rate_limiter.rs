use battle_net_api::model::BattleNetApiClient;
use battle_net_api::rate_limiter::RateLimiter;

#[test]
fn at_most_capacity_per_window() {
    let mut l = RateLimiter::new(2, 10);
    assert_eq!(l.capacity(), 2);
    assert_eq!(l.window(), 10);
    assert!(l.try_acquire(0));
    assert!(l.try_acquire(1));
    assert!(!l.try_acquire(1));
    assert!(!l.try_acquire(9));
    assert!(l.try_acquire(10));
    assert!(!l.try_acquire(10));
    assert!(l.try_acquire(11));
    assert!(!l.try_acquire(19));
    assert!(l.try_acquire(20));
    assert!(!l.try_acquire(20));
    assert!(l.try_acquire(21));
}

#[test]
fn grants_in_any_window_never_exceed_capacity() {
    let mut l = RateLimiter::new(3, 5);
    let mut grants: Vec<u64> = Vec::new();
    for t in 0..40u64 {
        for _ in 0..4 {
            if l.try_acquire(t) {
                grants.push(t);
            }
        }
    }
    for start in 0..40u64 {
        let n = grants.iter().filter(|&&g| g >= start && g < start + 5).count();
        assert!(n <= 3);
    }
    assert_eq!(grants.len(), 24);
}

#[test]
fn single_permit_with_zero_window_always_grants() {
    let mut l = RateLimiter::new(1, 0);
    assert!(l.try_acquire(0));
    assert!(l.try_acquire(0));
}

#[test]
fn client_keeps_its_token() {
    let c = BattleNetApiClient::new("SECRET-REDACTED");
    assert_eq!(c.token, "SECRET-REDACTED");
}
