use fashion_mnist_rust::rng::{Rng, ZERO_SEED_FALLBACK};

#[test]
fn test_same_seed_same_sequence() {
    let mut rng1 = Rng::new(42);
    let mut rng2 = Rng::new(42);
    for _ in 0..5 {
        assert_eq!(rng1.next_u64(), rng2.next_u64());
    }
}

#[test]
fn test_different_seeds_differ() {
    let mut rng1 = Rng::new(1);
    let mut rng2 = Rng::new(2);
    assert_ne!(rng1.next_u64(), rng2.next_u64());
}

#[test]
fn test_zero_seed_does_not_break() {
    let mut rng = Rng::new(0);
    let v = rng.next_u64();
    assert_ne!(v, 0);
}

fn xorshift(mut x: u64) -> u64 {
    x ^= x << 13;
    x ^= x >> 7;
    x ^= x << 17;
    x
}

#[test]
fn draws_follow_xorshift64() {
    let mut rng = Rng::new(1);
    let first = rng.next_u64();
    assert_eq!(first, xorshift(1));
    assert_eq!(first, 1082269761);
    assert_eq!(rng.next_u64(), xorshift(first));
}

#[test]
fn zero_seed_uses_fallback_state() {
    let mut zero = Rng::new(0);
    let mut fallback = Rng::new(ZERO_SEED_FALLBACK);
    for _ in 0..10 {
        assert_eq!(zero.next_u64(), fallback.next_u64());
    }
}

#[test]
fn draws_never_zero() {
    let mut rng = Rng::new(123);
    for _ in 0..10000 {
        assert_ne!(rng.next_u64(), 0);
    }
}
