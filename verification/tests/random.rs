use kernel::random_service::{RandomGeneratorServer, Xorshift64};

#[test]
fn output_is_nonzero_for_nonzero_seed() {
    let mut rng = Xorshift64::new(1);
    assert_ne!(rng.next(), 0);
}

#[test]
fn consecutive_outputs_differ() {
    let mut rng = Xorshift64::new(12345);
    let a = rng.next();
    let b = rng.next();
    assert_ne!(a, b);
}

#[test]
fn same_seed_produces_same_sequence() {
    let mut r1 = Xorshift64::new(99);
    let mut r2 = Xorshift64::new(99);
    assert_eq!(r1.next(), r2.next());
    assert_eq!(r1.next(), r2.next());
}

#[test]
fn different_seeds_produce_different_outputs() {
    let mut r1 = Xorshift64::new(1);
    let mut r2 = Xorshift64::new(2);
    assert_ne!(r1.next(), r2.next());
}

#[test]
fn xorshift_first_step_from_one() {
    // 1 ^ (1 << 13) = 0x2001; ^ (>> 7) = 0x2041; ^ (<< 17) = 0x4082_2041
    let mut rng = Xorshift64::new(1);
    assert_eq!(rng.next(), 0x4082_2041);
    assert_eq!(rng.0, 0x4082_2041);
}

#[test]
fn zero_seed_stays_zero() {
    let mut rng = Xorshift64::new(0);
    assert_eq!(rng.next(), 0);
}

#[test]
fn lcg_step_wraps() {
    let mut server = RandomGeneratorServer::new(1);
    assert_eq!(server.next(), 1103515245u32.wrapping_add(12345));
    let mut server = RandomGeneratorServer::new(0);
    assert_eq!(server.next(), 12345);
}

#[test]
fn next_u64_joins_two_steps() {
    let mut a = RandomGeneratorServer::new(0xFACADA);
    let mut b = RandomGeneratorServer::new(0xFACADA);
    let hi = b.next() as u64;
    let lo = b.next() as u64;
    assert_eq!(a.next_u64(), (hi << 32) | lo);
    assert_eq!(a.next(), b.next());
}

#[test]
fn next_range_stays_in_bounds() {
    let mut a = RandomGeneratorServer::new(7);
    let mut b = RandomGeneratorServer::new(7);
    for _ in 0..50 {
        let v = a.next_range(10, 20);
        assert!((10..=20).contains(&v));
        assert_eq!(v, 10 + b.next() % 11);
    }
    assert_eq!(a.next_range(5, 5), 5);
}
