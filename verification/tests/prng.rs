use bit_squares::Prng;

#[test]
fn next_is_three_shift_and_xor_steps() {
    let mut rng = Prng(1);
    assert_eq!(rng.next(), 1082269761);
    assert_eq!(rng.0, 1082269761);
    assert_eq!(rng.next(), 1152992998833853505);
    assert_eq!(rng.next(), 11177516664432764457);
}

#[test]
fn the_stream_depends_on_the_seed_alone() {
    let mut a = Prng(314159265);
    let mut b = Prng(314159265);
    for _ in 0..100 {
        assert_eq!(a.next(), b.next());
    }
    let mut c = Prng(314159266);
    assert_ne!(Prng(314159265).next(), c.next());
}

#[test]
fn the_zero_state_is_a_fixed_point() {
    let mut rng = Prng(0);
    assert_eq!(rng.next(), 0);
    assert_eq!(rng.next(), 0);
}

#[test]
fn bits_shifted_out_are_dropped() {
    let mut rng = Prng(u64::MAX);
    let a = u64::MAX ^ (u64::MAX << 13);
    let b = a ^ (a >> 7);
    let c = b ^ (b << 17);
    assert_eq!(rng.next(), c);
}
