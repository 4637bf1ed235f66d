use ant_colony::rng::{LCG_INCREMENT, LCG_MULTIPLIER};
use ant_colony::SimpleRng;

#[test]
fn draw_follows_the_linear_congruential_step() {
    let mut rng = SimpleRng::new(42);
    let expected_state = 42u64.wrapping_mul(LCG_MULTIPLIER).wrapping_add(LCG_INCREMENT);
    assert_eq!(rng.next_bits(), expected_state >> 11);
    let second = expected_state.wrapping_mul(LCG_MULTIPLIER).wrapping_add(LCG_INCREMENT);
    assert_eq!(rng.next_bits(), second >> 11);
}

#[test]
fn same_seed_same_stream() {
    let mut a = SimpleRng::new(7);
    let mut b = SimpleRng::new(7);
    for _ in 0..100 {
        let x = a.next_bits();
        assert_eq!(x, b.next_bits());
        assert!(x < (1u64 << 53));
    }
}

#[test]
fn draws_change_the_state() {
    let mut rng = SimpleRng::new(0);
    let first = rng.next_bits();
    let second = rng.next_bits();
    assert_eq!(first, LCG_INCREMENT >> 11);
    assert_ne!(first, second);
}
