use osp_core::sim::game_draw_bits;

#[test]
fn game_draw_bits_is_in_range_deterministic_and_keyed() {
    let u0 = game_draw_bits(7, 10, 20, 0);
    assert!(u0 < (1u64 << 53));
    assert_eq!(u0, game_draw_bits(7, 10, 20, 0));
    assert_ne!(u0, game_draw_bits(7, 10, 20, 1));
    assert_ne!(u0, game_draw_bits(8, 10, 20, 0));
    assert_ne!(u0, game_draw_bits(7, 10, 21, 0));
}

#[test]
fn game_draw_bits_matches_the_splitmix_chain() {
    assert_eq!(game_draw_bits(7, 10, 20, 0), 8659263889351067);
    assert_eq!(game_draw_bits(7, 10, 20, 1), 6311578995845905);
    // Zero is a fixed point of the finalizer, so an all-zero key draws zero.
    assert_eq!(game_draw_bits(0, 0, 0, 0), 0);
}

#[test]
fn game_draw_bits_reads_the_high_halves_of_the_ids() {
    let lo = 5u128;
    let shifted = lo | (1u128 << 64);
    assert_ne!(game_draw_bits(3, lo, 9, 0), game_draw_bits(3, shifted, 9, 0));
}
