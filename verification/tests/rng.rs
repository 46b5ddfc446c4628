use bogo_gpu::rng::{count_fixed_points, init_arr, is_in_place, splitmix64, Rng};

#[test]
fn splitmix_has_known_values() {
    assert_eq!(splitmix64(0), 0);
    assert_eq!(splitmix64(1), 0x5692161d100b05e5);
    assert_eq!(splitmix64(0x9e3779b97f4a7c15), 0xe220a8397b1dcdaf);
}

#[test]
fn outputs_are_those_of_the_generator() {
    let mut zero = Rng::new(0, 0);
    assert_eq!(zero.next_u32(), 1179900579);
    assert_eq!(zero.next_u32(), 1938959192);
    assert_eq!(zero.next_u32(), 3089844957);
    assert_eq!(zero.next_u32(), 3657088315);
    let mut other = Rng::new(42, 7);
    assert_eq!(other.next_u32(), 1888632222);
    assert_eq!(other.next_u32(), 4070912141);
    assert_eq!(other.next_u32(), 2539379907);
    assert_eq!(other.next_u32(), 3758893764);
}

#[test]
fn bounded_draws_have_known_values() {
    let mut rng = Rng::new(42, 7);
    let mut drawn: Vec<u32> = Vec::new();
    for n in [25u32, 24, 10, 7, 3, 1] {
        drawn.push(rng.next_bounded(n));
    }
    assert_eq!(drawn, vec![22, 5, 7, 3, 1, 0]);
}

#[test]
fn bounded_draws_reject_low_outputs() {
    // the first, fifth, sixth, eighth and ninth outputs lie below the threshold
    let n: u32 = 0x8000_0001;
    let mut rng = Rng::new(42, 7);
    assert_eq!(rng.next_bounded(n), 1923428492);
    assert_eq!(rng.next_bounded(n), 391896258);
    assert_eq!(rng.next_bounded(n), 1611410115);
    assert_eq!(rng.next_bounded(n), 2055057268);
}

#[test]
fn every_draw_ends() {
    for n in 1..200u32 {
        let mut rng = Rng::new(n as u64, 3);
        for _ in 0..50 {
            assert!(rng.next_bounded(n) < n);
        }
    }
    let mut rng = Rng::new(1, 1);
    for _ in 0..1000 {
        assert!(rng.next_bounded(u32::MAX) < u32::MAX);
        assert!(rng.next_bounded(0x8000_0001) <= 0x8000_0000);
        assert_eq!(rng.next_bounded(1), 0);
    }
}

#[test]
fn no_generator_is_stuck() {
    // the first or the second half of these states is zero
    let golden: u64 = 0x9e3779b97f4a7c15;
    for seed in [golden.wrapping_neg(), golden.wrapping_mul(2).wrapping_neg()] {
        let mut rng = Rng::new(seed, 0);
        let outputs = [rng.next_u32(), rng.next_u32(), rng.next_u32(), rng.next_u32()];
        assert_ne!(outputs, [0, 0, 0, 0]);
    }
}

#[test]
fn accepted_outputs_are_whole_rounds() {
    // with this bound about half of the outputs are rejected
    let n: u32 = 0x8000_0001;
    let mut raw = Rng::new(42, 7);
    let mut drawn = Rng::new(42, 7);
    for _ in 0..200 {
        let mut output = raw.next_u32();
        while output < 0x7fff_ffff {
            output = raw.next_u32();
        }
        assert_eq!(drawn.next_bounded(n), output % n);
    }
}

#[test]
fn outputs_do_not_repeat_soon() {
    let mut rng = Rng::new(5, 6);
    let first = [rng.next_u32(), rng.next_u32(), rng.next_u32(), rng.next_u32()];
    for _ in 0..100_000 {
        let window = [rng.next_u32(), rng.next_u32(), rng.next_u32(), rng.next_u32()];
        assert_ne!(window, first);
    }
}

#[test]
fn shuffles_are_those_of_the_verifier() {
    assert_eq!(
        Rng::new(0, 0).shuffle(),
        [
            16, 18, 13, 21, 11, 19, 24, 15, 22, 1, 7, 8, 14, 10, 23, 20, 4, 17, 6, 12, 25, 2, 3, 9,
            5
        ]
    );
    assert_eq!(
        Rng::new(42, 7).shuffle(),
        [
            3, 17, 15, 14, 9, 1, 21, 24, 10, 4, 8, 12, 7, 22, 16, 19, 13, 18, 25, 20, 5, 11, 2, 6,
            23
        ]
    );
    assert_eq!(
        Rng::new(u64::MAX, u64::MAX).shuffle(),
        [
            14, 13, 12, 7, 16, 11, 3, 24, 15, 9, 4, 17, 1, 2, 20, 19, 22, 5, 25, 18, 8, 10, 23, 6,
            21
        ]
    );
    assert_eq!(
        Rng::new(123456789, 1000).shuffle(),
        [
            24, 14, 19, 11, 13, 5, 4, 20, 8, 18, 3, 6, 2, 25, 15, 22, 16, 23, 7, 12, 21, 9, 1, 10,
            17
        ]
    );
}

#[test]
fn indices_are_independent() {
    let mut rng = Rng::new(42, 6);
    let _ = rng.shuffle();
    assert_eq!(Rng::new(42, 7).shuffle(), Rng::new(42, 7).shuffle());
    assert_ne!(rng.shuffle(), Rng::new(42, 7).shuffle());
}

#[test]
fn an_index_is_a_shift_of_the_seed() {
    let golden: u64 = 0x9e3779b97f4a7c15;
    assert_eq!(
        Rng::new(42, 1000).shuffle(),
        Rng::new(42u64.wrapping_add(golden.wrapping_mul(999)), 1).shuffle()
    );
}

#[test]
fn a_shuffle_holds_every_number_once() {
    for index in 0..200u64 {
        let mut arr = Rng::new(7, index).shuffle();
        arr.sort();
        assert_eq!(arr, init_arr());
    }
}

#[test]
fn fixed_points_are_counted() {
    let ordered = init_arr();
    assert_eq!(ordered[0], 1);
    assert_eq!(ordered[24], 25);
    assert_eq!(count_fixed_points(&ordered), 25);
    let mut turned = ordered;
    turned.rotate_left(1);
    assert_eq!(count_fixed_points(&turned), 0);
    let mut swapped = ordered;
    swapped.swap(3, 9);
    assert_eq!(count_fixed_points(&swapped), 23);
    assert!(is_in_place(&swapped, 2));
    assert!(!is_in_place(&swapped, 3));
    assert_eq!(count_fixed_points(&Rng::new(42, 7).shuffle()), 3);
    assert_eq!(count_fixed_points(&[0u8; 25]), 0);
}

#[test]
fn no_shuffle_has_exactly_one_number_out_of_place() {
    for index in 0..500u64 {
        assert_ne!(count_fixed_points(&Rng::new(99, index).shuffle()), 24);
    }
}
