//! The Halton generator against known sequences and the brute-force
//! digit expansion.

use tapas::Halton;
use tapas::Sampler;

/// Next value as a double, from the exact fraction.
fn next_f64(h: &mut Halton) -> f64 {
    assert!(h.ready());
    let (num, den) = h.next_parts();
    num as f64 / den as f64
}

/// Brute-force element `index` of the base-`base` Halton sequence.
fn brute_force(index: u32, base: u32) -> f64 {
    let mut i = if index == 0 { 1 } else { index };
    let base = if base < 2 { 2 } else { base };
    let mut f = 1f64;
    let mut r = 0f64;
    while i > 0 {
        f /= base as f64;
        r += f * (i % base) as f64;
        i /= base;
    }
    r
}

fn assert_known(mut sampler: Halton, seq: &[f64]) {
    for (pos, s) in seq.iter().enumerate() {
        let sampled = next_f64(&mut sampler);
        assert!(
            (s - sampled).abs() < f64::EPSILON,
            "sampled value {} != {} at position {}",
            sampled,
            s,
            pos
        );
    }
}

#[test]
fn compare_to_known_base_2() {
    assert_known(
        Halton::new(1, 2),
        &[
            1. / 2.,
            1. / 4.,
            3. / 4.,
            1. / 8.,
            5. / 8.,
            3. / 8.,
            7. / 8.,
            1. / 16.,
            9. / 16.,
        ],
    );
}

#[test]
fn compare_to_known_base_3() {
    assert_known(
        Halton::new(1, 3),
        &[
            1. / 3.,
            2. / 3.,
            1. / 9.,
            4. / 9.,
            7. / 9.,
            2. / 9.,
            5. / 9.,
            8. / 9.,
            1. / 27.,
        ],
    );
}

#[test]
fn compare_to_brute_force() {
    let cases: &[(u32, u32)] = &[
        (1, 2),
        (1, 3),
        (7, 2),
        (100, 7),
        (1000, 10),
        (65536, 2),
        (123456, 3),
        (1, 4294967295),
        (12345, 4294967295),
        (0, 0),
        (0, 1),
        (42, 1),
    ];
    for &(index, base) in cases {
        let i = if index == 0 { 1 } else { index };
        let b = if base < 2 { 2 } else { base };
        let mut sampler = Halton::new(i, b);
        let sampled = next_f64(&mut sampler);
        let bf = brute_force(i, b);
        assert!(
            (sampled - bf).abs() < f64::EPSILON * 2.,
            "index {} base {}: {} != {}",
            i,
            b,
            sampled,
            bf
        );
    }
}

#[test]
fn compare_to_range() {
    let cases: &[(u32, u32, u32)] = &[(2, 1, 200), (3, 5, 150), (7, 40, 120), (10, 990, 1100)];
    for &(base, start, end) in cases {
        let mut sampler = Halton::new(start, base);
        for i in start..end {
            let sampled = next_f64(&mut sampler);
            let bf = brute_force(i, base);
            assert!(
                (sampled - bf).abs() < f64::EPSILON * 2.,
                "index {} base {}: {} != {}",
                i,
                base,
                sampled,
                bf
            );
        }
    }
}

#[test]
fn values_stay_in_unit_interval() {
    for base in [2u32, 3, 5, 31, 4294967295] {
        let mut sampler = Halton::new(1, base);
        for _ in 0..500 {
            let (num, den) = {
                assert!(sampler.ready());
                sampler.next_parts()
            };
            assert!(num < den);
            let v = num as f64 / den as f64;
            assert!(v >= 0. && v < 1.);
            assert!(!v.is_nan());
        }
    }
}

#[test]
fn carry_across_power_boundaries() {
    // Step over index = base^k for several k: the digit vector grows there
    // and the value must be exactly 1 / base^(k+1).
    for base in [2u32, 3, 5] {
        for k in 1..5u32 {
            let boundary = base.pow(k);
            let mut sampler = Halton::new(boundary - 1, base);
            let before = next_f64(&mut sampler);
            assert!(before >= 0. && before < 1. && !before.is_nan());
            let at = next_f64(&mut sampler);
            let expected = 1. / (base as f64).powi(k as i32 + 1);
            assert!(
                (at - expected).abs() < f64::EPSILON,
                "base {} boundary {}: {} != {}",
                base,
                boundary,
                at,
                expected
            );
        }
    }
}

#[test]
fn skip_discards_values() {
    let mut sampler = Halton::new(1, 2);
    sampler.skip(3);
    // Values 1/2, 1/4, 3/4 are skipped; the next is the fourth element.
    assert_eq!(next_f64(&mut sampler), 1. / 8.);

    let mut plain = Halton::new(1, 2);
    for _ in 0..3 {
        next_f64(&mut plain);
    }
    assert_eq!(next_f64(&mut plain), 1. / 8.);
}

#[test]
fn start_index_is_honoured() {
    // The first produced value is the one at the start index.
    let mut sampler = Halton::new(5, 2);
    assert_eq!(next_f64(&mut sampler), 5. / 8.);
    let mut sampler = Halton::new(23, 23);
    assert!((next_f64(&mut sampler) - brute_force(23, 23)).abs() < f64::EPSILON);
}

#[test]
fn invalid_construction_inputs_are_clamped() {
    // Index below 1 behaves as 1 and base below 2 behaves as 2.
    let mut clamped = Halton::new(0, 0);
    assert_eq!(next_f64(&mut clamped), 1. / 2.);
    let mut clamped = Halton::new(0, 1);
    assert_eq!(next_f64(&mut clamped), 1. / 2.);
    let mut reference = Halton::new(1, 2);
    let mut clamped = Halton::new(0, 2);
    for _ in 0..10 {
        assert_eq!(next_f64(&mut clamped), next_f64(&mut reference));
    }
}

#[test]
fn unsigned_conversions_floor_the_scaled_value() {
    // First value of the base-2 sequence is exactly 1/2, so the scaled
    // conversions have exact expected values.
    let mut sampler = Halton::new(1, 2);
    assert_eq!(sampler.next_u64(), u64::MAX / 2);
    let mut sampler = Halton::new(1, 2);
    assert_eq!(sampler.next_u32(), u32::MAX / 2);
    // Second value is 1/4.
    let mut sampler = Halton::new(2, 2);
    assert_eq!(sampler.next_u64(), u64::MAX / 4);
    let mut sampler = Halton::new(2, 2);
    assert_eq!(sampler.next_u32(), u32::MAX / 4);
}

#[test]
fn exact_fractions_match_known_values() {
    // The exact fractions themselves, without any floating point.
    let mut sampler = Halton::new(1, 2);
    assert_eq!(sampler.next_parts(), (1, 2));
    assert_eq!(sampler.next_parts(), (1, 4));
    assert_eq!(sampler.next_parts(), (3, 4));
    assert_eq!(sampler.next_parts(), (1, 8));
    assert_eq!(sampler.next_parts(), (5, 8));
    let mut sampler = Halton::new(1, 3);
    assert_eq!(sampler.next_parts(), (1, 3));
    assert_eq!(sampler.next_parts(), (2, 3));
    assert_eq!(sampler.next_parts(), (1, 9));
    assert_eq!(sampler.next_parts(), (4, 9));
}
