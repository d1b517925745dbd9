//! Round-robin interleaving of Halton generators.

use tapas::Halton;
use tapas::Interleave;
use tapas::Sampler;

/// Next value of the interleaved stream as a double.
fn next_f64(g: &mut Interleave<Halton>) -> f64 {
    assert!(g.ready());
    let (num, den) = g.next_parts();
    num as f64 / den as f64
}

#[test]
fn interleave_wrap() {
    // Interleaving the known base-2 and base-3 sequences takes their
    // elements alternately.
    let mut gen = Interleave::new(vec![Halton::new(1, 2), Halton::new(1, 3)]);
    let seq = [
        // base 2 | base 3
        1. / 2.,
        1. / 3.,
        1. / 4.,
        2. / 3.,
        3. / 4.,
        1. / 9.,
        1. / 8.,
        4. / 9.,
        5. / 8.,
        7. / 9.,
        3. / 8.,
        2. / 9.,
        7. / 8.,
        5. / 9.,
        1. / 16.,
        8. / 9.,
        9. / 16.,
        1. / 27.,
    ];
    for (pos, s) in seq.iter().enumerate() {
        let sampled = next_f64(&mut gen);
        assert!(
            (s - sampled).abs() < f64::EPSILON,
            "sampled value {} != {} at position {}",
            sampled,
            s,
            pos
        );
    }
}

#[test]
fn interleave_matches_own_streams() {
    // The combined stream at position k equals the (k / len)-th own value
    // of generator k % len, for three generators.
    let bases = [2u32, 3, 5];
    let mut gen = Interleave::new(vec![
        Halton::new(1, 2),
        Halton::new(1, 3),
        Halton::new(1, 5),
    ]);
    let mut own: Vec<Vec<(u64, u64)>> = Vec::new();
    for &b in bases.iter() {
        let mut h = Halton::new(1, b);
        let mut vals = Vec::new();
        for _ in 0..40 {
            vals.push(h.next_parts());
        }
        own.push(vals);
    }
    for k in 0..120usize {
        let got = gen.next_parts();
        let expected = own[k % 3][k / 3];
        assert_eq!(got, expected, "position {}", k);
    }
}

#[test]
fn interleave_first_values() {
    let mut gen = Interleave::new(vec![Halton::new(1, 13), Halton::new(1, 17)]);
    assert!((next_f64(&mut gen) - 1. / 13.).abs() < f64::EPSILON);
    assert!((next_f64(&mut gen) - 1. / 17.).abs() < f64::EPSILON);
}

#[test]
fn interleave_unsigned_conversions() {
    let mut gen = Interleave::new(vec![Halton::new(1, 2), Halton::new(1, 4)]);
    // First values are 1/2 and 1/4.
    assert_eq!(gen.next_u64(), u64::MAX / 2);
    assert_eq!(gen.next_u64(), u64::MAX / 4);
    let mut gen = Interleave::new(vec![Halton::new(1, 2), Halton::new(1, 4)]);
    assert_eq!(gen.next_u32(), u32::MAX / 2);
    assert_eq!(gen.next_u32(), u32::MAX / 4);
}

#[test]
fn interleave_single_generator_is_transparent() {
    let mut alone = Interleave::new(vec![Halton::new(1, 7)]);
    let mut plain = Halton::new(1, 7);
    for _ in 0..50 {
        assert_eq!(alone.next_parts(), plain.next_parts());
    }
}
