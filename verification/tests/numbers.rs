use amicola::Scalar;

fn number(v: f32) -> Scalar {
    Scalar { bits: v.to_bits() }
}

fn single(s: Scalar) -> f32 {
    f32::from_bits(s.bits)
}

fn agree(s: Scalar, v: f32) -> bool {
    if v.is_nan() {
        single(s).is_nan()
    } else {
        s.bits == v.to_bits()
    }
}

fn next(state: &mut u64) -> u64 {
    *state ^= *state << 13;
    *state ^= *state >> 7;
    *state ^= *state << 17;
    *state
}

fn corner_cases() -> Vec<f32> {
    let mut v = vec![
        0.0,
        1.0,
        0.5,
        1.5,
        2.5,
        3.0,
        1.0e10,
        9.3e18,
        1.0e30,
        16777216.0,
        16777217.0,
        f32::MAX,
        f32::MIN_POSITIVE,
        f32::EPSILON,
        f32::INFINITY,
        f32::NAN,
    ];
    for bits in [1u32, 2, 3, 5, 0x7f_ffff, 0x80_0001, 0xff_ffff, 0x100_0000, 0x100_0001, 0x7f7f_fffe] {
        v.push(f32::from_bits(bits));
    }
    let negative: Vec<f32> = v.iter().map(|x| -x).collect();
    v.extend(negative);
    v
}

fn many_pairs() -> Vec<(f32, f32)> {
    let mut pairs = Vec::new();
    for a in corner_cases() {
        for b in corner_cases() {
            pairs.push((a, b));
        }
    }
    let mut state = 0x9e37_79b9_7f4a_7c15u64;
    for _ in 0..200_000 {
        let a = next(&mut state) as u32;
        let b = next(&mut state) as u32;
        pairs.push((f32::from_bits(a), f32::from_bits(b)));
        // Exponents close to each other, where bits are lost or cancel.
        let shift = (next(&mut state) % 60) as u32;
        let near = (a & 0x7fff_ffff).wrapping_sub(shift * 0x40_0000) ^ (b & 0x807f_ffff);
        pairs.push((f32::from_bits(a), f32::from_bits(near)));
    }
    pairs
}

#[test]
fn sums_and_differences_are_those_of_singles() {
    for (a, b) in many_pairs() {
        let (x, y) = (number(a), number(b));
        assert!(agree(x.plus(y), a + b), "{:?} + {:?}", a, b);
        assert!(agree(x.minus(y), a - b), "{:?} - {:?}", a, b);
    }
}

#[test]
fn halves_floors_and_signs_are_those_of_singles() {
    for (a, b) in many_pairs() {
        for v in [a, b] {
            let s = number(v);
            assert!(agree(s.halved(), v / 2.), "{:?} / 2", v);
            assert_eq!(s.floor(), v.floor() as isize, "floor of {:?}", v);
            assert!(agree(s.abs(), v.abs()));
            assert!(agree(s.negated(), -v));
        }
    }
}

#[test]
fn comparisons_are_those_of_singles() {
    for (a, b) in many_pairs() {
        let (x, y) = (number(a), number(b));
        assert_eq!(x.partial_cmp(&y), a.partial_cmp(&b));
        assert_eq!(x == y, a == b);
        assert_eq!(x < y, a < b);
        assert_eq!(x.at_most(y), a <= b);
    }
}

#[test]
fn whole_numbers_become_the_nearest_singles() {
    let mut state = 0x1234_5678_9abc_def1u64;
    let mut whole: Vec<isize> = vec![0, 1, -1, 7, 16777217, -16777217, 16777219, isize::MAX, isize::MIN];
    for _ in 0..100_000 {
        let n = next(&mut state) as isize;
        whole.push(n >> (next(&mut state) % 64));
    }
    for n in whole {
        assert_eq!(Scalar::from_isize(n).bits, (n as f32).to_bits(), "{}", n);
    }
}

#[test]
fn exact_values_of_numbers() {
    assert_eq!(number(0.1).plus(number(0.2)).bits, 0x3e99_999a);
    assert_eq!(number(1.0).minus(number(f32::EPSILON)).bits, 0x3f7f_fffe);
    assert_eq!(number(3.0).halved().bits, 0x3fc0_0000);
    assert_eq!(number(-0.5).floor(), -1);
    assert_eq!(number(7.99).floor(), 7);
    assert_eq!(number(f32::NAN).floor(), 0);
    assert_eq!(number(f32::INFINITY).floor(), isize::MAX);
    assert_eq!(number(f32::NEG_INFINITY).floor(), isize::MIN);
    assert_eq!(Scalar::from_isize(5).bits, 0x40a0_0000);
    assert_eq!(number(2.0).negated().bits, 0xc000_0000);
    assert_eq!(number(-2.0).abs().bits, 0x4000_0000);
}

#[test]
fn a_sum_is_the_nearest_number() {
    // 2^24 + 1 lies halfway between two numbers: the even one is taken.
    assert_eq!(number(16777216.0).plus(number(1.0)).bits, number(16777216.0).bits);
    assert_eq!(number(16777218.0).plus(number(1.0)).bits, number(16777220.0).bits);
    assert!(single(number(f32::MAX).plus(number(f32::MAX))).is_infinite());
}
