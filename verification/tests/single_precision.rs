use anthroforge_core::single::Single;

fn s(x: f32) -> Single {
    Single { bits: x.to_bits() }
}

fn agree(name: &str, a: f32, b: f32, got: Single, want: f32) {
    let got = f32::from_bits(got.bits);
    if want.is_nan() {
        assert!(got.is_nan(), "{name}({a:e}, {b:e}): got {got:e}, want NaN");
    } else {
        assert_eq!(
            got.to_bits(),
            want.to_bits(),
            "{name}({a:e}, {b:e}): got {got:e}, want {want:e}"
        );
    }
}

fn check_pair(a: f32, b: f32) {
    agree("plus", a, b, s(a).plus(s(b)), a + b);
    agree("minus", a, b, s(a).minus(s(b)), a - b);
    agree("times", a, b, s(a).times(s(b)), a * b);
    agree("divided_by", a, b, s(a).divided_by(s(b)), a / b);
    agree("sqrt", a, b, s(a).sqrt(), a.sqrt());
    agree("abs", a, b, s(a).abs(), a.abs());
    assert_eq!(s(a).less_than(s(b)), a < b);
    assert_eq!(s(a).at_most(s(b)), a <= b);
    assert_eq!(s(a).is_nan(), a.is_nan());
    assert_eq!(s(a).is_finite(), a.is_finite());
    assert_eq!(s(a).is_infinite(), a.is_infinite());
    assert_eq!(s(a).is_zero(), a == 0.0);
    assert_eq!(s(a).is_negative(), a.is_sign_negative());
    assert_eq!(s(a).negate().bits, (-a).to_bits());
}

fn next(state: &mut u64) -> u32 {
    *state ^= *state << 13;
    *state ^= *state >> 7;
    *state ^= *state << 17;
    (*state >> 16) as u32
}

#[test]
fn corner_values_agree_with_the_machine() {
    let patterns: Vec<u32> = vec![
        0x0000_0000, 0x0000_0001, 0x0000_0002, 0x0000_0003, 0x007f_ffff, 0x0080_0000,
        0x0080_0001, 0x00ff_ffff, 0x0100_0000, 0x1f80_0000, 0x2000_0001, 0x3400_0000,
        0x3380_0000, 0x3380_0001, 0x337f_ffff, 0x3f00_0000, 0x3f7f_ffff, 0x3f80_0000,
        0x3f80_0001, 0x4000_0000, 0x4040_0000, 0x4b00_0000, 0x4b7f_ffff, 0x4b80_0000,
        0x4b80_0001, 0x5f00_0000, 0x5f7f_ffff, 0x7e80_0000, 0x7f00_0000, 0x7f7f_fffe,
        0x7f7f_ffff, 0x7f80_0000, 0x7f80_0001, 0x7fc0_0000, 0x7fff_ffff,
    ];
    for &p in &patterns {
        for &q in &patterns {
            for &sp in &[0u32, 0x8000_0000] {
                for &sq in &[0u32, 0x8000_0000] {
                    check_pair(f32::from_bits(p | sp), f32::from_bits(q | sq));
                }
            }
        }
    }
}

#[test]
fn random_values_agree_with_the_machine() {
    let mut state: u64 = 0x9e37_79b9_7f4a_7c15;
    for _ in 0..60_000 {
        let a = f32::from_bits(next(&mut state));
        let b = f32::from_bits(next(&mut state));
        check_pair(a, b);
    }
}

#[test]
fn values_of_like_size_agree_with_the_machine() {
    let mut state: u64 = 0x0123_4567_89ab_cdef;
    for _ in 0..60_000 {
        let p = next(&mut state);
        let a = f32::from_bits(0x3f00_0000 + (p & 0x01ff_ffff));
        let q = next(&mut state);
        let b = f32::from_bits((0x3f00_0000 + (q & 0x01ff_ffff)) | (q & 0x8000_0000));
        check_pair(a, b);
    }
}

#[test]
fn tiny_values_agree_with_the_machine() {
    let mut state: u64 = 0xdead_beef_cafe_f00d;
    for _ in 0..60_000 {
        let a = f32::from_bits(next(&mut state) & 0x81ff_ffff);
        let b = f32::from_bits(next(&mut state) & 0x81ff_ffff);
        check_pair(a, b);
        let c = f32::from_bits(0x2000_0000 + (next(&mut state) & 0x03ff_ffff));
        agree("times", c, c, s(c).times(s(c)), c * c);
    }
}

#[test]
fn multiplying_and_dividing_by_one_keeps_the_bits() {
    let one = s(1.0);
    for x in [0.0f32, -0.0, 1.5, -2.75e-40, 3.4e38, f32::INFINITY] {
        assert_eq!(s(x).times(one), s(x));
        assert_eq!(s(x).divided_by(one), s(x));
    }
}

#[test]
fn rounding_keeps_order() {
    let from = s(10.0);
    let near = s(3.1);
    let far = s(-7.7);
    assert!(from.minus(near).abs().at_most(from.minus(far).abs()));
    assert!(s(2.5).times(s(2.5)).at_most(s(-3.5).times(s(-3.5))));
    assert!(s(1e-8).at_most(s(1e-8).plus(s(1.0))));
    assert!(s(1.0).plus(s(-3.0)).at_most(s(1.0).plus(s(2.0))));
}
