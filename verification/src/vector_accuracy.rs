use crate::accuracy;
use crate::rounding;
use crate::single;
use crate::single::{Single, EPSILON_BITS};
use crate::vector;
use vstd::arithmetic::power2::*;
use vstd::prelude::*;

verus! {

/// The dot product of what two vectors stand for, in real numbers.
pub open spec fn exact_dot(a: [Single; 3], b: [Single; 3]) -> real {
    a[0].value() * b[0].value() + a[1].value() * b[1].value() + a[2].value() * b[2].value()
}

/// A unit vector: finite, and the exact square of its length is 1, up to 2^-19.
pub open spec fn is_unit(n: [Single; 3]) -> bool {
    &&& vector::finite(n)
    &&& accuracy::apart(exact_dot(n, n), 1 as real) <= 32 as real * accuracy::roundoff()
}

/// What a finite result was computed from is finite.
proof fn lemma_finite_operands(a: Single, b: Single)
    ensures
        a.sum(b).finite() ==> a.finite() && b.finite(),
        a.product(b).finite() ==> a.finite() && b.finite(),
{
    reveal(Single::sum);
    reveal(Single::product);
}

/// How small the smallest step is, how large the limit, and the values of the
/// constants.
pub(crate) proof fn lemma_constants()
    ensures
        ({
            let u = accuracy::roundoff();
            &&& (0 as real) < accuracy::smallest_step() <= u * u * u * u
            &&& accuracy::smallest_step() * accuracy::limit() == 4 as real * u
            &&& accuracy::limit() >= 0x1_0000_0000_0000 as real
            &&& Single::one().value() == 1 as real
            &&& (Single { bits: EPSILON_BITS }).value() == 2 as real * u
        }),
{
    accuracy::lemma_steps();
    single::lemma_one_is_unit();
    lemma2_to64();
    lemma2_to64_rest();
    let t = accuracy::steps_in_one();
    let u = accuracy::roundoff();
    let c = 0x100_0000 as real;
    // 2^96 = (2^24)^4, and 2^149 is above it.
    lemma_pow2_adds(24, 24);
    lemma_pow2_adds(48, 48);
    lemma_pow2_strictly_increases(96, 149);
    accuracy::lemma_product_as_real(pow2(48) as int, pow2(48) as int);
    assert(t >= 0x1_0000_0000_0000 as real * 0x1_0000_0000_0000 as real);
    assert(accuracy::smallest_step() <= u * u * u * u) by (nonlinear_arith)
        requires
            accuracy::smallest_step() == 1 as real / t,
            u == 1 as real / 0x100_0000 as real,
            t >= 0x1_0000_0000_0000 as real * 0x1_0000_0000_0000 as real,
    ;
    lemma_pow2_strictly_increases(48, 127);
    assert(accuracy::smallest_step() * accuracy::limit() == 4 as real * u) by {
        lemma_pow2_adds(127, 22);
        accuracy::lemma_product_as_real(pow2(127) as int, pow2(22) as int);
        let l = accuracy::limit();
        assert((1 as real / t) * l == 4 as real * u) by (nonlinear_arith)
            requires
                t == l * 0x40_0000 as real,
                t > 0 as real,
                u == 1 as real / 0x100_0000 as real,
        ;
    }
    assert(Single::one().value() == 1 as real) by {
        assert(t / t == 1 as real) by (nonlinear_arith)
            requires
                t > 0 as real,
        ;
    }
    assert((Single { bits: EPSILON_BITS }).value() == 2 as real * u) by {
        let e = Single { bits: EPSILON_BITS };
        rounding::lemma_magnitude_at(103, 0x80_0000);
        lemma_pow2_adds(23, 103);
        lemma_pow2_adds(126, 23);
        accuracy::lemma_product_as_real(pow2(126) as int, pow2(23) as int);
        let w = pow2(126) as real;
        lemma_pow2_pos(126);
        assert(e.scaled() == pow2(126));
        assert(w / t == 2 as real * u) by (nonlinear_arith)
            requires
                t == w * 0x80_0000 as real,
                w > 0 as real,
                u == 1 as real / 0x100_0000 as real,
        ;
    }
}

/// A square is rounded like any product, and is not negative.
proof fn lemma_square_accurate(a: Single)
    requires
        a.product(a).finite(),
    ensures
        a.finite(),
        !a.product(a).negative(),
        a.value() * a.value() >= 0 as real,
        a.product(a).value() >= 0 as real,
        accuracy::apart(a.product(a).value(), a.value() * a.value())
            <= accuracy::roundoff() * (a.value() * a.value()) + accuracy::smallest_step(),
{
    lemma_finite_operands(a, a);
    accuracy::law_product_is_accurate(a, a);
    single::law_square_grows_with_magnitude(a, a);
    accuracy::lemma_value_parts(a.product(a));
    let v = a.value();
    assert(v * v >= 0 as real) by (nonlinear_arith);
}

/// A sum of two numbers that are not negative is not negative either.
proof fn lemma_positive_sum_accurate(a: Single, b: Single)
    requires
        a.sum(b).finite(),
        !a.negative(),
        !b.negative(),
    ensures
        !a.sum(b).negative(),
        a.value() >= 0 as real,
        b.value() >= 0 as real,
        a.sum(b).value() >= 0 as real,
        accuracy::apart(a.sum(b).value(), a.value() + b.value())
            <= accuracy::roundoff() * (a.value() + b.value()) + accuracy::smallest_step(),
{
    lemma_finite_operands(a, b);
    accuracy::law_sum_is_accurate(a, b);
    single::law_sum_no_smaller_than_parts(a, b);
    accuracy::lemma_value_parts(a);
    accuracy::lemma_value_parts(b);
    accuracy::lemma_value_parts(a.sum(b));
}

/// The computed square of a vector's length is the exact one up to rounding.
pub(crate) proof fn lemma_dot_with_itself(a: [Single; 3])
    requires
        vector::dot(a, a).finite(),
    ensures
        vector::finite(a),
        !vector::dot(a, a).negative(),
        exact_dot(a, a) >= 0 as real,
        accuracy::apart(vector::dot(a, a).value(), exact_dot(a, a)) <= 4 as real
            * accuracy::roundoff() * exact_dot(a, a) + 8 as real * accuracy::smallest_step(),
{
    let x = a[0].product(a[0]);
    let y = a[1].product(a[1]);
    let z = a[2].product(a[2]);
    lemma_finite_operands(x.sum(y), z);
    lemma_finite_operands(x, y);
    lemma_square_accurate(a[0]);
    lemma_square_accurate(a[1]);
    lemma_square_accurate(a[2]);
    lemma_positive_sum_accurate(x, y);
    lemma_positive_sum_accurate(x.sum(y), z);
    lemma_constants();
    let u = accuracy::roundoff();
    let h = accuracy::smallest_step();
    let s1 = x.sum(y).value();
    let s2 = x.sum(y).sum(z).value();
    let e0 = a[0].value() * a[0].value();
    let e1 = a[1].value() * a[1].value();
    let e2 = a[2].value() * a[2].value();
    let e = exact_dot(a, a);
    assert(e == e0 + e1 + e2);
    lemma_three_rounded(e0, e1, e2, x.value(), y.value(), z.value(), s1, s2, h);
}

/// How the errors of three roundings and two sums add up.
proof fn lemma_three_rounded(
    e0: real,
    e1: real,
    e2: real,
    x: real,
    y: real,
    z: real,
    s1: real,
    s2: real,
    h: real,
)
    requires
        e0 >= 0 as real,
        e1 >= 0 as real,
        e2 >= 0 as real,
        h >= 0 as real,
        accuracy::apart(x, e0) <= accuracy::roundoff() * e0 + h,
        accuracy::apart(y, e1) <= accuracy::roundoff() * e1 + h,
        accuracy::apart(z, e2) <= accuracy::roundoff() * e2 + h,
        accuracy::apart(s1, x + y) <= accuracy::roundoff() * (x + y) + h,
        accuracy::apart(s2, s1 + z) <= accuracy::roundoff() * (s1 + z) + h,
    ensures
        accuracy::apart(s2, e0 + e1 + e2) <= 4 as real * accuracy::roundoff() * (e0 + e1 + e2)
            + 8 as real * h,
{
    let u = accuracy::roundoff();
    let e = e0 + e1 + e2;
    assert(s2 - e <= 4 as real * u * e + 8 as real * h) by (nonlinear_arith)
        requires
            u == 1 as real / 0x100_0000 as real,
            e == e0 + e1 + e2,
            e0 >= 0 as real,
            e1 >= 0 as real,
            e2 >= 0 as real,
            h >= 0 as real,
            x - e0 <= u * e0 + h,
            y - e1 <= u * e1 + h,
            z - e2 <= u * e2 + h,
            s1 - (x + y) <= u * (x + y) + h,
            s2 - (s1 + z) <= u * (s1 + z) + h,
    ;
    assert(e - s2 <= 4 as real * u * e + 8 as real * h) by (nonlinear_arith)
        requires
            u == 1 as real / 0x100_0000 as real,
            e == e0 + e1 + e2,
            e0 >= 0 as real,
            e1 >= 0 as real,
            e2 >= 0 as real,
            h >= 0 as real,
            e0 - x <= u * e0 + h,
            e1 - y <= u * e1 + h,
            e2 - z <= u * e2 + h,
            (x + y) - s1 <= u * (x + y) + h,
            (s1 + z) - s2 <= u * (s1 + z) + h,
    ;
}

/// No finite number is beyond 2^128.
proof fn lemma_finite_bound(a: Single)
    requires
        a.finite(),
    ensures
        accuracy::size(a.value()) <= 2 as real * accuracy::limit(),
{
    accuracy::lemma_steps();
    accuracy::lemma_value_parts(a);
    rounding::lemma_magnitude_increases(a.index(), rounding::INFINITY_INDEX as int);
    rounding::lemma_magnitude_at(253, 0x100_0000);
    lemma2_to64();
    lemma_pow2_adds(24, 253);
    lemma_pow2_unfold(277);
    let t = accuracy::steps_in_one();
    let l = accuracy::limit();
    let m = rounding::magnitude(a.index()) as real;
    let v = accuracy::size(a.value());
    assert(v <= 2 as real * l) by (nonlinear_arith)
        requires
            v == m / t,
            m <= 2 as real * (l * t),
            t > 0 as real,
    ;
}

/// The computed length of a vector that has a direction is the exact one up to
/// rounding.
pub(crate) proof fn lemma_length(a: [Single; 3])
    requires
        vector::has_direction(a),
    ensures
        ({
            let u = accuracy::roundoff();
            let length = vector::length(a).value();
            &&& vector::finite(a)
            &&& vector::length(a).finite()
            &&& !vector::length(a).zero()
            &&& length >= 2 as real * u
            &&& accuracy::smallest_step() * length <= u * u
            &&& accuracy::apart(exact_dot(a, a), length * length) <= 7 as real * u * (length
                * length)
        }),
{
    reveal(Single::square_root);
    lemma_constants();
    let square = vector::dot(a, a);
    let root = vector::length(a);
    let least = Single { bits: EPSILON_BITS };
    assert(root.key() > least.key());
    assert(square.finite());
    lemma_dot_with_itself(a);
    single::lemma_key_order(least, root);
    accuracy::lemma_steps();
    accuracy::law_square_root_is_accurate(square);
    lemma_finite_bound(square);
    accuracy::lemma_value_parts(square);
    let t = accuracy::steps_in_one();
    let u = accuracy::roundoff();
    let h = accuracy::smallest_step();
    let l = accuracy::limit();
    let r = root.value();
    let s = square.value();
    let e = exact_dot(a, a);
    assert(r >= 2 as real * u) by {
        let x = root.scaled() as real;
        let y = least.scaled() as real;
        assert(x / t >= y / t) by (nonlinear_arith)
            requires
                x >= y,
                t > 0 as real,
        ;
    }
    let q = r * r;
    let low = (1 as real - u) * r;
    let high = (1 as real + u) * r;
    assert(low * low == (1 as real - u) * (1 as real - u) * q) by (nonlinear_arith)
        requires
            low == (1 as real - u) * r,
            q == r * r,
    ;
    assert(high * high == (1 as real + u) * (1 as real + u) * q) by (nonlinear_arith)
        requires
            high == (1 as real + u) * r,
            q == r * r,
    ;
    assert(q >= 4 as real * (u * u)) by (nonlinear_arith)
        requires
            q == r * r,
            r >= 2 as real * u,
            u > 0 as real,
    ;
    assert(h <= u * u * q) by (nonlinear_arith)
        requires
            h <= u * u * u * u,
            q >= 4 as real * (u * u),
            u > 0 as real,
    ;
    assert(accuracy::apart(e, q) <= 7 as real * u * q) by {
        assert(e - q <= 7 as real * u * q) by (nonlinear_arith)
            requires
                u == 1 as real / 0x100_0000 as real,
                h <= u * u * q,
                q > 0 as real,
                e >= 0 as real,
                e - s <= 4 as real * u * e + 8 as real * h,
                s <= (1 as real + u) * (1 as real + u) * q,
        ;
        assert(q - e <= 7 as real * u * q) by (nonlinear_arith)
            requires
                u == 1 as real / 0x100_0000 as real,
                h <= u * u * q,
                q > 0 as real,
                e >= 0 as real,
                s - e <= 4 as real * u * e + 8 as real * h,
                s >= (1 as real - u) * (1 as real - u) * q,
        ;
    }
    assert(h * r <= u * u) by {
        assert(q <= 4 as real * l) by (nonlinear_arith)
            requires
                s <= 2 as real * l,
                s >= (1 as real - u) * (1 as real - u) * q,
                u == 1 as real / 0x100_0000 as real,
                q > 0 as real,
        ;
        let x = h * r;
        let v = u * u;
        assert(x * x <= 16 as real * (h * u)) by (nonlinear_arith)
            requires
                x == h * r,
                q == r * r,
                q <= 4 as real * l,
                h * l == 4 as real * u,
                h > 0 as real,
        {
            assert(x * x == h * (h * q)) by (nonlinear_arith)
                requires
                    x == h * r,
                    q == r * r,
            ;
            assert(h * q <= 16 as real * u) by (nonlinear_arith)
                requires
                    q <= 4 as real * l,
                    h * l == 4 as real * u,
                    h > 0 as real,
            ;
        }
        assert(16 as real * (h * u) <= v * v) by (nonlinear_arith)
            requires
                h <= u * u * u * u,
                v == u * u,
                u == 1 as real / 0x100_0000 as real,
        ;
        assert(v >= 0 as real) by (nonlinear_arith)
            requires
                v == u * u,
        ;
        assert(x <= v) by (nonlinear_arith)
            requires
                x * x <= v * v,
                v >= 0 as real,
        ;
    }
}

pub(crate) proof fn lemma_multiply_bounds(x: real, x_max: real, y: real, y_max: real)
    requires
        0 as real <= x <= x_max,
        0 as real <= y <= y_max,
    ensures
        0 as real <= x * y <= x_max * y_max,
{
    assert(0 as real <= x * y <= x_max * y_max) by (nonlinear_arith)
        requires
            0 as real <= x <= x_max,
            0 as real <= y <= y_max,
    ;
}

pub(crate) proof fn lemma_multiply_order(c: real, x: real, y: real)
    requires
        c >= 0 as real,
        x <= y,
    ensures
        c * x <= c * y,
{
    assert(c * x <= c * y) by (nonlinear_arith)
        requires
            c >= 0 as real,
            x <= y,
    ;
}

/// How far a square moves when its base does.
pub(crate) proof fn lemma_square_moves(base: real, moved: real, reach: real, step: real)
    requires
        accuracy::size(base) <= reach,
        accuracy::apart(moved, base) <= step,
    ensures
        accuracy::apart(moved * moved, base * base) <= step * (2 as real * reach + step),
{
    let d = moved - base;
    let e = accuracy::size(d);
    let m = accuracy::size(base);
    assert(moved * moved - base * base == d * (2 as real * base + d)) by (nonlinear_arith)
        requires
            d == moved - base,
    ;
    let other = 2 as real * base + d;
    let f = accuracy::size(other);
    lemma_multiply_bounds(e, step, f, 2 as real * reach + step);
    let change = d * other;
    assert(change <= e * f && -change <= e * f) by (nonlinear_arith)
        requires
            change == d * other,
            e == if d < 0 as real { -d } else { d },
            f == if other < 0 as real { -other } else { other },
    ;
}

/// The smallest step is nothing next to the rounding of 1.
pub(crate) proof fn lemma_step_is_tiny()
    ensures
        (0 as real) < accuracy::smallest_step(),
        0x1_0000 as real * accuracy::smallest_step() <= accuracy::roundoff(),
{
    lemma_constants();
    let u = accuracy::roundoff();
    let h = accuracy::smallest_step();
    assert(0x1_0000 as real * h <= u) by (nonlinear_arith)
        requires
            h <= u * u * u * u,
            u == 1 as real / 0x100_0000 as real,
    ;
}

/// One component of a direction: the exact component times the computed reciprocal,
/// up to rounding.
proof fn lemma_direction_component(a: Single, scale: Single)
    requires
        a.finite(),
        scale.finite(),
        16 as real * accuracy::size(a.value() * scale.value()) <= 17 as real,
    ensures
        a.product(scale).finite(),
        accuracy::apart(
            a.product(scale).value() * a.product(scale).value(),
            (a.value() * scale.value()) * (a.value() * scale.value()),
        ) <= 3 as real * accuracy::roundoff(),
{
    lemma_constants();
    lemma_step_is_tiny();
    let u = accuracy::roundoff();
    let h = accuracy::smallest_step();
    let exact = a.value() * scale.value();
    let m = accuracy::size(exact);
    accuracy::law_product_is_accurate(a, scale);
    let got = a.product(scale).value();
    let most = 17 as real / 16 as real;
    let step = 9 as real / 8 as real * u;
    assert(u * m + h <= step) by (nonlinear_arith)
        requires
            16 as real * m <= 17 as real,
            0x1_0000 as real * h <= u,
            step == 9 as real / 8 as real * u,
            u == 1 as real / 0x100_0000 as real,
    ;
    lemma_square_moves(exact, got, most, step);
    assert(step * (2 as real * most + step) <= 3 as real * u) by (nonlinear_arith)
        requires
            most == 17 as real / 16 as real,
            step == 9 as real / 8 as real * u,
            u == 1 as real / 0x100_0000 as real,
    ;
}

/// The reciprocal of a length, times the length, is 1 up to rounding.
proof fn lemma_reciprocal(length: Single)
    requires
        length.finite(),
        !length.zero(),
        length.value() >= 2 as real * accuracy::roundoff(),
        accuracy::smallest_step() * length.value() <= accuracy::roundoff() * accuracy::roundoff(),
    ensures
        Single::one().quotient(length).finite(),
        accuracy::apart(Single::one().quotient(length).value() * length.value(), 1 as real) <= 9 as real
            / 8 as real * accuracy::roundoff(),
{
    lemma_constants();
    let u = accuracy::roundoff();
    let h = accuracy::smallest_step();
    let l = length.value();
    let r = Single::one().quotient(length).value();
    let x = 1 as real / l;
    assert(x * l == 1 as real) by (nonlinear_arith)
        requires
            x == 1 as real / l,
            l >= 2 as real * u,
            u == 1 as real / 0x100_0000 as real,
    ;
    assert(0 as real <= x <= 0x80_0000 as real) by (nonlinear_arith)
        requires
            x * l == 1 as real,
            l >= 2 as real * u,
            u == 1 as real / 0x100_0000 as real,
    ;
    accuracy::law_quotient_is_accurate(Single::one(), length);
    let d = r - x;
    let slack = u * x + h;
    lemma_multiply_order(l, d, slack);
    lemma_multiply_order(l, -d, slack);
    assert(l * d == r * l - 1 as real) by (nonlinear_arith)
        requires
            d == r - x,
            x * l == 1 as real,
    ;
    assert(l * -d == -(l * d)) by (nonlinear_arith);
    assert(l * slack == u + h * l) by (nonlinear_arith)
        requires
            slack == u * x + h,
            x * l == 1 as real,
    ;
    assert(u + u * u <= 9 as real / 8 as real * u) by (nonlinear_arith)
        requires
            u == 1 as real / 0x100_0000 as real,
    ;
}

/// The exact vector times the computed reciprocal of its length has a length of 1 up
/// to rounding.
proof fn lemma_scaled_to_unit(a: [Single; 3])
    requires
        vector::has_direction(a),
    ensures
        ({
            let r = Single::one().quotient(vector::length(a)).value();
            accuracy::apart((r * r) * exact_dot(a, a), 1 as real) <= 11 as real * accuracy::roundoff()
        }),
{
    lemma_length(a);
    lemma_reciprocal(vector::length(a));
    let u = accuracy::roundoff();
    let l = vector::length(a).value();
    let r = Single::one().quotient(vector::length(a)).value();
    let s = exact_dot(a, a);
    let q = l * l;
    let w = r * l;
    let step = 9 as real / 8 as real * u;
    lemma_square_moves(1 as real, w, 1 as real, step);
    let ww = w * w;
    assert(1 as real * 1 as real == 1 as real) by (nonlinear_arith);
    assert(step * (2 as real * 1 as real + step) <= 3 as real * u) by (nonlinear_arith)
        requires
            step == 9 as real / 8 as real * u,
            u == 1 as real / 0x100_0000 as real,
    ;
    assert(accuracy::apart(ww, 1 as real) <= 3 as real * u);
    let rr = r * r;
    let z = rr * s;
    assert(ww == rr * q) by (nonlinear_arith)
        requires
            ww == w * w,
            w == r * l,
            rr == r * r,
            q == l * l,
    ;
    assert(rr >= 0 as real) by (nonlinear_arith)
        requires
            rr == r * r,
    ;
    let bound = 7 as real * u * q;
    lemma_multiply_order(rr, s - q, bound);
    lemma_multiply_order(rr, q - s, bound);
    assert(rr * (s - q) == z - ww) by (nonlinear_arith)
        requires
            z == rr * s,
            ww == rr * q,
    ;
    assert(rr * (q - s) == ww - z) by (nonlinear_arith)
        requires
            z == rr * s,
            ww == rr * q,
    ;
    assert(rr * bound == 7 as real * u * ww) by (nonlinear_arith)
        requires
            bound == 7 as real * u * q,
            ww == rr * q,
    ;
    assert(z - 1 as real <= 11 as real * u) by (nonlinear_arith)
        requires
            z - ww <= 7 as real * u * ww,
            ww - 1 as real <= 3 as real * u,
            u == 1 as real / 0x100_0000 as real,
    ;
    assert(1 as real - z <= 11 as real * u) by (nonlinear_arith)
        requires
            ww - z <= 7 as real * u * ww,
            ww - 1 as real <= 3 as real * u,
            1 as real - ww <= 3 as real * u,
            u == 1 as real / 0x100_0000 as real,
    ;
}

/// A direction is a unit vector.
pub proof fn law_direction_is_unit(a: [Single; 3])
    requires
        vector::has_direction(a),
    ensures
        is_unit(vector::direction(a)),
{
    lemma_length(a);
    lemma_reciprocal(vector::length(a));
    lemma_scaled_to_unit(a);
    let u = accuracy::roundoff();
    let inverse = Single::one().quotient(vector::length(a));
    let r = inverse.value();
    let s = exact_dot(a, a);
    let rr = r * r;
    let z = rr * s;
    let a0 = a[0].value();
    let a1 = a[1].value();
    let a2 = a[2].value();
    lemma_component_below_one(a0, r, u);
    lemma_component_below_one(a1, r, u);
    lemma_component_below_one(a2, r, u);
    let k0 = (a0 * r) * (a0 * r);
    let k1 = (a1 * r) * (a1 * r);
    let k2 = (a2 * r) * (a2 * r);
    let s0 = a0 * a0;
    let s1 = a1 * a1;
    let s2 = a2 * a2;
    assert(rr * (s0 + s1 + s2) == rr * s0 + rr * s1 + rr * s2) by (nonlinear_arith);
    assert(z == k0 + k1 + k2);
    lemma_direction_component(a[0], inverse);
    lemma_direction_component(a[1], inverse);
    lemma_direction_component(a[2], inverse);
}

/// A component of a vector whose square is all but 1 at most is itself hardly above 1.
proof fn lemma_component_below_one(a: real, r: real, u: real)
    requires
        u == accuracy::roundoff(),
    ensures
        (a * r) * (a * r) == (r * r) * (a * a),
        (a * r) * (a * r) >= 0 as real,
        (a * r) * (a * r) <= 1 as real + 11 as real * u ==> 16 as real * accuracy::size(a * r)
            <= 17 as real,
{
    let g = a * r;
    assert(g * g == (r * r) * (a * a)) by (nonlinear_arith)
        requires
            g == a * r,
    ;
    assert(g * g >= 0 as real) by (nonlinear_arith);
    let m = accuracy::size(g);
    assert(m * m == g * g) by (nonlinear_arith)
        requires
            m == if g < 0 as real { -g } else { g },
    ;
    assert(m * m <= 1 as real + 11 as real * u ==> 16 as real * m <= 17 as real) by (nonlinear_arith)
        requires
            m >= 0 as real,
            u == 1 as real / 0x100_0000 as real,
    ;
}

/// A vector divided by its own length, component by component, is a unit vector.
pub proof fn law_vector_over_length_is_unit(a: [Single; 3])
    requires
        vector::has_direction(a),
    ensures
        ({
            let length = vector::length(a);
            is_unit([a[0].quotient(length), a[1].quotient(length), a[2].quotient(length)])
        }),
{
    lemma_length(a);
    let u = accuracy::roundoff();
    let length = vector::length(a);
    let l = length.value();
    let q = l * l;
    let s = exact_dot(a, a);
    let r = 1 as real / l;
    let rr = r * r;
    assert(r * l == 1 as real) by (nonlinear_arith)
        requires
            r == 1 as real / l,
            l >= 2 as real * u,
            u == 1 as real / 0x100_0000 as real,
    ;
    assert(rr * q == 1 as real) by (nonlinear_arith)
        requires
            rr == r * r,
            q == l * l,
            r * l == 1 as real,
    {
        assert((r * r) * (l * l) == (r * l) * (r * l)) by (nonlinear_arith);
    }
    assert(rr >= 0 as real) by (nonlinear_arith)
        requires
            rr == r * r,
    ;
    let bound = 7 as real * u * q;
    let z = rr * s;
    lemma_multiply_order(rr, s - q, bound);
    lemma_multiply_order(rr, q - s, bound);
    assert(rr * (s - q) == z - 1 as real) by (nonlinear_arith)
        requires
            z == rr * s,
            rr * q == 1 as real,
    ;
    assert(rr * (q - s) == 1 as real - z) by (nonlinear_arith)
        requires
            z == rr * s,
            rr * q == 1 as real,
    ;
    assert(rr * bound == 7 as real * u) by (nonlinear_arith)
        requires
            bound == 7 as real * u * q,
            rr * q == 1 as real,
    ;
    let a0 = a[0].value();
    let a1 = a[1].value();
    let a2 = a[2].value();
    lemma_component_below_one(a0, r, u);
    lemma_component_below_one(a1, r, u);
    lemma_component_below_one(a2, r, u);
    let s0 = a0 * a0;
    let s1 = a1 * a1;
    let s2 = a2 * a2;
    assert(rr * (s0 + s1 + s2) == rr * s0 + rr * s1 + rr * s2) by (nonlinear_arith);
    lemma_quotient_component(a[0], length, r);
    lemma_quotient_component(a[1], length, r);
    lemma_quotient_component(a[2], length, r);
}

/// One component divided by the length.
proof fn lemma_quotient_component(a: Single, length: Single, r: real)
    requires
        a.finite(),
        length.finite(),
        !length.zero(),
        length.value() >= 2 as real * accuracy::roundoff(),
        r == 1 as real / length.value(),
        16 as real * accuracy::size(a.value() * r) <= 17 as real,
    ensures
        a.quotient(length).finite(),
        accuracy::apart(
            a.quotient(length).value() * a.quotient(length).value(),
            (a.value() * r) * (a.value() * r),
        ) <= 3 as real * accuracy::roundoff(),
{
    lemma_constants();
    lemma_step_is_tiny();
    let u = accuracy::roundoff();
    let h = accuracy::smallest_step();
    let l = length.value();
    let x = a.value();
    let exact = x / l;
    assert(exact == x * r) by (nonlinear_arith)
        requires
            exact == x / l,
            r == 1 as real / l,
            l >= 2 as real * u,
            u == 1 as real / 0x100_0000 as real,
    ;
    let m = accuracy::size(exact);
    accuracy::law_quotient_is_accurate(a, length);
    let got = a.quotient(length).value();
    let most = 17 as real / 16 as real;
    let step = 9 as real / 8 as real * u;
    assert(u * m + h <= step) by (nonlinear_arith)
        requires
            16 as real * m <= 17 as real,
            0x1_0000 as real * h <= u,
            step == 9 as real / 8 as real * u,
            u == 1 as real / 0x100_0000 as real,
    ;
    lemma_square_moves(exact, got, most, step);
    assert(step * (2 as real * most + step) <= 3 as real * u) by (nonlinear_arith)
        requires
            most == 17 as real / 16 as real,
            step == 9 as real / 8 as real * u,
            u == 1 as real / 0x100_0000 as real,
    ;
}

/// The vector that points straight up is a unit vector.
pub(crate) proof fn lemma_up_is_unit()
    ensures
        is_unit([Single::positive_zero(), Single::one(), Single::positive_zero()]),
{
    lemma_constants();
    let zero = Single::positive_zero();
    accuracy::lemma_value_parts(zero);
    let n = [Single::positive_zero(), Single::one(), Single::positive_zero()];
    assert(0 as real * 0 as real == 0 as real) by (nonlinear_arith);
    assert(1 as real * 1 as real == 1 as real) by (nonlinear_arith);
    assert(exact_dot(n, n) == 1 as real);
}

/// A vector whose computed squared length is finite and at least 2^-44 has a
/// direction.
pub(crate) proof fn lemma_long_vector_has_direction(a: [Single; 3])
    requires
        vector::dot(a, a).finite(),
        vector::dot(a, a).key() >= 0x2980_0000,
    ensures
        vector::has_direction(a),
{
    reveal(Single::square_root);
    let square = vector::dot(a, a);
    let m = rounding::magnitude(square.index());
    let n = m * pow2(149);
    let k = rounding::nearest_root_index(n);
    lemma2_to64();
    lemma_pow2_pos(149);
    rounding::lemma_magnitude_at(82, 0x80_0000);
    lemma_pow2_adds(23, 82);
    if square.index() > 0x2980_0000 {
        rounding::lemma_magnitude_increases(0x2980_0000, square.index());
    }
    assert(m >= pow2(105));
    rounding::lemma_magnitude_increases(square.index(), rounding::INFINITY_INDEX as int);
    rounding::lemma_magnitude_at(253, 0x100_0000);
    lemma_pow2_adds(24, 253);
    assert(m < pow2(277));
    lemma_pow2_adds(105, 149);
    lemma_pow2_adds(277, 149);
    let c = pow2(149) as int;
    assert(pow2(254) <= n < pow2(426)) by (nonlinear_arith)
        requires
            n == m * c,
            pow2(105) <= m < pow2(277),
            pow2(254) == pow2(105) * c,
            pow2(426) == pow2(277) * c,
            c > 0,
    ;
    rounding::lemma_nearest_root_exists(n);
    if k <= EPSILON_BITS {
        let above = rounding::doubled_midpoint(k);
        if k < EPSILON_BITS {
            rounding::lemma_midpoint_increases(k, EPSILON_BITS as int);
        }
        rounding::lemma_magnitude_increases(k, k + 1);
        rounding::lemma_magnitude_at(103, 0x80_0000);
        rounding::lemma_magnitude_at(103, 0x80_0001);
        lemma_pow2_adds(24, 103);
        lemma_pow2_unfold(127);
        lemma_pow2_unfold(128);
        lemma_pow2_adds(128, 128);
        lemma_pow2_unfold(256);
        lemma_pow2_unfold(255);
        lemma_pow2_adds(23, 103);
        lemma_pow2_strictly_increases(103, 127);
        let p = pow2(128) as int;
        assert(0 <= above < p);
        assert(above * above < p * p) by (nonlinear_arith)
            requires
                0 <= above < p,
        ;
    } else if k == rounding::INFINITY_INDEX {
        let below = rounding::doubled_midpoint(k - 1);
        rounding::lemma_magnitude_increases(0, k - 1);
        lemma_pow2_adds(277, 277);
        lemma_pow2_unfold(427);
        lemma_pow2_unfold(428);
        lemma_pow2_strictly_increases(428, 554);
        let p = pow2(277) as int;
        assert(below * below >= p * p) by (nonlinear_arith)
            requires
                below >= p,
                p >= 0,
        ;
    }
}

/// A direction is the vector times one factor, up to rounding: the computed reciprocal of
/// its length.
pub(crate) proof fn lemma_direction_along(a: [Single; 3])
    requires
        vector::has_direction(a),
    ensures
        ({
            let u = accuracy::roundoff();
            let k = Single::one().quotient(vector::length(a)).value();
            let d = vector::direction(a);
            &&& vector::finite(a)
            &&& vector::finite(d)
            &&& k > 0 as real
            &&& k * accuracy::smallest_step() <= u * u
            &&& accuracy::apart((k * k) * exact_dot(a, a), 1 as real) <= 11 as real * u
            &&& forall|i: int|
                0 <= i < 3 ==> 16 as real * accuracy::size(k * (#[trigger] a[i]).value()) <= 17 as real
                    && 8 as real * accuracy::apart(d[i].value(), k * a[i].value()) <= 9 as real * u
        }),
{
    lemma_length(a);
    lemma_reciprocal(vector::length(a));
    lemma_scaled_to_unit(a);
    lemma_constants();
    let u = accuracy::roundoff();
    let h = accuracy::smallest_step();
    let inverse = Single::one().quotient(vector::length(a));
    let k = inverse.value();
    let l = vector::length(a).value();
    let s = exact_dot(a, a);
    let a0 = a[0].value();
    let a1 = a[1].value();
    let a2 = a[2].value();
    lemma_component_below_one(a0, k, u);
    lemma_component_below_one(a1, k, u);
    lemma_component_below_one(a2, k, u);
    let kk = k * k;
    let z = kk * s;
    let s0 = a0 * a0;
    let s1 = a1 * a1;
    let s2 = a2 * a2;
    assert(kk * (s0 + s1 + s2) == kk * s0 + kk * s1 + kk * s2) by (nonlinear_arith);
    assert(k > 0 as real && k <= 0x100_0000 as real) by (nonlinear_arith)
        requires
            k * l - 1 as real <= 9 as real / 8 as real * u,
            1 as real - k * l <= 9 as real / 8 as real * u,
            l >= 2 as real * u,
            u == 1 as real / 0x100_0000 as real,
    ;
    assert(k * h <= u * u) by (nonlinear_arith)
        requires
            0 as real <= k <= 0x100_0000 as real,
            h <= u * u * u * u,
            h > 0 as real,
            u == 1 as real / 0x100_0000 as real,
    ;
    lemma_scaled_component(a[0], inverse);
    lemma_scaled_component(a[1], inverse);
    lemma_scaled_component(a[2], inverse);
    assert forall|i: int| 0 <= i < 3 implies 16 as real * accuracy::size(
        k * (#[trigger] a[i]).value(),
    ) <= 17 as real && 8 as real * accuracy::apart(
        vector::direction(a)[i].value(),
        k * a[i].value(),
    ) <= 9 as real * u by {
        assert(i == 0 || i == 1 || i == 2);
    }
}

proof fn lemma_scaled_component(a: Single, scale: Single)
    requires
        a.finite(),
        scale.finite(),
        16 as real * accuracy::size(a.value() * scale.value()) <= 17 as real,
    ensures
        a.product(scale).finite(),
        a.value() * scale.value() == scale.value() * a.value(),
        8 as real * accuracy::apart(a.product(scale).value(), scale.value() * a.value()) <= 9 as real
            * accuracy::roundoff(),
{
    lemma_constants();
    lemma_step_is_tiny();
    let u = accuracy::roundoff();
    let h = accuracy::smallest_step();
    let exact = a.value() * scale.value();
    let m = accuracy::size(exact);
    accuracy::law_product_is_accurate(a, scale);
    assert(a.value() * scale.value() == scale.value() * a.value()) by (nonlinear_arith);
    assert(8 as real * (u * m + h) <= 9 as real * u) by (nonlinear_arith)
        requires
            16 as real * m <= 17 as real,
            0x1_0000 as real * h <= u,
            u == 1 as real / 0x100_0000 as real,
    ;
}

/// `d` is `k` times the vector with the components `x`, `y` and `z`, with each component
/// off by `error` at most.
pub open spec fn is_multiple(
    d: [Single; 3],
    k: real,
    x: real,
    y: real,
    z: real,
    error: real,
) -> bool {
    &&& accuracy::apart(d[0].value(), k * x) <= error
    &&& accuracy::apart(d[1].value(), k * y) <= error
    &&& accuracy::apart(d[2].value(), k * z) <= error
}

/// `d` points where the vector with the components `x`, `y` and `z` points: it is that
/// vector times one positive factor, with each component off by `error` at most.
pub open spec fn points_along(d: [Single; 3], x: real, y: real, z: real, error: real) -> bool {
    exists|k: real| k > 0 as real && #[trigger] is_multiple(d, k, x, y, z, error)
}

/// A direction points where the vector points.
pub proof fn law_direction_points_along(a: [Single; 3])
    requires
        vector::has_direction(a),
    ensures
        points_along(
            vector::direction(a),
            a[0].value(),
            a[1].value(),
            a[2].value(),
            2 as real * accuracy::roundoff(),
        ),
{
    lemma_direction_along(a);
    lemma_constants();
    let k = Single::one().quotient(vector::length(a)).value();
    let d = vector::direction(a);
    assert(accuracy::roundoff() > 0 as real);
    assert(is_multiple(
        d,
        k,
        a[0].value(),
        a[1].value(),
        a[2].value(),
        2 as real * accuracy::roundoff(),
    )) by {
        assert(8 as real * accuracy::apart(d[0].value(), k * a[0].value()) <= 9 as real
            * accuracy::roundoff());
        assert(8 as real * accuracy::apart(d[1].value(), k * a[1].value()) <= 9 as real
            * accuracy::roundoff());
        assert(8 as real * accuracy::apart(d[2].value(), k * a[2].value()) <= 9 as real
            * accuracy::roundoff());
    }
}

/// 2^61 and what it is next to the limit.
pub(crate) proof fn lemma_large()
    ensures
        accuracy::limit() == 32 as real * (0x2000_0000_0000_0000 as real
            * 0x2000_0000_0000_0000 as real),
{
    lemma2_to64();
    lemma2_to64_rest();
    lemma_pow2_adds(61, 61);
    lemma_pow2_adds(122, 5);
    accuracy::lemma_product_as_real(pow2(61) as int, pow2(61) as int);
    accuracy::lemma_product_as_real(pow2(122) as int, 32);
}

/// The squared length of a vector with components up to 2^61 does not overflow.
pub(crate) proof fn lemma_dot_is_finite(a: [Single; 3])
    requires
        vector::finite(a),
        accuracy::size(a[0].value()) <= 0x2000_0000_0000_0000 as real,
        accuracy::size(a[1].value()) <= 0x2000_0000_0000_0000 as real,
        accuracy::size(a[2].value()) <= 0x2000_0000_0000_0000 as real,
    ensures
        vector::dot(a, a).finite(),
{
    lemma_large();
    lemma_step_is_tiny();
    let g = 0x2000_0000_0000_0000 as real * 0x2000_0000_0000_0000 as real;
    lemma_square_bounded(a[0], g);
    lemma_square_bounded(a[1], g);
    lemma_square_bounded(a[2], g);
    let x = a[0].product(a[0]);
    let y = a[1].product(a[1]);
    let z = a[2].product(a[2]);
    accuracy::law_sum_is_accurate(x, y);
    let s = x.sum(y);
    let u = accuracy::roundoff();
    let h = accuracy::smallest_step();
    let e = accuracy::size(x.value() + y.value());
    assert(e <= 4 as real * g);
    assert(u * e + h <= g) by (nonlinear_arith)
        requires
            e <= 4 as real * g,
            u == 1 as real / 0x100_0000 as real,
            0x1_0000 as real * h <= u,
            g >= 1 as real,
    ;
    assert(accuracy::size(s.value()) <= 5 as real * g);
    accuracy::law_sum_is_accurate(s, z);
}

proof fn lemma_square_bounded(a: Single, g: real)
    requires
        a.finite(),
        accuracy::size(a.value()) <= 0x2000_0000_0000_0000 as real,
        g == 0x2000_0000_0000_0000 as real * 0x2000_0000_0000_0000 as real,
        accuracy::limit() == 32 as real * g,
    ensures
        g >= 1 as real,
        a.product(a).finite(),
        accuracy::size(a.product(a).value()) <= 2 as real * g,
{
    lemma_step_is_tiny();
    let v = a.value();
    let m = accuracy::size(v);
    let top = 0x2000_0000_0000_0000 as real;
    lemma_multiply_bounds(m, top, m, top);
    let sq = v * v;
    assert(sq == m * m) by (nonlinear_arith)
        requires
            sq == v * v,
            m == if v < 0 as real { -v } else { v },
    ;
    accuracy::law_product_is_accurate(a, a);
    let u = accuracy::roundoff();
    let h = accuracy::smallest_step();
    assert(u * sq + h <= g) by (nonlinear_arith)
        requires
            0 as real <= sq <= g,
            u == 1 as real / 0x100_0000 as real,
            0x1_0000 as real * h <= u,
            g >= 1 as real,
    ;
}

/// 2^-44, as a real number and as a bit pattern.
proof fn lemma_least_square()
    ensures
        (Single { bits: 0x2980_0000 }).finite(),
        (Single { bits: 0x2980_0000 }).value() * 0x1000_0000_0000 as real == 1 as real,
{
    let e = Single { bits: 0x2980_0000 };
    accuracy::lemma_steps();
    rounding::lemma_magnitude_at(82, 0x80_0000);
    lemma2_to64();
    lemma2_to64_rest();
    lemma_pow2_adds(23, 82);
    lemma_pow2_adds(105, 44);
    lemma_pow2_pos(105);
    accuracy::lemma_product_as_real(pow2(105) as int, pow2(44) as int);
    let t = accuracy::steps_in_one();
    let w = pow2(105) as real;
    assert(e.scaled() == pow2(105));
    let v = e.value();
    assert(v * 0x1000_0000_0000 as real == 1 as real) by (nonlinear_arith)
        requires
            v == w / t,
            t == w * 0x1000_0000_0000 as real,
            w > 0 as real,
    ;
}

/// Which vectors have a direction: those with a length of 2^-21 and more, and none with a
/// length of 2^-24 and less, as long as no component is above 2^60.
pub proof fn law_when_a_vector_has_a_direction(a: [Single; 3])
    requires
        vector::finite(a),
        accuracy::size(a[0].value()) <= 0x1000_0000_0000_0000 as real,
        accuracy::size(a[1].value()) <= 0x1000_0000_0000_0000 as real,
        accuracy::size(a[2].value()) <= 0x1000_0000_0000_0000 as real,
    ensures
        0x400_0000_0000 as real * exact_dot(a, a) >= 1 as real ==> vector::has_direction(a),
        0x1_0000_0000_0000 as real * exact_dot(a, a) <= 1 as real ==> !vector::has_direction(a),
{
    lemma_dot_is_finite(a);
    lemma_dot_with_itself(a);
    lemma_constants();
    lemma_step_is_tiny();
    let u = accuracy::roundoff();
    let h = accuracy::smallest_step();
    let e = exact_dot(a, a);
    let square = vector::dot(a, a);
    let s = square.value();
    if 0x400_0000_0000 as real * e >= 1 as real {
        lemma_least_square();
        let least = Single { bits: 0x2980_0000 };
        assert(0x1000_0000_0000 as real * s >= 1 as real) by (nonlinear_arith)
            requires
                e - s <= 4 as real * u * e + 8 as real * h,
                0x400_0000_0000 as real * e >= 1 as real,
                h <= u * u * u * u,
                u == 1 as real / 0x100_0000 as real,
        ;
        assert(least.value() <= s) by (nonlinear_arith)
            requires
                least.value() * 0x1000_0000_0000 as real == 1 as real,
                0x1000_0000_0000 as real * s >= 1 as real,
        ;
        accuracy::law_order_is_that_of_the_values(least, square);
        lemma_long_vector_has_direction(a);
    }
    if 0x1_0000_0000_0000 as real * e <= 1 as real && vector::has_direction(a) {
        lemma_length(a);
        let l = vector::length(a).value();
        let q = l * l;
        assert(q >= 4 as real * (u * u)) by (nonlinear_arith)
            requires
                q == l * l,
                l >= 2 as real * u,
                u > 0 as real,
        ;
        assert(false) by (nonlinear_arith)
            requires
                q - e <= 7 as real * u * q,
                q >= 4 as real * (u * u),
                0x1_0000_0000_0000 as real * e <= 1 as real,
                u == 1 as real / 0x100_0000 as real,
        ;
    }
}

/// What a rounding error is a part of, in plain numbers.
pub(crate) proof fn lemma_part(x: real)
    ensures
        accuracy::roundoff() * x == x / 0x100_0000 as real,
        4 as real * accuracy::roundoff() * x == x / 0x40_0000 as real,
{
    let u = accuracy::roundoff();
    assert(u * x == x / 0x100_0000 as real) by (nonlinear_arith)
        requires
            u == 1 as real / 0x100_0000 as real,
    ;
    assert(4 as real * u * x == 4 as real * (u * x)) by (nonlinear_arith);
}

/// The smallest step is no more than 2^-96.
pub(crate) proof fn lemma_step_in_numbers()
    ensures
        (0 as real) < accuracy::smallest_step(),
        0x1_0000_0000_0000 as real * (0x1_0000_0000_0000 as real * accuracy::smallest_step())
            <= 1 as real,
{
    lemma_constants();
    let u = accuracy::roundoff();
    let h = accuracy::smallest_step();
    let uu = u * u;
    assert(uu == 1 as real / 0x1_0000_0000_0000 as real) by (nonlinear_arith)
        requires
            uu == u * u,
            u == 1 as real / 0x100_0000 as real,
    ;
    assert(u * u * u * u == uu * uu) by (nonlinear_arith)
        requires
            uu == u * u,
    ;
    let q = uu * uu;
    assert(0x1_0000_0000_0000 as real * (0x1_0000_0000_0000 as real * q) == 1 as real)
        by (nonlinear_arith)
        requires
            q == uu * uu,
            uu == 1 as real / 0x1_0000_0000_0000 as real,
    ;
}

/// How far the square of a rounded number is from that of the number.
pub(crate) proof fn lemma_square_near(got: real, exact: real)
    requires
        accuracy::size(exact) <= 0x1000_0000_0000_0000 as real,
        accuracy::apart(got, exact) <= accuracy::roundoff() * accuracy::size(exact)
            + accuracy::smallest_step(),
    ensures
        accuracy::apart(got * got, exact * exact) <= 4 as real * accuracy::roundoff() * (exact
            * exact) + 1 as real / 0x4000_0000 as real,
{
    lemma_step_in_numbers();
    let u = accuracy::roundoff();
    let h = accuracy::smallest_step();
    let m = accuracy::size(exact);
    let step = u * m + h;
    lemma_square_moves(exact, got, m, step);
    let sq = exact * exact;
    assert(sq == m * m) by (nonlinear_arith)
        requires
            sq == exact * exact,
            m == if exact < 0 as real { -exact } else { exact },
    ;
    lemma_part(m);
    lemma_part(sq);
    let v = h * m;
    let w = h * h;
    lemma_part(v);
    lemma_multiply_bounds(h, h, m, 0x1000_0000_0000_0000 as real);
    lemma_multiply_bounds(h, h, h, 1 as real);
    assert(h * 0x1000_0000_0000_0000 as real == 0x1000_0000_0000_0000 as real * h)
        by (nonlinear_arith);
    assert(h * 1 as real == h) by (nonlinear_arith);
    let most = 3 as real * m + h;
    lemma_multiply_bounds(step, step, 2 as real * m + step, most);
    let p = u * m;
    lemma_distribute(p, h, most);
    lemma_distribute(3 as real * m, h, p);
    lemma_distribute(3 as real * m, h, h);
    lemma_regroup(3 as real, m, p);
    lemma_regroup(3 as real, m, h);
    lemma_regroup(u, m, m);
    lemma_regroup(u, m, h);
    lemma_commute(p, most);
    lemma_commute(h, most);
    lemma_commute(m, p);
    lemma_commute(m, h);
    lemma_commute(h, p);
    assert(step * most == 3 as real * (u * (m * m)) + u * (h * m) + 3 as real * (h * m) + h * h);
}

pub(crate) proof fn lemma_distribute(a: real, b: real, c: real)
    ensures
        (a + b) * c == a * c + b * c,
{
    assert((a + b) * c == a * c + b * c) by (nonlinear_arith);
}

pub(crate) proof fn lemma_regroup(a: real, b: real, c: real)
    ensures
        (a * b) * c == a * (b * c),
{
    assert((a * b) * c == a * (b * c)) by (nonlinear_arith);
}

pub(crate) proof fn lemma_commute(a: real, b: real)
    ensures
        a * b == b * a,
{
    assert(a * b == b * a) by (nonlinear_arith);
}

pub(crate) proof fn lemma_square_not_negative(x: real)
    ensures
        x * x >= 0 as real,
{
    assert(x * x >= 0 as real) by (nonlinear_arith);
}

/// No component of a vector, divided by its computed length, is much beyond 1.
proof fn lemma_over_length(a: [Single; 3])
    requires
        vector::has_direction(a),
    ensures
        ({
            let r = 1 as real / vector::length(a).value();
            &&& r > 0 as real
            &&& 16 as real * accuracy::size(a[0].value() * r) <= 17 as real
            &&& 16 as real * accuracy::size(a[1].value() * r) <= 17 as real
            &&& 16 as real * accuracy::size(a[2].value() * r) <= 17 as real
        }),
{
    lemma_length(a);
    let u = accuracy::roundoff();
    let l = vector::length(a).value();
    let q = l * l;
    let s = exact_dot(a, a);
    let r = 1 as real / l;
    let rr = r * r;
    lemma_inverse(l, r);
    lemma_regroup(r, r, q);
    lemma_regroup(r, l, l);
    lemma_regroup(rr, l, l);
    lemma_regroup(r, r, l);
    assert(rr * q == 1 as real) by {
        assert((rr * l) * l == rr * (l * l));
        assert((r * r) * l == r * (r * l));
        assert(r * 1 as real == r) by (nonlinear_arith);
    }
    lemma_square_not_negative(r);
    let bound = 7 as real * u * q;
    lemma_multiply_order(rr, s - q, bound);
    lemma_distribute(s - q, q, rr);
    lemma_commute(rr, s - q);
    lemma_commute(rr, q);
    lemma_commute(rr, s);
    lemma_commute(rr, bound);
    lemma_regroup(7 as real * u, q, rr);
    assert(7 as real * u * (q * rr) == 7 as real * u) by {
        let c = 7 as real * u;
        assert(c * 1 as real == c) by (nonlinear_arith);
    }
    let a0 = a[0].value();
    let a1 = a[1].value();
    let a2 = a[2].value();
    lemma_component_below_one(a0, r, u);
    lemma_component_below_one(a1, r, u);
    lemma_component_below_one(a2, r, u);
    let s0 = a0 * a0;
    let s1 = a1 * a1;
    let s2 = a2 * a2;
    assert(rr * (s0 + s1 + s2) == rr * s0 + rr * s1 + rr * s2) by (nonlinear_arith);
    assert(u > 0 as real);
}

proof fn lemma_inverse(l: real, r: real)
    requires
        l >= 2 as real * accuracy::roundoff(),
        r == 1 as real / l,
    ensures
        r * l == 1 as real,
        r > 0 as real,
{
    let u = accuracy::roundoff();
    assert(r * l == 1 as real) by (nonlinear_arith)
        requires
            r == 1 as real / l,
            l >= 2 as real * u,
            u == 1 as real / 0x100_0000 as real,
    ;
    assert(r > 0 as real) by (nonlinear_arith)
        requires
            r * l == 1 as real,
            l > 0 as real,
    ;
}

proof fn lemma_over_length_component(a: Single, length: Single, r: real)
    requires
        a.finite(),
        length.finite(),
        !length.zero(),
        length.value() >= 2 as real * accuracy::roundoff(),
        r == 1 as real / length.value(),
        16 as real * accuracy::size(a.value() * r) <= 17 as real,
    ensures
        accuracy::apart(a.quotient(length).value(), r * a.value()) <= 2 as real
            * accuracy::roundoff(),
{
    lemma_constants();
    lemma_step_is_tiny();
    let u = accuracy::roundoff();
    let l = length.value();
    let x = a.value();
    let exact = x / l;
    assert(exact == x * r) by (nonlinear_arith)
        requires
            exact == x / l,
            r == 1 as real / l,
            l >= 2 as real * u,
            u == 1 as real / 0x100_0000 as real,
    ;
    lemma_commute(x, r);
    lemma_part(accuracy::size(exact));
    accuracy::law_quotient_is_accurate(a, length);
}

/// A vector divided by its own length, component by component, points where the vector
/// points.
pub proof fn law_vector_over_length_points_along(a: [Single; 3])
    requires
        vector::has_direction(a),
    ensures
        ({
            let length = vector::length(a);
            points_along(
                [a[0].quotient(length), a[1].quotient(length), a[2].quotient(length)],
                a[0].value(),
                a[1].value(),
                a[2].value(),
                2 as real * accuracy::roundoff(),
            )
        }),
{
    lemma_length(a);
    lemma_over_length(a);
    let length = vector::length(a);
    let r = 1 as real / length.value();
    lemma_over_length_component(a[0], length, r);
    lemma_over_length_component(a[1], length, r);
    lemma_over_length_component(a[2], length, r);
    assert(is_multiple(
        [a[0].quotient(length), a[1].quotient(length), a[2].quotient(length)],
        r,
        a[0].value(),
        a[1].value(),
        a[2].value(),
        2 as real * accuracy::roundoff(),
    ));
}

} // verus!
