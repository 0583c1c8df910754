use crate::rounding;
use crate::single;
use crate::single::Single;
use vstd::arithmetic::power2::*;
use vstd::prelude::*;

verus! {

/// The distance between two real numbers.
pub open spec fn apart(x: real, y: real) -> real {
    if x < y {
        y - x
    } else {
        x - y
    }
}

/// 2^149: how often the smallest positive number goes into 1.
pub open spec fn steps_in_one() -> real {
    pow2(149) as real
}

/// Half the distance from 1 to the next larger number, 2^-24: no rounding is off by
/// more than this part of the exact result (or, close to zero, by more than
/// [`smallest_step`]).
pub open spec fn roundoff() -> real {
    1 as real / 0x100_0000 as real
}

/// 2^-149, the smallest positive number.
pub open spec fn smallest_step() -> real {
    1 as real / steps_in_one()
}

/// 2^127. Results up to this size do not overflow.
pub open spec fn limit() -> real {
    pow2(127) as real
}

/// The magnitude of a real number.
pub open spec fn size(x: real) -> real {
    if x < 0 as real {
        -x
    } else {
        x
    }
}

/// What rounding may add to or take from `exact`.
pub open spec fn slack(exact: real) -> real {
    roundoff() * size(exact) + smallest_step()
}

impl Single {
    /// The real number that a finite number stands for.
    pub open spec fn value(self) -> real {
        self.scaled() as real / steps_in_one()
    }
}

/// Rounding a quotient to a finite magnitude is off by at most 2^-24 of it, or half
/// a step close to zero.
proof fn lemma_nearest_error(num: int, den: int, k: int)
    requires
        num >= 0,
        den > 0,
        rounding::is_nearest(num, den, k),
        k < rounding::INFINITY_INDEX,
    ensures
        (rounding::magnitude(k) * den - num) * 0x100_0000 <= num + den * 0x80_0000,
        (num - rounding::magnitude(k) * den) * 0x100_0000 <= num + den * 0x80_0000,
{
    rounding::lemma_magnitude_parts(k);
    let s = rounding::scale_of(k);
    let q = rounding::significand_of(k);
    let p = pow2(s as nat) as int;
    let m = rounding::magnitude(k);
    let d = p * den;
    lemma2_to64();
    lemma_pow2_pos(s as nat);
    assert(d > 0) by (nonlinear_arith)
        requires
            p > 0,
            den > 0,
            d == p * den,
    ;
    assert(m * den == q * d) by (nonlinear_arith)
        requires
            m == q * p,
            d == p * den,
    ;
    assert(rounding::doubled_midpoint(k) * den == 2 * (q * d) + d) by (nonlinear_arith)
        requires
            rounding::doubled_midpoint(k) == q * p + (q + 1) * p,
            d == p * den,
    ;
    if s > 0 {
        assert(0x80_0000 * d <= q * d) by (nonlinear_arith)
            requires
                q >= 0x80_0000,
                d > 0,
        ;
    } else {
        assert(d == den) by (nonlinear_arith)
            requires
                d == p * den,
                p == 1,
        ;
    }
    if k > 0 {
        rounding::lemma_magnitude_parts(k - 1);
        let s1 = rounding::scale_of(k - 1);
        let q1 = rounding::significand_of(k - 1);
        let p1 = pow2(s1 as nat) as int;
        let d1 = p1 * den;
        lemma_pow2_pos(s1 as nat);
        assert(d1 > 0) by (nonlinear_arith)
            requires
                p1 > 0,
                den > 0,
                d1 == p1 * den,
        ;
        assert(rounding::doubled_midpoint(k - 1) * den == 2 * (q * d) - d1) by (nonlinear_arith)
            requires
                rounding::doubled_midpoint(k - 1) == q1 * p1 + m,
                m == (q1 + 1) * p1,
                m * den == q * d,
                d1 == p1 * den,
        {
            assert((q1 * p1) * den == m * den - p1 * den) by (nonlinear_arith)
                requires
                    m == (q1 + 1) * p1,
            ;
            assert((q1 * p1 + m) * den == (q1 * p1) * den + m * den) by (nonlinear_arith);
        }
        if s > 0 {
            if q > 0x80_0000 {
                assert(s1 == s);
                assert(0x80_0001 * d <= q * d) by (nonlinear_arith)
                    requires
                        q >= 0x80_0001,
                        d > 0,
                ;
            } else {
                assert(s1 == s - 1);
                lemma_pow2_unfold(s as nat);
                assert(d == 2 * d1) by (nonlinear_arith)
                    requires
                        d == p * den,
                        d1 == p1 * den,
                        p == 2 * p1,
                ;
            }
        } else {
            assert(s1 == 0);
        }
    }
}

/// What is no larger than 2^127 rounds to a finite magnitude.
proof fn lemma_nearest_is_finite(num: int, den: int)
    requires
        num >= 0,
        den > 0,
    ensures
        0 <= rounding::nearest_index(num, den) <= rounding::INFINITY_INDEX,
        num <= pow2(276) * den ==> rounding::nearest_index(num, den) < rounding::INFINITY_INDEX,
{
    let k = rounding::nearest_index(num, den);
    rounding::lemma_nearest_exists(num, den);
    if k == rounding::INFINITY_INDEX {
        rounding::lemma_magnitude_at(253, 0x100_0000);
        rounding::lemma_magnitude_increases(0, k - 1);
        lemma2_to64();
        lemma_pow2_adds(24, 253);
        lemma_pow2_unfold(277);
        let twice = rounding::doubled_midpoint(k - 1);
        assert(rounding::magnitude(k) == 2 * pow2(276));
        assert(twice * den > 2 * (pow2(276) * den)) by (nonlinear_arith)
            requires
                twice > 2 * pow2(276),
                den > 0,
        ;
    }
}

pub(crate) proof fn lemma_product_as_real(a: int, b: int)
    ensures
        (a * b) as real == a as real * b as real,
{
    assert((a * b) as real == a as real * b as real) by (nonlinear_arith);
}

/// A rounded quotient of multiples of the smallest step, as a real number.
proof fn lemma_rounded_value(num: int, den: int)
    requires
        num >= 0,
        den > 0,
        rounding::nearest_index(num, den) < rounding::INFINITY_INDEX,
    ensures
        ({
            let k = rounding::nearest_index(num, den);
            let exact = num as real / (den as real * steps_in_one());
            let got = rounding::magnitude(k) as real / steps_in_one();
            &&& 0 <= k
            &&& apart(got, exact) <= roundoff() * exact + smallest_step()
        }),
{
    let k = rounding::nearest_index(num, den);
    rounding::lemma_nearest_exists(num, den);
    lemma_nearest_error(num, den, k);
    lemma_pow2_pos(149);
    let m = rounding::magnitude(k);
    lemma_product_as_real(m, den);
    let t = steps_in_one();
    let n = num as real;
    let d = den as real;
    let x = n / d;
    let g = m as real;
    assert(n == x * d) by (nonlinear_arith)
        requires
            x == n / d,
            d > 0 as real,
    ;
    assert((g * d - n) * 0x100_0000 as real <= n + d * 0x80_0000 as real);
    assert((n - g * d) * 0x100_0000 as real <= n + d * 0x80_0000 as real);
    let u = roundoff();
    assert(g - x <= u * x + 1 as real) by (nonlinear_arith)
        requires
            (g * d - n) * 0x100_0000 as real <= n + d * 0x80_0000 as real,
            n == x * d,
            u == 1 as real / 0x100_0000 as real,
            d > 0 as real,
    ;
    assert(x - g <= u * x + 1 as real) by (nonlinear_arith)
        requires
            (n - g * d) * 0x100_0000 as real <= n + d * 0x80_0000 as real,
            n == x * d,
            u == 1 as real / 0x100_0000 as real,
            d > 0 as real,
    ;
    let exact = n / (d * t);
    let got = g / t;
    assert(exact == x / t) by (nonlinear_arith)
        requires
            exact == n / (d * t),
            n == x * d,
            d > 0 as real,
            t > 0 as real,
    ;
    assert(got - exact <= u * exact + 1 as real / t) by (nonlinear_arith)
        requires
            exact == x / t,
            got == g / t,
            g - x <= u * x + 1 as real,
            t > 0 as real,
    ;
    assert(exact - got <= u * exact + 1 as real / t) by (nonlinear_arith)
        requires
            exact == x / t,
            got == g / t,
            x - g <= u * x + 1 as real,
            t > 0 as real,
    ;
}

pub(crate) proof fn lemma_steps()
    ensures
        steps_in_one() > 0 as real,
        smallest_step() > 0 as real,
        limit() * steps_in_one() == pow2(276) as real,
{
    lemma_pow2_pos(149);
    lemma_pow2_adds(127, 149);
    lemma_product_as_real(pow2(127) as int, pow2(149) as int);
    let t = steps_in_one();
    assert(1 as real / t > 0 as real) by (nonlinear_arith)
        requires
            t > 0 as real,
    ;
}

/// A packed number stands for its magnitude with its sign.
proof fn lemma_packed_value(negative: bool, k: int)
    requires
        0 <= k < rounding::INFINITY_INDEX,
    ensures
        single::packed(negative, k).finite(),
        single::packed(negative, k).index() == k,
        single::packed(negative, k).negative() == negative,
        single::packed(negative, k).value() == if negative {
            -(rounding::magnitude(k) as real / steps_in_one())
        } else {
            rounding::magnitude(k) as real / steps_in_one()
        },
{
    lemma_steps();
    let t = steps_in_one();
    let m = rounding::magnitude(k) as real;
    assert((-m) / t == -(m / t)) by (nonlinear_arith)
        requires
            t > 0 as real,
    ;
}

/// A sum does not overflow up to 2^127, and where it does not, it is the exact sum up
/// to rounding.
pub proof fn law_sum_is_accurate(a: Single, b: Single)
    requires
        a.finite(),
        b.finite(),
    ensures
        size(a.value() + b.value()) <= limit() ==> a.sum(b).finite(),
        a.sum(b).finite() ==> apart(a.sum(b).value(), a.value() + b.value()) <= slack(
            a.value() + b.value(),
        ),
{
    reveal(Single::sum);
    lemma_steps();
    let t = steps_in_one();
    let total = a.scaled() + b.scaled();
    let exact = a.value() + b.value();
    let x = a.scaled() as real;
    let y = b.scaled() as real;
    assert(exact == total as real / t) by {
        assert(x / t + y / t == (x + y) / t) by (nonlinear_arith)
            requires
                t > 0 as real,
        ;
    }
    let w = total as real;
    assert(w == exact * t) by (nonlinear_arith)
        requires
            exact == w / t,
            t > 0 as real,
    ;
    let m = if total < 0 {
        -total
    } else {
        total
    };
    assert(size(exact) == m as real / t) by (nonlinear_arith)
        requires
            size(exact) == if exact < 0 as real { -exact } else { exact },
            exact == w / t,
            m as real == if w < 0 as real { -w } else { w },
            t > 0 as real,
    ;
    let l = limit();
    assert(size(exact) <= l ==> m as real <= l * t) by (nonlinear_arith)
        requires
            size(exact) == m as real / t,
            t > 0 as real,
    ;
    lemma_nearest_is_finite(m, 1);
    assert(1 as real * t == t);
    let k = rounding::nearest_index(m, 1);
    let got = rounding::magnitude(k) as real / t;
    if k < rounding::INFINITY_INDEX {
        lemma_rounded_value(m, 1);
        lemma_packed_value(true, k);
        lemma_packed_value(false, k);
        assert(apart(got, size(exact)) <= slack(exact));
    }
    lemma_packed_value(a.negative() && b.negative(), 0);
    assert(total < 0 <==> exact < 0 as real) by (nonlinear_arith)
        requires
            w == total as real,
            w == exact * t,
            t > 0 as real,
    ;
    if total == 0 {
        let z = rounding::magnitude(0) as real / t;
        assert(z == 0 as real) by (nonlinear_arith)
            requires
                z == 0 as real / t,
                t > 0 as real,
        ;
        assert(exact == 0 as real) by (nonlinear_arith)
            requires
                exact == 0 as real / t,
                t > 0 as real,
        ;
        let u = roundoff();
        assert(u * 0 as real == 0 as real) by (nonlinear_arith);
        assert(a.sum(b).value() == 0 as real);
    } else if k < rounding::INFINITY_INDEX {
        assert(a.sum(b).value() == if total < 0 { -got } else { got });
    }
}

/// A finite number stands for its magnitude with its sign.
pub(crate) proof fn lemma_value_parts(a: Single)
    requires
        a.finite(),
    ensures
        rounding::magnitude(a.index()) >= 0,
        size(a.value()) == rounding::magnitude(a.index()) as real / steps_in_one(),
        a.value() == if a.negative() {
            -size(a.value())
        } else {
            size(a.value())
        },
        a.zero() <==> a.value() == 0 as real,
        a.negation().finite(),
        a.negation().value() == -a.value(),
{
    lemma_steps();
    let t = steps_in_one();
    let m = rounding::magnitude(a.index());
    if a.index() > 0 {
        rounding::lemma_magnitude_increases(0, a.index());
    }
    lemma_packed_value(a.negative(), a.index());
    lemma_packed_value(!a.negative(), a.index());
    assert(a == single::packed(a.negative(), a.index()));
    let v = m as real / t;
    assert(v >= 0 as real) by (nonlinear_arith)
        requires
            v == m as real / t,
            m as real >= 0 as real,
            t > 0 as real,
    ;
    assert(v == 0 as real <==> m as real == 0 as real) by (nonlinear_arith)
        requires
            v == m as real / t,
            t > 0 as real,
    ;
}

/// A difference does not overflow up to 2^127, and where it does not, it is the exact
/// difference up to rounding.
pub proof fn law_difference_is_accurate(a: Single, b: Single)
    requires
        a.finite(),
        b.finite(),
    ensures
        size(a.value() - b.value()) <= limit() ==> a.difference(b).finite(),
        a.difference(b).finite() ==> apart(a.difference(b).value(), a.value() - b.value())
            <= slack(a.value() - b.value()),
{
    lemma_value_parts(b);
    assert(a.value() + b.negation().value() == a.value() - b.value());
    law_sum_is_accurate(a, b.negation());
}

/// Rounding a magnitude is as accurate with the sign as without.
proof fn lemma_signed(negative: bool, k: int, exact: real)
    requires
        0 <= k < rounding::INFINITY_INDEX,
        apart(rounding::magnitude(k) as real / steps_in_one(), size(exact)) <= slack(exact),
        exact == if negative {
            -size(exact)
        } else {
            size(exact)
        },
    ensures
        single::packed(negative, k).finite(),
        apart(single::packed(negative, k).value(), exact) <= slack(exact),
{
    lemma_packed_value(negative, k);
}

/// A product does not overflow up to 2^127, and where it does not, it is the exact
/// product up to rounding.
pub proof fn law_product_is_accurate(a: Single, b: Single)
    requires
        a.finite(),
        b.finite(),
    ensures
        size(a.value() * b.value()) <= limit() ==> a.product(b).finite(),
        a.product(b).finite() ==> apart(a.product(b).value(), a.value() * b.value()) <= slack(
            a.value() * b.value(),
        ),
{
    reveal(Single::product);
    lemma_steps();
    lemma_value_parts(a);
    lemma_value_parts(b);
    let t = steps_in_one();
    let ma = rounding::magnitude(a.index());
    let mb = rounding::magnitude(b.index());
    let num = ma * mb;
    let den = pow2(149) as int;
    let va = a.value();
    let vb = b.value();
    let sa = size(va);
    let sb = size(vb);
    let exact = va * vb;
    lemma_product_as_real(ma, mb);
    lemma_product_as_real(pow2(276) as int, den);
    assert(num >= 0) by (nonlinear_arith)
        requires
            ma >= 0,
            mb >= 0,
            num == ma * mb,
    ;
    let negative = a.negative() != b.negative();
    assert(size(exact) == sa * sb && exact == if negative { -(sa * sb) } else { sa * sb })
        by (nonlinear_arith)
        requires
            size(exact) == if exact < 0 as real { -exact } else { exact },
            exact == va * vb,
            va == if a.negative() { -sa } else { sa },
            vb == if b.negative() { -sb } else { sb },
            sa >= 0 as real,
            sb >= 0 as real,
            negative == (a.negative() != b.negative()),
    ;
    let x = ma as real;
    let y = mb as real;
    assert(sa * sb == (x * y) / (t * t)) by (nonlinear_arith)
        requires
            sa == x / t,
            sb == y / t,
            t > 0 as real,
    ;
    let n = num as real;
    let l = limit();
    let p = pow2(276) as real;
    assert(n == (sa * sb) * (t * t)) by (nonlinear_arith)
        requires
            sa * sb == n / (t * t),
            t > 0 as real,
    ;
    assert(sa * sb <= l ==> n <= p * t) by (nonlinear_arith)
        requires
            n == (sa * sb) * (t * t),
            l * t == p,
            t > 0 as real,
    {
        assert(sa * sb <= l ==> (sa * sb) * (t * t) <= l * (t * t)) by (nonlinear_arith)
            requires
                t > 0 as real,
        ;
        assert(l * (t * t) == (l * t) * t) by (nonlinear_arith);
    }
    lemma_pow2_pos(149);
    lemma_nearest_is_finite(num, den);
    assert(den as real == t);
    assert(size(exact) == n / (den as real * t));
    if rounding::nearest_index(num, den) < rounding::INFINITY_INDEX {
        lemma_rounded_value(num, den);
        lemma_signed(negative, rounding::nearest_index(num, den), exact);
    }
}

/// A quotient does not overflow up to 2^127, and where it does not, it is the exact
/// quotient up to rounding.
pub proof fn law_quotient_is_accurate(a: Single, b: Single)
    requires
        a.finite(),
        b.finite(),
        !b.zero(),
    ensures
        size(a.value() / b.value()) <= limit() ==> a.quotient(b).finite(),
        a.quotient(b).finite() ==> apart(a.quotient(b).value(), a.value() / b.value()) <= slack(
            a.value() / b.value(),
        ),
{
    reveal(Single::quotient);
    lemma_steps();
    lemma_value_parts(a);
    lemma_value_parts(b);
    let t = steps_in_one();
    let ma = rounding::magnitude(a.index());
    let mb = rounding::magnitude(b.index());
    let num = ma * pow2(149);
    let va = a.value();
    let vb = b.value();
    let sa = size(va);
    let sb = size(vb);
    let exact = va / vb;
    let x = ma as real;
    let y = mb as real;
    lemma_product_as_real(ma, pow2(149) as int);
    lemma_product_as_real(pow2(276) as int, mb);
    lemma_pow2_pos(149);
    rounding::lemma_magnitude_increases(0, b.index());
    assert(num >= 0) by (nonlinear_arith)
        requires
            ma >= 0,
            num == ma * pow2(149),
    ;
    let negative = a.negative() != b.negative();
    let quotient = sa / sb;
    assert(size(exact) == quotient && exact == if negative { -quotient } else { quotient })
        by (nonlinear_arith)
        requires
            size(exact) == if exact < 0 as real { -exact } else { exact },
            exact == va / vb,
            quotient == sa / sb,
            va == if a.negative() { -sa } else { sa },
            vb == if b.negative() { -sb } else { sb },
            sa >= 0 as real,
            sb > 0 as real,
            negative == (a.negative() != b.negative()),
    ;
    assert(quotient == (x * t) / (y * t)) by (nonlinear_arith)
        requires
            quotient == sa / sb,
            sa == x / t,
            sb == y / t,
            y > 0 as real,
            t > 0 as real,
    ;
    let n = num as real;
    let l = limit();
    let p = pow2(276) as real;
    assert(quotient <= l ==> n <= p * y) by (nonlinear_arith)
        requires
            quotient == n / (y * t),
            l * t == p,
            y > 0 as real,
            t > 0 as real,
    {
        let w = y * t;
        assert(w > 0 as real) by (nonlinear_arith)
            requires
                w == y * t,
                y > 0 as real,
                t > 0 as real,
        ;
        assert(n == quotient * w) by (nonlinear_arith)
            requires
                quotient == n / w,
                w > 0 as real,
        ;
        assert(quotient <= l ==> quotient * w <= l * w) by (nonlinear_arith)
            requires
                w > 0 as real,
        ;
        assert(l * (y * t) == (l * t) * y) by (nonlinear_arith);
    }
    lemma_nearest_is_finite(num, mb);
    if rounding::nearest_index(num, mb) < rounding::INFINITY_INDEX {
        lemma_rounded_value(num, mb);
        lemma_signed(negative, rounding::nearest_index(num, mb), exact);
    }
}

/// A square root with a full significand is the exact root up to rounding: its square
/// is the number, but for a factor between `(1 - 2^-24)^2` and `(1 + 2^-24)^2`.
pub proof fn law_square_root_is_accurate(a: Single)
    requires
        a.finite(),
        !a.negative(),
        a.square_root().finite(),
        a.square_root().index() >= 0x80_0000,
    ensures
        ({
            let root = a.square_root().value();
            let low = (1 as real - roundoff()) * root;
            let high = (1 as real + roundoff()) * root;
            &&& root > 0 as real
            &&& low * low <= a.value() <= high * high
        }),
{
    reveal(Single::square_root);
    lemma_steps();
    lemma_value_parts(a);
    lemma_pow2_pos(149);
    let t = steps_in_one();
    let u = roundoff();
    let ma = rounding::magnitude(a.index());
    let n = ma * pow2(149);
    lemma_product_as_real(ma, pow2(149) as int);
    assert(n >= 0) by (nonlinear_arith)
        requires
            ma >= 0,
            n == ma * pow2(149),
    ;
    let k = a.square_root().index();
    rounding::lemma_nearest_root_exists(n);
    lemma_packed_value(false, rounding::nearest_root_index(n));
    assert(k == rounding::nearest_root_index(n));
    rounding::lemma_magnitude_parts(k);
    rounding::lemma_magnitude_parts(k - 1);
    let s = rounding::scale_of(k);
    let q = rounding::significand_of(k);
    let p = pow2(s as nat) as int;
    let s1 = rounding::scale_of(k - 1);
    let p1 = pow2(s1 as nat) as int;
    lemma_pow2_pos(s as nat);
    lemma_pow2_pos(s1 as nat);
    if s1 < s {
        lemma_pow2_strictly_increases(s1 as nat, s as nat);
    }
    let above = rounding::doubled_midpoint(k);
    let below = rounding::doubled_midpoint(k - 1);
    let m = rounding::magnitude(k);
    let q1 = rounding::significand_of(k - 1);
    assert(above == 2 * m + p) by (nonlinear_arith)
        requires
            above == m + (q + 1) * p,
            m == q * p,
    ;
    assert(below == 2 * m - p1) by (nonlinear_arith)
        requires
            below == q1 * p1 + m,
            m == (q1 + 1) * p1,
    ;
    assert(0x80_0000 * p <= m) by (nonlinear_arith)
        requires
            m == q * p,
            q >= 0x80_0000,
            p > 0,
    ;
    lemma_product_as_real(above, above);
    lemma_product_as_real(below, below);
    let x = m as real;
    let up = above as real;
    let down = below as real;
    let nr = n as real;
    let root = x / t;
    let v = a.value();
    assert(a.square_root().value() == root);
    assert(up <= 2 as real * ((1 as real + u) * x)) by (nonlinear_arith)
        requires
            up == 2 as real * x + p as real,
            0x80_0000 as real * p as real <= x,
            u == 1 as real / 0x100_0000 as real,
    ;
    assert(down >= 2 as real * ((1 as real - u) * x)) by (nonlinear_arith)
        requires
            down == 2 as real * x - p1 as real,
            p1 as real <= p as real,
            0x80_0000 as real * p as real <= x,
            u == 1 as real / 0x100_0000 as real,
    ;
    assert(v == nr / (t * t)) by (nonlinear_arith)
        requires
            v == ma as real / t,
            nr == ma as real * t,
            t > 0 as real,
    ;
    let high = (1 as real + u) * root;
    let low = (1 as real - u) * root;
    let hx = (1 as real + u) * x;
    let lx = (1 as real - u) * x;
    assert(high == hx / t && low == lx / t) by (nonlinear_arith)
        requires
            high == (1 as real + u) * root,
            low == (1 as real - u) * root,
            hx == (1 as real + u) * x,
            lx == (1 as real - u) * x,
            root == x / t,
            t > 0 as real,
    ;
    assert(root > 0 as real) by (nonlinear_arith)
        requires
            root == x / t,
            x > 0 as real,
            t > 0 as real,
    ;
    assert(nr <= hx * hx) by (nonlinear_arith)
        requires
            4 as real * nr <= up * up,
            0 as real <= up <= 2 as real * hx,
    ;
    assert(lx >= 0 as real) by (nonlinear_arith)
        requires
            lx == (1 as real - u) * x,
            x > 0 as real,
            u == 1 as real / 0x100_0000 as real,
    ;
    assert(lx * lx <= nr) by (nonlinear_arith)
        requires
            4 as real * nr >= down * down,
            down >= 2 as real * lx,
            lx >= 0 as real,
    ;
    assert(nr / (t * t) <= high * high) by (nonlinear_arith)
        requires
            nr <= hx * hx,
            high == hx / t,
            t > 0 as real,
    ;
    assert(low * low <= nr / (t * t)) by (nonlinear_arith)
        requires
            lx * lx <= nr,
            low == lx / t,
            t > 0 as real,
    ;
}

/// Finite numbers are in the order of the values that they stand for.
pub proof fn law_order_is_that_of_the_values(a: Single, b: Single)
    requires
        a.finite(),
        b.finite(),
    ensures
        a.less(b) <==> a.value() < b.value(),
        a.less_or_same(b) <==> a.value() <= b.value(),
{
    lemma_steps();
    let t = steps_in_one();
    let x = a.scaled() as real;
    let y = b.scaled() as real;
    if a.key() <= b.key() {
        single::lemma_key_order(a, b);
    }
    if b.key() <= a.key() {
        single::lemma_key_order(b, a);
    }
    if a.key() < b.key() {
        lemma_key_strict(a, b);
    }
    if b.key() < a.key() {
        lemma_key_strict(b, a);
    }
    assert(x < y <==> x / t < y / t) by (nonlinear_arith)
        requires
            t > 0 as real,
    ;
    assert(y < x <==> y / t < x / t) by (nonlinear_arith)
        requires
            t > 0 as real,
    ;
}

proof fn lemma_key_strict(a: Single, b: Single)
    requires
        a.finite(),
        b.finite(),
        a.key() < b.key(),
    ensures
        a.scaled() < b.scaled(),
{
    if a.index() < b.index() {
        rounding::lemma_magnitude_increases(a.index(), b.index());
    } else if b.index() < a.index() {
        rounding::lemma_magnitude_increases(b.index(), a.index());
    }
    if a.index() > 0 {
        rounding::lemma_magnitude_increases(0, a.index());
    }
    if b.index() > 0 {
        rounding::lemma_magnitude_increases(0, b.index());
    }
}

/// What the sign and the constants stand for: the two zeros are zero and nothing else is,
/// a negation is the opposite, the absolute value is the size, and 1 is 1.
pub proof fn law_signs_and_constants(a: Single)
    requires
        a.finite(),
    ensures
        a.zero() <==> a.value() == 0 as real,
        a.negation().finite() && a.negation().value() == -a.value(),
        a.absolute().finite() && a.absolute().value() == size(a.value()),
        Single::positive_zero().finite() && Single::positive_zero().value() == 0 as real,
        Single::one().finite() && Single::one().value() == 1 as real,
{
    lemma_steps();
    lemma_value_parts(a);
    lemma_value_parts(Single::positive_zero());
    lemma_packed_value(false, a.index());
    single::lemma_one_is_unit();
    let t = steps_in_one();
    assert(t / t == 1 as real) by (nonlinear_arith)
        requires
            t > 0 as real,
    ;
}

/// The bit pattern of 0.0001, and the number that it stands for: 13743895 times 2^-37,
/// which is between 1/10001 and 1/10000.
pub proof fn law_ten_thousandth()
    ensures
        ({
            let x = Single { bits: 0x38d1_b717 };
            &&& x.finite()
            &&& x.value() * 0x20_0000_0000 as real == 13743895 as real
            &&& x.value() * 10000 as real <= 1 as real
            &&& x.value() * 10001 as real >= 1 as real
        }),
{
    let x = Single { bits: 0x38d1_b717 };
    lemma_steps();
    rounding::lemma_magnitude_at(112, 0xd1_b717);
    lemma_pow2_adds(112, 37);
    lemma2_to64();
    lemma2_to64_rest();
    lemma_product_as_real(pow2(112) as int, pow2(37) as int);
    lemma_product_as_real(0xd1_b717, pow2(112) as int);
    lemma_pow2_pos(112);
    let t = steps_in_one();
    let w = pow2(112) as real;
    let v = x.value();
    assert(x.scaled() == 0xd1_b717 * pow2(112));
    assert(v == (13743895 as real * w) / t);
    assert(t == w * 0x20_0000_0000 as real);
    assert(v * 0x20_0000_0000 as real == 13743895 as real) by (nonlinear_arith)
        requires
            v == (13743895 as real * w) / t,
            t == w * 0x20_0000_0000 as real,
            w > 0 as real,
    ;
}

} // verus!
