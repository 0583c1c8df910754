use crate::rounding;
use vstd::arithmetic::power2::*;
use vstd::prelude::*;

verus! {

/// A single-precision floating-point number, held as its IEEE 754 binary32 bit
/// pattern. Every operation on it is integer arithmetic with an exact contract;
/// rounding is to nearest, ties to even.
///
/// Equality of this type is equality of bit patterns: the two zeros differ.
#[derive(Clone, Copy, Debug, PartialEq, Eq, Structural)]
pub struct Single {
    pub bits: u32,
}

/// The bit pattern of 0.
pub const ZERO_BITS: u32 = 0;

/// The bit pattern of the distance from 1 to the next larger number, 2^-23.
pub const EPSILON_BITS: u32 = 0x3400_0000;

/// The bit pattern of 1.
pub const ONE_BITS: u32 = 0x3f80_0000;

/// The bit pattern that stands for every result that is not a number.
pub const NOT_A_NUMBER_BITS: u32 = 0x7fc0_0000;

impl Single {
    /// The index of the number's magnitude: its bit pattern without the sign.
    pub open spec fn index(self) -> int {
        self.bits as int % 0x8000_0000
    }

    pub open spec fn negative(self) -> bool {
        self.bits >= 0x8000_0000
    }

    pub open spec fn nan(self) -> bool {
        self.index() > rounding::INFINITY_INDEX
    }

    pub open spec fn infinite(self) -> bool {
        self.index() == rounding::INFINITY_INDEX
    }

    pub open spec fn finite(self) -> bool {
        self.index() < rounding::INFINITY_INDEX
    }

    pub open spec fn zero(self) -> bool {
        self.index() == 0
    }

    pub open spec fn not_a_number() -> Single {
        Single { bits: NOT_A_NUMBER_BITS }
    }

    pub open spec fn positive_zero() -> Single {
        Single { bits: ZERO_BITS }
    }

    pub open spec fn one() -> Single {
        Single { bits: ONE_BITS }
    }

    /// The number as a multiple of 2^-149.
    pub open spec fn scaled(self) -> int {
        if self.negative() {
            -rounding::magnitude(self.index())
        } else {
            rounding::magnitude(self.index())
        }
    }

    /// Numbers are ordered as their keys are; both zeros have the key 0.
    pub open spec fn key(self) -> int {
        if self.negative() {
            -self.index()
        } else {
            self.index()
        }
    }

    pub open spec fn less(self, other: Single) -> bool {
        !self.nan() && !other.nan() && self.key() < other.key()
    }

    pub open spec fn less_or_same(self, other: Single) -> bool {
        !self.nan() && !other.nan() && self.key() <= other.key()
    }

    /// The number, with one bit pattern for everything that is not a number.
    pub open spec fn settled(self) -> Single {
        if self.nan() {
            Single::not_a_number()
        } else {
            self
        }
    }

    pub open spec fn negation(self) -> Single {
        packed(!self.negative(), self.index())
    }

    pub open spec fn absolute(self) -> Single {
        packed(false, self.index())
    }

    #[verifier::opaque]
    pub open spec fn sum(self, other: Single) -> Single {
        if self.nan() || other.nan() {
            Single::not_a_number()
        } else if self.infinite() {
            if other.infinite() && self.negative() != other.negative() {
                Single::not_a_number()
            } else {
                self
            }
        } else if other.infinite() {
            other
        } else {
            let total = self.scaled() + other.scaled();
            if total == 0 {
                packed(self.negative() && other.negative(), 0)
            } else if total < 0 {
                packed(true, rounding::nearest_index(-total, 1))
            } else {
                packed(false, rounding::nearest_index(total, 1))
            }
        }
    }

    pub open spec fn difference(self, other: Single) -> Single {
        self.sum(other.negation())
    }

    #[verifier::opaque]
    pub open spec fn product(self, other: Single) -> Single {
        let negative = self.negative() != other.negative();
        if self.nan() || other.nan() {
            Single::not_a_number()
        } else if self.infinite() || other.infinite() {
            if self.zero() || other.zero() {
                Single::not_a_number()
            } else {
                packed(negative, rounding::INFINITY_INDEX as int)
            }
        } else {
            packed(
                negative,
                rounding::nearest_index(
                    rounding::magnitude(self.index()) * rounding::magnitude(other.index()),
                    pow2(149) as int,
                ),
            )
        }
    }

    #[verifier::opaque]
    pub open spec fn quotient(self, other: Single) -> Single {
        let negative = self.negative() != other.negative();
        if self.nan() || other.nan() {
            Single::not_a_number()
        } else if self.infinite() {
            if other.infinite() {
                Single::not_a_number()
            } else {
                packed(negative, rounding::INFINITY_INDEX as int)
            }
        } else if other.infinite() {
            packed(negative, 0)
        } else if other.zero() {
            if self.zero() {
                Single::not_a_number()
            } else {
                packed(negative, rounding::INFINITY_INDEX as int)
            }
        } else {
            packed(
                negative,
                rounding::nearest_index(rounding::magnitude(self.index()) * pow2(149), rounding::magnitude(other.index())),
            )
        }
    }

    #[verifier::opaque]
    pub open spec fn square_root(self) -> Single {
        if self.nan() {
            Single::not_a_number()
        } else if self.zero() {
            self
        } else if self.negative() {
            Single::not_a_number()
        } else if self.infinite() {
            self
        } else {
            packed(false, rounding::nearest_root_index(rounding::magnitude(self.index()) * pow2(149)))
        }
    }
}

/// The number with the given sign whose magnitude has index `k`.
pub open spec fn packed(negative: bool, k: int) -> Single {
    Single {
        bits: (if negative {
            k + 0x8000_0000
        } else {
            k
        }) as u32,
    }
}

/// The significand and scale of a magnitude, as executable values.
fn magnitude_parts(k: u32) -> (parts: (u64, i32))
    requires
        k < rounding::INFINITY_INDEX,
    ensures
        parts.0 < 0x100_0000,
        0 <= parts.1 <= 253,
        parts.1 > 0 ==> parts.0 >= 0x80_0000,
        parts.0 == rounding::significand_of(k as int),
        parts.1 == rounding::scale_of(k as int),
        rounding::magnitude(k as int) == parts.0 * pow2(parts.1 as nat),
        k > 0 <==> parts.0 > 0,
{
    proof {
        rounding::lemma_magnitude_parts(k as int);
    }
    if k < 0x80_0000 {
        (k as u64, 0)
    } else {
        ((k % 0x80_0000 + 0x80_0000) as u64, (k / 0x80_0000 - 1) as i32)
    }
}

fn pack(negative: bool, k: u32) -> (r: Single)
    requires
        k <= rounding::INFINITY_INDEX,
    ensures
        r == packed(negative, k as int),
        r.index() == k,
        r.negative() == negative,
{
    if negative {
        Single { bits: k + 0x8000_0000 }
    } else {
        Single { bits: k }
    }
}

impl Single {
    fn magnitude_index(self) -> (k: u32)
        ensures
            k == self.index(),
    {
        self.bits % 0x8000_0000
    }

    /// Whether the sign bit is set.
    pub fn is_negative(self) -> (r: bool)
        ensures
            r == self.negative(),
    {
        self.bits >= 0x8000_0000
    }

    pub fn is_nan(self) -> (r: bool)
        ensures
            r == self.nan(),
    {
        self.magnitude_index() > rounding::INFINITY_INDEX
    }

    pub fn is_infinite(self) -> (r: bool)
        ensures
            r == self.infinite(),
    {
        self.magnitude_index() == rounding::INFINITY_INDEX
    }

    pub fn is_finite(self) -> (r: bool)
        ensures
            r == self.finite(),
    {
        self.magnitude_index() < rounding::INFINITY_INDEX
    }

    pub fn is_zero(self) -> (r: bool)
        ensures
            r == self.zero(),
    {
        self.magnitude_index() == 0
    }

    fn order_key(self) -> (r: i64)
        ensures
            r == self.key(),
    {
        if self.is_negative() {
            -(self.magnitude_index() as i64)
        } else {
            self.magnitude_index() as i64
        }
    }

    /// Numeric `<`: false where either side is not a number.
    pub fn less_than(self, other: Single) -> (r: bool)
        ensures
            r == self.less(other),
    {
        !self.is_nan() && !other.is_nan() && self.order_key() < other.order_key()
    }

    /// Numeric `<=`: false where either side is not a number.
    pub fn at_most(self, other: Single) -> (r: bool)
        ensures
            r == self.less_or_same(other),
    {
        !self.is_nan() && !other.is_nan() && self.order_key() <= other.order_key()
    }

    /// The number, or the one pattern that stands for what is not a number.
    pub fn settle(self) -> (r: Single)
        ensures
            r == self.settled(),
    {
        if self.is_nan() {
            Single { bits: NOT_A_NUMBER_BITS }
        } else {
            self
        }
    }

    /// The number with its sign flipped.
    pub fn negate(self) -> (r: Single)
        ensures
            r == self.negation(),
    {
        if self.is_negative() {
            Single { bits: self.bits - 0x8000_0000 }
        } else {
            Single { bits: self.bits + 0x8000_0000 }
        }
    }

    /// The number with its sign cleared.
    pub fn abs(self) -> (r: Single)
        ensures
            r == self.absolute(),
    {
        Single { bits: self.magnitude_index() }
    }
}

/// The sum of two finite magnitudes, the larger first, as a floor with a flag.
proof fn lemma_aligned(mh: int, eh: int, ml: int, el: int, y: int, rest: int)
    requires
        0 <= el <= eh,
        ml * pow2(36) == y * pow2((eh - el) as nat) + rest,
        0 <= rest < pow2((eh - el) as nat),
    ensures
        ({
            let unit = pow2((eh - 36 + rounding::SCALE_BIAS) as nat) as int;
            let b = pow2(rounding::SCALE_BIAS as nat) as int;
            let low = (ml * pow2(el as nat)) * b;
            &&& unit > 0
            &&& (mh * pow2(eh as nat)) * b == (mh * pow2(36)) * unit
            &&& y * unit <= low < (y + 1) * unit
            &&& low == y * unit <==> rest == 0
        }),
{
    let bias = rounding::SCALE_BIAS as int;
    let unit = pow2((eh - 36 + bias) as nat) as int;
    let b = pow2(bias as nat) as int;
    let tail = pow2((el - 36 + bias) as nat) as int;
    let step = pow2((eh - el) as nat) as int;
    let c = pow2(36) as int;
    let ph = pow2(eh as nat) as int;
    let pl = pow2(el as nat) as int;
    lemma_pow2_pos((eh - 36 + bias) as nat);
    lemma_pow2_pos((el - 36 + bias) as nat);
    lemma_pow2_adds(eh as nat, bias as nat);
    lemma_pow2_adds(36, (eh - 36 + bias) as nat);
    lemma_pow2_adds(el as nat, bias as nat);
    lemma_pow2_adds(36, (el - 36 + bias) as nat);
    lemma_pow2_adds((eh - el) as nat, (el - 36 + bias) as nat);
    assert((mh * ph) * b == (mh * c) * unit) by (nonlinear_arith)
        requires
            ph * b == c * unit,
    ;
    let low = (ml * pl) * b;
    assert(low == (ml * c) * tail) by (nonlinear_arith)
        requires
            low == (ml * pl) * b,
            pl * b == c * tail,
    ;
    assert((y * step + rest) * tail == y * (step * tail) + rest * tail) by (nonlinear_arith);
    assert(0 <= rest * tail < unit) by (nonlinear_arith)
        requires
            0 <= rest < step,
            tail > 0,
            step * tail == unit,
    ;
    assert((y + 1) * unit == y * unit + unit) by (nonlinear_arith);
    assert(rest * tail == 0 <==> rest == 0) by (nonlinear_arith)
        requires
            tail > 0,
    ;
}

proof fn lemma_positive_value(n: int, b: int, sig: int, unit: int)
    requires
        n * b >= sig * unit,
        sig > 0,
        unit > 0,
        b > 0,
    ensures
        n > 0,
{
    assert(n > 0) by (nonlinear_arith)
        requires
            n * b >= sig * unit,
            sig > 0,
            unit > 0,
            b > 0,
    ;
}

/// The floor of `ml * 2^36 / 2^d`, and whether something was left over.
fn shifted_down(ml: u64, d: u32) -> (r: (u64, bool))
    requires
        ml < 0x100_0000,
    ensures
        exists|rest: int|
            {
                &&& ml * pow2(36) == r.0 * pow2(d as nat) + rest
                &&& 0 <= #[trigger] (rest * 1) < pow2(d as nat)
                &&& r.1 <==> rest != 0
            },
        r.0 <= ml * pow2(36),
        d > 36 ==> r.0 < 0x100_0000,
        r.1 ==> d > 36,
{
    proof {
        lemma2_to64();
        lemma2_to64_rest();
    }
    let x: u64 = ml * 0x10_0000_0000;
    let mut q: u64 = x;
    let mut w: u64 = 1;
    let mut s: u32 = 0;
    while s < d && s < 61
        invariant
            s <= d,
            s <= 61,
            w == pow2(s as nat),
            x == ml * 0x10_0000_0000,
            ml < 0x100_0000,
            q * w <= x < (q + 1) * w,
            s <= 36 ==> q * w == x && q == ml * pow2((36 - s) as nat),
            s > 36 ==> q < 0x100_0000,
            q <= x,
        decreases 61 - s,
    {
        proof {
            lemma2_to64();
            lemma_pow2_unfold((s + 1) as nat);
            lemma2_to64_rest();
            if s < 61 {
                lemma_pow2_strictly_increases(s as nat, 61);
            }
            let half = (q / 2) as int;
            let odd = (q % 2) as int;
            assert(half * (2 * w) <= x < (half + 1) * (2 * w)) by (nonlinear_arith)
                requires
                    q * w <= x < (q + 1) * w,
                    q == 2 * half + odd,
                    0 <= odd <= 1,
                    w > 0,
            ;
            if s < 36 {
                lemma_pow2_unfold((36 - s) as nat);
                let p = pow2((36 - s - 1) as nat) as int;
                assert(ml * (2 * p) == 2 * (ml * p)) by (nonlinear_arith);
                assert(half * (2 * w) == q * w) by (nonlinear_arith)
                    requires
                        q == 2 * half,
                ;
            } else if s == 36 {
                assert(q == ml * 1);
            }
        }
        q = q / 2;
        w = 2 * w;
        s = s + 1;
    }
    proof {
        lemma2_to64_rest();
        if s < 61 {
            lemma_pow2_strictly_increases(s as nat, 61);
        }
        assert(0 <= q * w) by (nonlinear_arith)
            requires
                q >= 0,
                w >= 0,
        ;
        let rest = x - q * w;
        assert(rest < w) by (nonlinear_arith)
            requires
                rest == x - q * w,
                x < (q + 1) * w,
        ;
        if s < d {
            assert(q == 0) by (nonlinear_arith)
                requires
                    q * w <= x,
                    x < w,
                    w > 0,
            ;
            lemma_pow2_strictly_increases(s as nat, d as nat);
            assert(0 * pow2(d as nat) == 0);
            assert(x < w);
        }
        assert(rest * 1 == rest);
        assert(ml * pow2(36) == q * pow2(d as nat) + rest);
    }
    let left: bool = x != q * w;
    (q, left)
}

impl Single {
    /// `self + other`.
    pub fn plus(self, other: Single) -> (r: Single)
        ensures
            r == self.sum(other),
    {
        proof {
            reveal(Single::sum);
        }
        if self.is_nan() || other.is_nan() {
            return Single { bits: NOT_A_NUMBER_BITS };
        }
        if self.is_infinite() {
            if other.is_infinite() && self.is_negative() != other.is_negative() {
                return Single { bits: NOT_A_NUMBER_BITS };
            }
            return self;
        }
        if other.is_infinite() {
            return other;
        }
        if self.magnitude_index() < other.magnitude_index() {
            plus_ordered(other, self)
        } else {
            plus_ordered(self, other)
        }
    }

    /// `self - other`.
    pub fn minus(self, other: Single) -> (r: Single)
        ensures
            r == self.difference(other),
    {
        self.plus(other.negate())
    }
}

/// The sum of two finite numbers, the one of larger magnitude first.
fn plus_ordered(high: Single, low: Single) -> (r: Single)
    requires
        high.finite(),
        low.index() <= high.index(),
    ensures
        r == high.sum(low),
{
    proof {
        reveal(Single::sum);
    }
    let (mh, eh) = magnitude_parts(high.magnitude_index());
    let (ml, el) = magnitude_parts(low.magnitude_index());
    proof {
        lemma2_to64();
        lemma2_to64_rest();
    }
    let (y, left) = shifted_down(ml, (eh - el) as u32);
    let x: u64 = mh * 0x10_0000_0000;
    let ghost rest = choose|rest: int|
        {
            &&& ml * pow2(36) == y * pow2((eh - el) as nat) + rest
            &&& 0 <= #[trigger] (rest * 1) < pow2((eh - el) as nat)
            &&& left <==> rest != 0
        };
    let ghost hi = rounding::magnitude(high.index());
    let ghost lo = rounding::magnitude(low.index());
    let ghost unit = pow2((eh - 36 + rounding::SCALE_BIAS) as nat) as int;
    let ghost b = pow2(rounding::SCALE_BIAS as nat) as int;
    proof {
        lemma_aligned(mh as int, eh as int, ml as int, el as int, y as int, rest);
        assert(hi * b == x * unit);
        assert(unit * 1 == unit);
        if low.index() < high.index() {
            rounding::lemma_magnitude_increases(low.index(), high.index());
        }
        lemma_pow2_pos(rounding::SCALE_BIAS as nat);
    }
    if high.is_negative() == low.is_negative() {
        let sig: u64 = x + y;
        if sig == 0 {
            proof {
                assert(hi == 0 && lo == 0);
            }
            return pack(high.is_negative() && low.is_negative(), 0);
        }
        proof {
            assert((hi + lo) * b == hi * b + lo * b) by (nonlinear_arith);
            assert((x + y) * unit == x * unit + y * unit) by (nonlinear_arith);
            assert((x + y + 1) * unit == x * unit + (y + 1) * unit) by (nonlinear_arith);
            assert(rounding::approximates(hi + lo, 1, sig as int, eh - 36, left));
        }
        let k: u32 = rounding::round_to_index(sig, eh - 36, left, Ghost(hi + lo), Ghost(1));
        proof {
            lemma_positive_value(hi + lo, b, sig as int, unit);
        }
        pack(high.is_negative(), k)
    } else {
        proof {
            assert((hi - lo) * b == hi * b - lo * b) by (nonlinear_arith);
            assert(y <= x) by (nonlinear_arith)
                requires
                    y * unit <= lo * b,
                    lo * b <= hi * b,
                    hi * b == x * unit,
                    unit > 0,
            ;
        }
        if left {
            assert(y < x) by (nonlinear_arith)
                requires
                    y * unit < lo * b,
                    lo * b <= hi * b,
                    hi * b == x * unit,
                    unit > 0,
            ;
            let sig: u64 = x - y - 1;
            proof {
                assert((x - y - 1) * unit == x * unit - (y + 1) * unit) by (nonlinear_arith);
                assert((x - y) * unit == x * unit - y * unit) by (nonlinear_arith);
                assert(rounding::approximates(hi - lo, 1, sig as int, eh - 36, true));
            }
            let k: u32 = rounding::round_to_index(sig, eh - 36, true, Ghost(hi - lo), Ghost(1));
            proof {
                lemma_positive_value(hi - lo, b, sig as int, unit);
            }
            pack(high.is_negative(), k)
        } else {
            let sig: u64 = x - y;
            proof {
                assert((x - y) * unit == x * unit - y * unit) by (nonlinear_arith);
                assert((x - y + 1) * unit == x * unit - y * unit + unit) by (nonlinear_arith);
            }
            if sig == 0 {
                proof {
                    assert(hi - lo == 0) by (nonlinear_arith)
                        requires
                            (hi - lo) * b == 0,
                            b > 0,
                    ;
                }
                return pack(false, 0);
            }
            proof {
                assert(rounding::approximates(hi - lo, 1, sig as int, eh - 36, false));
            }
            let k: u32 = rounding::round_to_index(sig, eh - 36, false, Ghost(hi - lo), Ghost(1));
            proof {
                lemma_positive_value(hi - lo, b, sig as int, unit);
            }
            pack(high.is_negative(), k)
        }
    }
}

proof fn lemma_zero_rounds_to_zero(den: int)
    requires
        den > 0,
    ensures
        rounding::nearest_index(0, den) == 0,
{
    assert(rounding::doubled_midpoint(0) == 1);
    rounding::lemma_nearest_unique(0, den, 0);
}

impl Single {
    /// `self * other`.
    pub fn times(self, other: Single) -> (r: Single)
        ensures
            r == self.product(other),
    {
        proof {
            reveal(Single::product);
        }
        let negative: bool = self.is_negative() != other.is_negative();
        if self.is_nan() || other.is_nan() {
            return Single { bits: NOT_A_NUMBER_BITS };
        }
        if self.is_infinite() || other.is_infinite() {
            if self.is_zero() || other.is_zero() {
                return Single { bits: NOT_A_NUMBER_BITS };
            }
            return pack(negative, rounding::INFINITY_INDEX);
        }
        let (ma, ea) = magnitude_parts(self.magnitude_index());
        let (mb, eb) = magnitude_parts(other.magnitude_index());
        let ghost va = rounding::magnitude(self.index());
        let ghost vb = rounding::magnitude(other.index());
        let ghost den = pow2(149) as int;
        proof {
            lemma_pow2_pos(149);
        }
        if ma == 0 || mb == 0 {
            proof {
                assert(va * vb == 0) by (nonlinear_arith)
                    requires
                        va == 0 || vb == 0,
                ;
                lemma_zero_rounds_to_zero(den);
            }
            return pack(negative, 0);
        }
        assert(0 < ma * mb < 0x1_0000_0000_0000) by (nonlinear_arith)
            requires
                0 < ma < 0x100_0000,
                0 < mb < 0x100_0000,
        ;
        let sig: u64 = ma * mb;
        let e: i32 = ea + eb - 149;
        proof {
            let bias = rounding::SCALE_BIAS as int;
            let b = pow2(bias as nat) as int;
            let pa = pow2(ea as nat) as int;
            let pb = pow2(eb as nat) as int;
            let p = pow2((e + bias) as nat) as int;
            lemma_pow2_adds(ea as nat, eb as nat);
            lemma_pow2_adds((ea + eb) as nat, bias as nat);
            lemma_pow2_adds((e + bias) as nat, 149);
            lemma_pow2_pos((ea + eb + bias) as nat);
            let unit = p * den;
            assert(pa * pb * b == unit);
            assert((va * vb) * b == sig * unit) by (nonlinear_arith)
                requires
                    va == ma * pa,
                    vb == mb * pb,
                    sig == ma * mb,
                    pa * pb * b == unit,
            {
                assert((ma * pa) * (mb * pb) == (ma * mb) * (pa * pb)) by (nonlinear_arith);
                assert((ma * mb) * (pa * pb) * b == (ma * mb) * (pa * pb * b)) by (nonlinear_arith);
            }
            assert((sig + 1) * unit == sig * unit + unit) by (nonlinear_arith);
        }
        let k: u32 = rounding::round_to_index(sig, e, false, Ghost(va * vb), Ghost(den));
        pack(negative, k)
    }

    /// `self / other`.
    pub fn divided_by(self, other: Single) -> (r: Single)
        ensures
            r == self.quotient(other),
    {
        proof {
            reveal(Single::quotient);
        }
        let negative: bool = self.is_negative() != other.is_negative();
        if self.is_nan() || other.is_nan() {
            return Single { bits: NOT_A_NUMBER_BITS };
        }
        if self.is_infinite() {
            if other.is_infinite() {
                return Single { bits: NOT_A_NUMBER_BITS };
            }
            return pack(negative, rounding::INFINITY_INDEX);
        }
        if other.is_infinite() {
            return pack(negative, 0);
        }
        if other.is_zero() {
            if self.is_zero() {
                return Single { bits: NOT_A_NUMBER_BITS };
            }
            return pack(negative, rounding::INFINITY_INDEX);
        }
        let (ma, ea) = magnitude_parts(self.magnitude_index());
        let (mb, eb) = magnitude_parts(other.magnitude_index());
        let ghost va = rounding::magnitude(self.index());
        let ghost den = rounding::magnitude(other.index());
        let ghost num = va * pow2(149);
        proof {
            rounding::lemma_magnitude_increases(0, other.index());
        }
        if ma == 0 {
            proof {
                assert(0 * pow2(149) == 0);
                lemma_zero_rounds_to_zero(den);
            }
            return pack(negative, 0);
        }
        let (m, j) = left_justified(ma);
        proof {
            lemma2_to64();
            lemma2_to64_rest();
        }
        let x: u64 = m * 0x40_0000_0000;
        let sig: u64 = x / mb;
        let left: u64 = x % mb;
        assert(sig >= 0x400_0000) by {
            assert(sig * mb + left == x) by (nonlinear_arith)
                requires
                    sig == x / mb,
                    left == x % mb,
                    mb > 0,
            ;
            assert(sig >= 0x400_0000) by (nonlinear_arith)
                requires
                    sig * mb + left == x,
                    left < mb,
                    mb < 0x100_0000,
                    x >= 0x80_0000 * 0x40_0000_0000,
            ;
        }
        assert(sig <= x) by (nonlinear_arith)
            requires
                sig == x / mb,
                mb > 0,
        ;
        let e: i32 = ea - j - 38 - eb + 149;
        proof {
            let bias = rounding::SCALE_BIAS as int;
            let b = pow2(bias as nat) as int;
            let pa = pow2(ea as nat) as int;
            let pb = pow2(eb as nat) as int;
            let pj = pow2(j as nat) as int;
            let p = pow2((e + bias) as nat) as int;
            let v = pow2((ea - j - 38 + 149 + bias) as nat) as int;
            let c = pow2(149) as int;
            let d = pow2(38) as int;
            lemma_pow2_pos((ea - j - 38 + 149 + bias) as nat);
            lemma_pow2_adds((e + bias) as nat, eb as nat);
            assert(p * pb == v);
            lemma_pow2_adds(ea as nat, 149);
            lemma_pow2_adds((ea + 149) as nat, bias as nat);
            lemma_pow2_adds(j as nat, 38);
            lemma_pow2_adds((j + 38) as nat, (ea - j - 38 + 149 + bias) as nat);
            assert(pa * c * b == pj * d * v);
            let unit = p * den;
            assert(unit == mb * v) by (nonlinear_arith)
                requires
                    unit == p * (mb * pb),
                    p * pb == v,
            ;
            assert(num * b == x * v) by {
                assert((ma * pa) * c * b == ma * (pa * c * b)) by (nonlinear_arith);
                assert(ma * (pj * d * v) == (ma * pj) * d * v) by (nonlinear_arith);
            }
            assert(sig * mb + left == x) by (nonlinear_arith)
                requires
                    sig == x / mb,
                    left == x % mb,
                    mb > 0,
            ;
            assert(x * v == sig * (mb * v) + left * v) by (nonlinear_arith)
                requires
                    sig * mb + left == x,
            ;
            assert(0 <= left * v < mb * v) by (nonlinear_arith)
                requires
                    0 <= left < mb,
                    v > 0,
            ;
            assert((sig + 1) * unit == sig * unit + unit) by (nonlinear_arith);
            assert(left * v == 0 <==> left == 0) by (nonlinear_arith)
                requires
                    v > 0,
            ;
        }
        let k: u32 = rounding::round_to_index(sig, e, left != 0, Ghost(num), Ghost(den));
        pack(negative, k)
    }
}

/// A significand doubled until it fills 24 bits, and how often that was.
fn left_justified(m: u64) -> (r: (u64, i32))
    requires
        0 < m < 0x100_0000,
    ensures
        0x80_0000 <= r.0 < 0x100_0000,
        0 <= r.1 <= 23,
        r.0 == m * pow2(r.1 as nat),
{
    let mut x: u64 = m;
    let mut j: i32 = 0;
    proof {
        lemma2_to64();
        assert(m * 1 == m);
    }
    while x < 0x80_0000
        invariant
            0 < m,
            0 < x < 0x100_0000,
            0 <= j <= 23,
            x == m * pow2(j as nat),
        decreases 0x100_0000 - x,
    {
        proof {
            lemma2_to64();
            lemma_pow2_unfold((j + 1) as nat);
            let p = pow2(j as nat) as int;
            assert(m * (2 * p) == 2 * (m * p)) by (nonlinear_arith);
            assert(p <= x) by (nonlinear_arith)
                requires
                    x == m * p,
                    m > 0,
                    p >= 0,
            ;
        }
        x = 2 * x;
        j = j + 1;
    }
    (x, j)
}

/// The floor of the square root.
fn floor_root(n: u64) -> (r: u64)
    requires
        0x4_0000_0000_0000 <= n < 0x10_0000_0000_0000,
    ensures
        r * r <= n < (r + 1) * (r + 1),
        0x200_0000 <= r < 0x400_0000,
{
    let mut low: u64 = 0x200_0000;
    let mut high: u64 = 0x400_0000;
    while high - low > 1
        invariant
            0x200_0000 <= low < high <= 0x400_0000,
            low * low <= n < high * high,
        decreases high - low,
    {
        let middle: u64 = low + (high - low) / 2;
        assert(middle * middle <= 0x10_0000_0000_0000) by (nonlinear_arith)
            requires
                0 <= middle <= 0x400_0000,
        ;
        if middle * middle <= n {
            low = middle;
        } else {
            high = middle;
        }
    }
    assert(high == low + 1);
    low
}

impl Single {
    /// The square root.
    pub fn sqrt(self) -> (r: Single)
        ensures
            r == self.square_root(),
    {
        proof {
            reveal(Single::square_root);
        }
        if self.is_nan() {
            return Single { bits: NOT_A_NUMBER_BITS };
        }
        if self.is_zero() {
            return self;
        }
        if self.is_negative() {
            return Single { bits: NOT_A_NUMBER_BITS };
        }
        if self.is_infinite() {
            return self;
        }
        let (ma, ea) = magnitude_parts(self.magnitude_index());
        let (m, j) = left_justified(ma);
        // m * 2^27 or m * 2^28, whichever leaves an even scale.
        let odd: bool = (ea - j + 149) % 2 == 0;
        let x: u64 = if odd {
            m * 0x1000_0000
        } else {
            m * 0x800_0000
        };
        let shift: i32 = if odd {
            28
        } else {
            27
        };
        let e: i32 = (ea - j + 149 - shift) / 2;
        let root: u64 = floor_root(x);
        let q: u64 = root / 4;
        let rest: u64 = root % 4;
        assert(root * root <= u64::MAX) by (nonlinear_arith)
            requires
                root * root <= x,
        ;
        let up: bool = rest > 2 || (rest == 2 && (root * root < x || q % 2 == 1));
        let base: u32 = (e + 2) as u32 * 0x80_0000 + q as u32;
        let k: u32 = if up {
            base + 1
        } else {
            base
        };
        proof {
            let n = rounding::magnitude(self.index()) * pow2(149);
            let pa = pow2(ea as nat) as int;
            let pj = pow2(j as nat) as int;
            let ps = pow2(shift as nat) as int;
            let pe = pow2(e as nat) as int;
            let c = pow2(149) as int;
            lemma2_to64();
            assert(2 * e == ea - j + 149 - shift);
            lemma_pow2_adds(e as nat, e as nat);
            lemma_pow2_adds(ea as nat, 149);
            lemma_pow2_adds(j as nat, shift as nat);
            lemma_pow2_adds((j + shift) as nat, (2 * e) as nat);
            assert(pa * c == pj * ps * (pe * pe));
            assert(n == x * (pe * pe)) by {
                assert((ma * pa) * c == ma * (pa * c)) by (nonlinear_arith);
                assert(ma * (pj * ps * (pe * pe)) == (ma * pj) * ps * (pe * pe)) by (nonlinear_arith);
            }
            rounding::lemma_round_root(n, x as int, e as int, root as int, q as int, up);
            rounding::lemma_nearest_root_unique(n, k as int);
        }
        pack(false, k)
    }
}

/// Subtraction keeps order: of two numbers on the same side of `from`, the one
/// farther away has the difference of larger magnitude.
pub proof fn law_difference_grows_with_distance(from: Single, near: Single, far: Single)
    requires
        from.finite(),
        near.finite(),
        far.finite(),
        from.key() >= near.key() >= far.key() || from.key() <= near.key() <= far.key(),
    ensures
        from.difference(near).index() <= from.difference(far).index() <= rounding::INFINITY_INDEX,
{
    if from.key() >= near.key() && near.key() >= far.key() {
        lemma_key_order(near, from);
        lemma_key_order(far, near);
    } else {
        lemma_key_order(from, near);
        lemma_key_order(near, far);
    }
    lemma_difference_index(from, near);
    lemma_difference_index(from, far);
    let n = distance(from, near);
    let f = distance(from, far);
    rounding::lemma_nearest_exists(n, 1);
    rounding::lemma_nearest_exists(f, 1);
    rounding::lemma_nearest_monotone(
        n,
        1,
        rounding::nearest_index(n, 1),
        f,
        1,
        rounding::nearest_index(f, 1),
    );
}

/// The exact distance between two finite numbers, as a multiple of 2^-149.
spec fn distance(a: Single, b: Single) -> int {
    if a.scaled() <= b.scaled() {
        b.scaled() - a.scaled()
    } else {
        a.scaled() - b.scaled()
    }
}

/// Finite numbers are ordered as the values they stand for.
pub proof fn lemma_key_order(a: Single, b: Single)
    requires
        a.finite(),
        b.finite(),
        a.key() <= b.key(),
    ensures
        a.scaled() <= b.scaled(),
{
    if a.index() < b.index() {
        rounding::lemma_magnitude_increases(a.index(), b.index());
    } else if b.index() < a.index() {
        rounding::lemma_magnitude_increases(b.index(), a.index());
    }
    if a.index() > 0 {
        rounding::lemma_magnitude_increases(0, a.index());
    }
    if b.index() > 0 {
        rounding::lemma_magnitude_increases(0, b.index());
    }
}

proof fn lemma_difference_index(a: Single, b: Single)
    requires
        a.finite(),
        b.finite(),
    ensures
        a.difference(b).index() == rounding::nearest_index(distance(a, b), 1),
{
    reveal(Single::sum);
    assert(b.negation().index() == b.index());
    assert(b.negation().scaled() == -b.scaled());
    rounding::lemma_nearest_exists(distance(a, b), 1);
    lemma_zero_rounds_to_zero(1);
}

/// A difference of finite numbers has the sign of the exact difference.
pub proof fn law_difference_sign(a: Single, b: Single)
    requires
        a.finite(),
        b.finite(),
    ensures
        a.difference(b).key() <= 0 <==> a.key() <= b.key(),
        a.difference(b).key() < 0 <==> a.key() < b.key(),
{
    reveal(Single::sum);
    assert(b.negation().index() == b.index());
    assert(b.negation().scaled() == -b.scaled());
    rounding::lemma_nearest_exists(distance(a, b), 1);
    assert(rounding::doubled_midpoint(0) == 1);
    if a.key() < b.key() {
        lemma_key_strict(a, b);
    } else if b.key() < a.key() {
        lemma_key_strict(b, a);
    } else {
        lemma_key_order(a, b);
        lemma_key_order(b, a);
    }
}

proof fn lemma_key_strict(a: Single, b: Single)
    requires
        a.finite(),
        b.finite(),
        a.key() < b.key(),
    ensures
        a.scaled() < b.scaled(),
{
    if a.index() < b.index() {
        rounding::lemma_magnitude_increases(a.index(), b.index());
    } else if b.index() < a.index() {
        rounding::lemma_magnitude_increases(b.index(), a.index());
    }
    if a.index() > 0 {
        rounding::lemma_magnitude_increases(0, a.index());
    }
    if b.index() > 0 {
        rounding::lemma_magnitude_increases(0, b.index());
    }
}

/// A finite number less itself is zero.
pub proof fn law_difference_with_itself(a: Single)
    requires
        a.finite(),
    ensures
        a.difference(a).zero(),
{
    lemma_difference_index(a, a);
    lemma_zero_rounds_to_zero(1);
}

/// Swapping the operands of a subtraction keeps the magnitude of the result.
pub proof fn lemma_difference_symmetric(a: Single, b: Single)
    requires
        a.finite(),
        b.finite(),
    ensures
        a.difference(b).index() == b.difference(a).index(),
{
    lemma_difference_index(a, b);
    lemma_difference_index(b, a);
}

/// A square is never negative, and squaring keeps the order of magnitudes.
pub proof fn law_square_grows_with_magnitude(a: Single, b: Single)
    requires
        !b.nan(),
        a.index() <= b.index(),
    ensures
        !a.product(a).negative(),
        a.product(a).index() <= b.product(b).index() <= rounding::INFINITY_INDEX,
{
    if b.finite() {
        lemma_product_parts(a, a);
        lemma_product_parts(b, b);
        lemma_pow2_pos(149);
        lemma_magnitude_order(a.index(), b.index());
        let x = rounding::magnitude(a.index());
        let y = rounding::magnitude(b.index());
        lemma_rounded_product_order(x, y, x, pow2(149) as int);
        lemma_rounded_product_order(x, y, y, pow2(149) as int);
        assert(x * y == y * x) by (nonlinear_arith);
    } else {
        reveal(Single::product);
        if a.finite() {
            lemma_product_parts(a, a);
        }
    }
}

/// Adding two numbers that are not negative gives one that is no smaller than
/// either.
pub proof fn law_sum_no_smaller_than_parts(a: Single, b: Single)
    requires
        !a.nan(),
        !b.nan(),
        !a.negative(),
        !b.negative(),
    ensures
        !a.sum(b).negative(),
        a.index() <= a.sum(b).index() <= rounding::INFINITY_INDEX,
        b.index() <= a.sum(b).index(),
{
    reveal(Single::sum);
    if a.finite() && b.finite() {
        let x = rounding::magnitude(a.index());
        let y = rounding::magnitude(b.index());
        if a.index() > 0 {
            rounding::lemma_magnitude_increases(0, a.index());
        }
        if b.index() > 0 {
            rounding::lemma_magnitude_increases(0, b.index());
        }
        rounding::lemma_nearest_exists(x + y, 1);
        rounding::lemma_nearest_exists(x, 1);
        rounding::lemma_nearest_exists(y, 1);
        rounding::lemma_nearest_exact(a.index());
        rounding::lemma_nearest_exact(b.index());
        let k = rounding::nearest_index(x + y, 1);
        rounding::lemma_nearest_monotone(x, 1, rounding::nearest_index(x, 1), x + y, 1, k);
        rounding::lemma_nearest_monotone(y, 1, rounding::nearest_index(y, 1), x + y, 1, k);
    }
}

pub(crate) proof fn lemma_one_is_unit()
    ensures
        rounding::magnitude(ONE_BITS as int) == pow2(149),
{
    lemma2_to64();
    lemma_pow2_adds(23, 126);
}

/// A quotient rounds as it does with both sides multiplied alike.
proof fn lemma_nearest_multiple(num: int, den: int, k: int)
    requires
        den > 0,
        rounding::is_nearest(num, 1, k),
    ensures
        rounding::nearest_index(num * den, den) == k,
{
    let below = rounding::doubled_midpoint(k - 1);
    let above = rounding::doubled_midpoint(k);
    assert(2 * (num * den) == (2 * num) * den) by (nonlinear_arith);
    assert(below * 1 <= 2 * num ==> below * den <= (2 * num) * den) by (nonlinear_arith)
        requires
            den > 0,
    ;
    assert(below * 1 < 2 * num ==> below * den < (2 * num) * den) by (nonlinear_arith)
        requires
            den > 0,
    ;
    assert(2 * num <= above * 1 ==> (2 * num) * den <= above * den) by (nonlinear_arith)
        requires
            den > 0,
    ;
    assert(2 * num < above * 1 ==> (2 * num) * den < above * den) by (nonlinear_arith)
        requires
            den > 0,
    ;
    rounding::lemma_nearest_unique(num * den, den, k);
}

/// Multiplying by 1 keeps a number as it is, bit for bit.
pub proof fn law_product_with_one(a: Single)
    requires
        !a.nan(),
    ensures
        a.product(Single::one()) == a,
{
    reveal(Single::product);
    let k = a.index();
    if a.finite() {
        lemma_one_is_unit();
        lemma_pow2_pos(149);
        rounding::lemma_nearest_exact(k);
        if k > 0 {
            rounding::lemma_magnitude_increases(0, k);
        }
        rounding::lemma_nearest_exists(rounding::magnitude(k), 1);
        lemma_nearest_multiple(rounding::magnitude(k), pow2(149) as int, k);
    }
}

/// Zero times a finite number is zero.
pub proof fn law_product_with_zero(zero: Single, a: Single)
    requires
        zero.zero(),
        a.finite(),
    ensures
        zero.product(a).zero(),
{
    reveal(Single::product);
    lemma_pow2_pos(149);
    lemma_zero_rounds_to_zero(pow2(149) as int);
    let x = rounding::magnitude(zero.index());
    let y = rounding::magnitude(a.index());
    assert(x * y == 0) by (nonlinear_arith)
        requires
            x == 0,
    ;
}

/// The order of the factors does not matter.
pub proof fn law_product_commutes(a: Single, b: Single)
    ensures
        a.product(b) == b.product(a),
{
    reveal(Single::product);
    let x = rounding::magnitude(a.index());
    let y = rounding::magnitude(b.index());
    assert(x * y == y * x) by (nonlinear_arith);
}

/// Dividing by 1 keeps a number as it is, bit for bit.
pub proof fn law_quotient_by_one(a: Single)
    requires
        !a.nan(),
    ensures
        a.quotient(Single::one()) == a,
{
    reveal(Single::quotient);
    let k = a.index();
    if a.finite() {
        lemma_one_is_unit();
        lemma_pow2_pos(149);
        rounding::lemma_nearest_exact(k);
        if k > 0 {
            rounding::lemma_magnitude_increases(0, k);
        }
        rounding::lemma_nearest_exists(rounding::magnitude(k), 1);
        lemma_nearest_multiple(rounding::magnitude(k), pow2(149) as int, k);
    }
}

/// Magnitudes are not negative, and ordered as their indices are.
proof fn lemma_magnitude_order(j: int, k: int)
    requires
        0 <= j <= k,
    ensures
        0 <= rounding::magnitude(j) <= rounding::magnitude(k),
{
    if j < k {
        rounding::lemma_magnitude_increases(j, k);
    }
    if j > 0 {
        rounding::lemma_magnitude_increases(0, j);
    }
}

/// The sign and the index of a product of finite numbers.
proof fn lemma_product_parts(a: Single, c: Single)
    requires
        a.finite(),
        c.finite(),
    ensures
        a.product(c).index() == rounding::nearest_index(
            rounding::magnitude(a.index()) * rounding::magnitude(c.index()),
            pow2(149) as int,
        ),
        a.product(c).index() <= rounding::INFINITY_INDEX,
        a.product(c).negative() == (a.negative() != c.negative()),
{
    reveal(Single::product);
    lemma_pow2_pos(149);
    lemma_magnitude_order(0, a.index());
    lemma_magnitude_order(0, c.index());
    let x = rounding::magnitude(a.index());
    let z = rounding::magnitude(c.index());
    assert(0 <= x * z) by (nonlinear_arith)
        requires
            0 <= x,
            0 <= z,
    ;
    rounding::lemma_nearest_exists(x * z, pow2(149) as int);
}

/// Rounding a product keeps the order of its first factor.
proof fn lemma_rounded_product_order(x: int, y: int, z: int, den: int)
    requires
        0 <= x <= y,
        0 <= z,
        den > 0,
    ensures
        rounding::nearest_index(x * z, den) <= rounding::nearest_index(y * z, den),
{
    assert(0 <= x * z <= y * z) by (nonlinear_arith)
        requires
            0 <= x <= y,
            0 <= z,
    ;
    let p = x * z;
    let q = y * z;
    rounding::lemma_nearest_exists(p, den);
    rounding::lemma_nearest_exists(q, den);
    assert(p * den <= q * den) by (nonlinear_arith)
        requires
            p <= q,
            den > 0,
    ;
    rounding::lemma_nearest_monotone(
        p,
        den,
        rounding::nearest_index(p, den),
        q,
        den,
        rounding::nearest_index(q, den),
    );
}

/// Multiplication by a number that is not negative keeps the order of magnitudes.
pub proof fn law_product_grows(a: Single, b: Single, c: Single)
    requires
        b.finite(),
        c.finite(),
        a.index() <= b.index(),
    ensures
        a.product(c).index() <= b.product(c).index() <= rounding::INFINITY_INDEX,
        a.product(c).negative() == (a.negative() != c.negative()),
{
    lemma_product_parts(a, c);
    lemma_product_parts(b, c);
    lemma_pow2_pos(149);
    lemma_magnitude_order(a.index(), b.index());
    lemma_magnitude_order(0, c.index());
    lemma_rounded_product_order(
        rounding::magnitude(a.index()),
        rounding::magnitude(b.index()),
        rounding::magnitude(c.index()),
        pow2(149) as int,
    );
}

/// The key of the number nearest to a multiple of 2^-149.
spec fn rounded_key(total: int) -> int {
    if total == 0 {
        0
    } else if total < 0 {
        -rounding::nearest_index(-total, 1)
    } else {
        rounding::nearest_index(total, 1)
    }
}

proof fn lemma_sum_key(a: Single, b: Single)
    requires
        a.finite(),
        b.finite(),
    ensures
        a.sum(b).key() == rounded_key(a.scaled() + b.scaled()),
        !a.sum(b).nan(),
{
    reveal(Single::sum);
    let total = a.scaled() + b.scaled();
    if total < 0 {
        rounding::lemma_nearest_exists(-total, 1);
    } else {
        rounding::lemma_nearest_exists(total, 1);
    }
}

proof fn lemma_rounded_key_monotone(low: int, high: int)
    requires
        low <= high,
    ensures
        rounded_key(low) <= rounded_key(high),
{
    if low > 0 {
        rounding::lemma_nearest_exists(low, 1);
        rounding::lemma_nearest_exists(high, 1);
        rounding::lemma_nearest_monotone(
            low,
            1,
            rounding::nearest_index(low, 1),
            high,
            1,
            rounding::nearest_index(high, 1),
        );
    } else if high < 0 {
        rounding::lemma_nearest_exists(-low, 1);
        rounding::lemma_nearest_exists(-high, 1);
        rounding::lemma_nearest_monotone(
            -high,
            1,
            rounding::nearest_index(-high, 1),
            -low,
            1,
            rounding::nearest_index(-low, 1),
        );
    } else {
        if low < 0 {
            rounding::lemma_nearest_exists(-low, 1);
        }
        if high > 0 {
            rounding::lemma_nearest_exists(high, 1);
        }
    }
}

/// Addition keeps order.
pub proof fn law_sum_grows(a: Single, b: Single, c: Single)
    requires
        a.finite(),
        b.finite(),
        c.finite(),
        b.key() <= c.key(),
    ensures
        a.sum(b).key() <= a.sum(c).key(),
        !a.sum(b).nan(),
        !a.sum(c).nan(),
{
    lemma_key_order(b, c);
    lemma_sum_key(a, b);
    lemma_sum_key(a, c);
    lemma_rounded_key_monotone(a.scaled() + b.scaled(), a.scaled() + c.scaled());
}

/// Adding zero keeps a number's value.
pub proof fn law_sum_with_zero(a: Single, zero: Single)
    requires
        a.finite(),
        zero.zero(),
    ensures
        a.sum(zero).key() == a.key(),
        zero.sum(a).key() == a.key(),
{
    reveal(Single::sum);
    rounding::lemma_nearest_exact(a.index());
    if a.index() > 0 {
        rounding::lemma_magnitude_increases(0, a.index());
    }
}

/// A square root is never below zero.
pub proof fn law_square_root_is_not_negative(a: Single)
    ensures
        !a.square_root().less(Single::positive_zero()),
{
    reveal(Single::square_root);
    if a.index() > 0 {
        rounding::lemma_magnitude_increases(0, a.index());
    }
    let m = rounding::magnitude(a.index());
    assert(m * pow2(149) >= 0) by (nonlinear_arith)
        requires
            m >= 0,
    ;
    rounding::lemma_nearest_root_exists(m * pow2(149));
}

/// A product of finite numbers is a number, or infinite.
pub proof fn law_product_is_a_number(a: Single, b: Single)
    requires
        a.finite(),
        b.finite(),
    ensures
        !a.product(b).nan(),
{
    reveal(Single::product);
    lemma_pow2_pos(149);
    let x = rounding::magnitude(a.index());
    let y = rounding::magnitude(b.index());
    lemma_magnitude_not_negative(a.index());
    lemma_magnitude_not_negative(b.index());
    assert(x * y >= 0) by (nonlinear_arith)
        requires
            x >= 0,
            y >= 0,
    ;
    rounding::lemma_nearest_exists(x * y, pow2(149) as int);
}

/// A product with one factor negated is the negated product, bit for bit.
pub proof fn law_product_of_negation(a: Single, b: Single)
    ensures
        a.product(b).nan() <==> a.negation().product(b).nan(),
        !a.product(b).nan() ==> a.negation().product(b) == a.product(b).negation(),
{
    reveal(Single::product);
    assert(a.negation().index() == a.index());
    assert(a.negation().negative() == !a.negative());
    lemma_pow2_pos(149);
    let num = rounding::magnitude(a.index()) * rounding::magnitude(b.index());
    if a.finite() && b.finite() {
        lemma_magnitude_not_negative(a.index());
        lemma_magnitude_not_negative(b.index());
        assert(num >= 0) by (nonlinear_arith)
            requires
                num == rounding::magnitude(a.index()) * rounding::magnitude(b.index()),
                rounding::magnitude(a.index()) >= 0,
                rounding::magnitude(b.index()) >= 0,
        ;
        rounding::lemma_nearest_exists(num, pow2(149) as int);
    }
}

/// A quotient with the dividend negated is the negated quotient, bit for bit.
pub proof fn law_quotient_of_negation(a: Single, b: Single)
    ensures
        a.quotient(b).nan() <==> a.negation().quotient(b).nan(),
        !a.quotient(b).nan() ==> a.negation().quotient(b) == a.quotient(b).negation(),
{
    reveal(Single::quotient);
    assert(a.negation().index() == a.index());
    assert(a.negation().negative() == !a.negative());
    lemma_pow2_pos(149);
    let num = rounding::magnitude(a.index()) * pow2(149);
    if a.finite() && b.finite() && !b.zero() {
        lemma_magnitude_not_negative(a.index());
        rounding::lemma_magnitude_increases(0, b.index());
        assert(num >= 0) by (nonlinear_arith)
            requires
                num == rounding::magnitude(a.index()) * pow2(149),
                rounding::magnitude(a.index()) >= 0,
        ;
        rounding::lemma_nearest_exists(num, rounding::magnitude(b.index()));
    }
}

proof fn lemma_magnitude_not_negative(k: int)
    requires
        0 <= k,
    ensures
        rounding::magnitude(k) >= 0,
{
    if k > 0 {
        rounding::lemma_magnitude_increases(0, k);
    }
}

/// What is not a number stays so in everything that is computed from it.
pub proof fn law_not_a_number_spreads(a: Single, b: Single)
    requires
        a.nan() || b.nan(),
    ensures
        a.sum(b).nan(),
        a.difference(b).nan(),
        a.product(b).nan(),
        a.quotient(b).nan(),
        !a.less(b),
        !a.less_or_same(b),
{
    reveal(Single::sum);
    reveal(Single::product);
    reveal(Single::quotient);
    assert(b.negation().index() == b.index());
}

/// An infinite number stays infinite, with its sign, whatever finite number is added, and
/// whatever number above or below zero it is multiplied with.
pub proof fn law_infinity_stays(a: Single, b: Single)
    requires
        a.infinite(),
        b.finite(),
    ensures
        a.sum(b) == a,
        b.sum(a) == a,
        a.difference(b) == a,
        !b.zero() ==> a.product(b).infinite() && a.product(b).negative() == (a.negative()
            != b.negative()),
        b.zero() ==> a.product(b).nan(),
        b.quotient(a).zero(),
{
    reveal(Single::sum);
    reveal(Single::product);
    reveal(Single::quotient);
    assert(b.negation().index() == b.index());
}

/// The order of the terms does not matter.
pub proof fn law_sum_commutes(a: Single, b: Single)
    ensures
        a.sum(b) == b.sum(a),
{
    reveal(Single::sum);
}

} // verus!
