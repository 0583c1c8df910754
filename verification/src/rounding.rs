use vstd::arithmetic::mul::*;
use vstd::arithmetic::power2::*;
use vstd::prelude::*;

verus! {

/// The magnitude index of infinity: the first one past every finite magnitude.
pub const INFINITY_INDEX: u32 = 0x7f80_0000;

/// The value of the magnitude whose bit pattern (sign bit cleared) is `k`, as a
/// multiple of the smallest positive single-precision number, 2^-149.
///
/// Infinity's index has the value that the format would give it if the exponent
/// range went on by one step, 2^277: this is what makes rounding to infinity
/// the ordinary rounding rule.
pub open spec fn magnitude(k: int) -> int {
    if k < 0x80_0000 {
        k
    } else {
        (k % 0x80_0000 + 0x80_0000) * pow2((k / 0x80_0000 - 1) as nat)
    }
}

/// Twice the midpoint between the magnitudes with indices `k` and `k + 1`.
pub open spec fn doubled_midpoint(k: int) -> int {
    magnitude(k) + magnitude(k + 1)
}

/// `k` is the index of the magnitude nearest to `num / den`, with ties going to
/// the even index and everything from the last midpoint on going to infinity.
pub open spec fn is_nearest(num: int, den: int, k: int) -> bool {
    &&& 0 <= k <= INFINITY_INDEX
    &&& k > 0 ==> doubled_midpoint(k - 1) * den <= 2 * num
    &&& k > 0 && k % 2 == 1 ==> doubled_midpoint(k - 1) * den < 2 * num
    &&& k < INFINITY_INDEX ==> 2 * num <= doubled_midpoint(k) * den
    &&& k < INFINITY_INDEX && k % 2 == 1 ==> 2 * num < doubled_midpoint(k) * den
}

/// The index of the magnitude nearest to `num / den`.
pub open spec fn nearest_index(num: int, den: int) -> int {
    choose|k: int| is_nearest(num, den, k)
}

/// `k` is the index of the magnitude nearest to the square root of `n`.
pub open spec fn is_nearest_root(n: int, k: int) -> bool {
    &&& 0 <= k <= INFINITY_INDEX
    &&& k > 0 ==> doubled_midpoint(k - 1) * doubled_midpoint(k - 1) <= 4 * n
    &&& k > 0 && k % 2 == 1 ==> doubled_midpoint(k - 1) * doubled_midpoint(k - 1) < 4 * n
    &&& k < INFINITY_INDEX ==> 4 * n <= doubled_midpoint(k) * doubled_midpoint(k)
    &&& k < INFINITY_INDEX && k % 2 == 1 ==> 4 * n < doubled_midpoint(k) * doubled_midpoint(k)
}

/// The index of the magnitude nearest to the square root of `n`.
pub open spec fn nearest_root_index(n: int) -> int {
    choose|k: int| is_nearest_root(n, k)
}

/// A magnitude with `q` in the significand and scale `2^t` has index `t * 2^23 + q`.
pub proof fn lemma_magnitude_at(t: int, q: int)
    requires
        0 <= t,
        0x80_0000 <= q <= 0x100_0000 || (t == 0 && 0 <= q <= 0x100_0000),
    ensures
        magnitude(t * 0x80_0000 + q) == q * pow2(t as nat),
{
    lemma2_to64();
    let k = t * 0x80_0000 + q;
    if q < 0x80_0000 {
        assert(q * pow2(0) == q) by {
            lemma_mul_basics(q);
        }
    } else if q < 0x100_0000 {
        assert(k / 0x80_0000 == t + 1);
        assert(k % 0x80_0000 == q - 0x80_0000);
    } else {
        assert(k / 0x80_0000 == t + 2);
        assert(k % 0x80_0000 == 0);
        lemma_pow2_unfold((t + 1) as nat);
        assert(0x80_0000 * (2 * pow2(t as nat)) == 0x100_0000 * pow2(t as nat));
    }
}

/// The scale and significand of the magnitude with index `k`.
pub open spec fn scale_of(k: int) -> int {
    if k < 0x80_0000 {
        0
    } else {
        k / 0x80_0000 - 1
    }
}

pub open spec fn significand_of(k: int) -> int {
    k - scale_of(k) * 0x80_0000
}

pub proof fn lemma_magnitude_parts(k: int)
    requires
        0 <= k,
    ensures
        scale_of(k) >= 0,
        0 <= significand_of(k) < 0x100_0000,
        scale_of(k) > 0 ==> significand_of(k) >= 0x80_0000,
        magnitude(k) == significand_of(k) * pow2(scale_of(k) as nat),
        magnitude(k + 1) == (significand_of(k) + 1) * pow2(scale_of(k) as nat),
{
    lemma_magnitude_at(scale_of(k), significand_of(k));
    lemma_magnitude_at(scale_of(k), significand_of(k) + 1);
}

/// Magnitudes grow strictly with their index.
pub proof fn lemma_magnitude_increases(j: int, k: int)
    requires
        0 <= j < k,
    ensures
        0 <= magnitude(j) < magnitude(k),
    decreases k,
{
    lemma_magnitude_parts(k - 1);
    lemma_pow2_pos(scale_of(k - 1) as nat);
    let p = pow2(scale_of(k - 1) as nat);
    let q = significand_of(k - 1);
    assert((q + 1) * p == q * p + p) by (nonlinear_arith);
    assert(0 <= q * p) by (nonlinear_arith)
        requires
            0 <= q,
            0 < p,
    ;
    if j < k - 1 {
        lemma_magnitude_increases(j, k - 1);
    }
}

pub proof fn lemma_midpoint_increases(j: int, k: int)
    requires
        0 <= j < k,
    ensures
        doubled_midpoint(j) < doubled_midpoint(k),
{
    lemma_magnitude_increases(j, k);
    lemma_magnitude_increases(j + 1, k + 1);
}

/// Rounding keeps order: a larger quotient never rounds to a smaller magnitude.
pub proof fn lemma_nearest_monotone(n1: int, d1: int, k1: int, n2: int, d2: int, k2: int)
    requires
        d1 > 0,
        d2 > 0,
        is_nearest(n1, d1, k1),
        is_nearest(n2, d2, k2),
        n1 * d2 <= n2 * d1,
    ensures
        k1 <= k2,
{
    if k2 < k1 {
        let lo = doubled_midpoint(k2);
        let hi = doubled_midpoint(k1 - 1);
        if k2 < k1 - 1 {
            lemma_midpoint_increases(k2, k1 - 1);
        }
        assert(2 * (n2 * d1) <= lo * d2 * d1) by (nonlinear_arith)
            requires
                2 * n2 <= lo * d2,
                d1 > 0,
        ;
        assert(hi * d1 * d2 <= 2 * (n1 * d2)) by (nonlinear_arith)
            requires
                hi * d1 <= 2 * n1,
                d2 > 0,
        ;
        assert(lo * d2 * d1 == lo * (d1 * d2)) by (nonlinear_arith);
        assert(hi * d1 * d2 == hi * (d1 * d2)) by (nonlinear_arith);
        assert(d1 * d2 > 0) by (nonlinear_arith)
            requires
                d1 > 0,
                d2 > 0,
        ;
        if lo < hi {
            assert(lo * (d1 * d2) < hi * (d1 * d2)) by (nonlinear_arith)
                requires
                    lo < hi,
                    d1 * d2 > 0,
            ;
        } else if k2 % 2 == 1 {
            assert(2 * (n2 * d1) < lo * d2 * d1) by (nonlinear_arith)
                requires
                    2 * n2 < lo * d2,
                    d1 > 0,
            ;
        } else {
            assert(hi * d1 * d2 < 2 * (n1 * d2)) by (nonlinear_arith)
                requires
                    hi * d1 < 2 * n1,
                    d2 > 0,
            ;
        }
    }
}

/// There is one nearest magnitude at most, so an index that is nearest is the
/// one that [`nearest_index`] speaks of.
pub proof fn lemma_nearest_unique(num: int, den: int, k: int)
    requires
        den > 0,
        is_nearest(num, den, k),
    ensures
        nearest_index(num, den) == k,
{
    let chosen = nearest_index(num, den);
    assert(is_nearest(num, den, chosen));
    lemma_nearest_monotone(num, den, k, num, den, chosen);
    lemma_nearest_monotone(num, den, chosen, num, den, k);
}

/// Every nonnegative quotient has a nearest magnitude.
pub proof fn lemma_nearest_exists(num: int, den: int)
    requires
        num >= 0,
        den > 0,
    ensures
        is_nearest(num, den, nearest_index(num, den)),
{
    lemma_nearest_exists_below(num, den, INFINITY_INDEX as int);
}

proof fn lemma_nearest_exists_below(num: int, den: int, k: int)
    requires
        num >= 0,
        den > 0,
        0 <= k <= INFINITY_INDEX,
        k < INFINITY_INDEX ==> 2 * num <= doubled_midpoint(k) * den,
        k < INFINITY_INDEX && k % 2 == 1 ==> 2 * num < doubled_midpoint(k) * den,
    ensures
        is_nearest(num, den, nearest_index(num, den)),
    decreases k,
{
    if is_nearest(num, den, k) {
    } else {
        assert(k > 0);
        lemma_nearest_exists_below(num, den, k - 1);
    }
}

/// A magnitude rounds to itself.
pub proof fn lemma_nearest_exact(k: int)
    requires
        0 <= k <= INFINITY_INDEX,
    ensures
        nearest_index(magnitude(k), 1) == k,
{
    lemma_magnitude_increases(k, k + 1);
    if k > 0 {
        lemma_magnitude_increases(k - 1, k);
    }
    lemma_nearest_unique(magnitude(k), 1, k);
}

/// The exponent that makes every scale in an intermediate result a power of two
/// with a natural exponent.
pub const SCALE_BIAS: u32 = 512;

/// `num / den` lies in `[sig, sig + 1) * 2^e`, and is `sig * 2^e` exactly when
/// `inexact` is false.
pub open spec fn approximates(num: int, den: int, sig: int, e: int, inexact: bool) -> bool {
    let unit = pow2((e + SCALE_BIAS) as nat) * den;
    let scaled = num * pow2(SCALE_BIAS as nat);
    &&& sig * unit <= scaled < (sig + 1) * unit
    &&& inexact <==> scaled != sig * unit
}

/// `k` meets the rounding rule in a format without a largest magnitude.
spec fn is_nearest_unbounded(num: int, den: int, k: int) -> bool {
    &&& 0 <= k
    &&& k > 0 ==> doubled_midpoint(k - 1) * den <= 2 * num
    &&& k > 0 && k % 2 == 1 ==> doubled_midpoint(k - 1) * den < 2 * num
    &&& 2 * num <= doubled_midpoint(k) * den
    &&& k % 2 == 1 ==> 2 * num < doubled_midpoint(k) * den
}

proof fn lemma_clamp_to_infinity(num: int, den: int, k: int)
    requires
        den > 0,
        is_nearest_unbounded(num, den, k),
    ensures
        is_nearest(num, den, if k < INFINITY_INDEX { k } else { INFINITY_INDEX as int }),
{
    if k > INFINITY_INDEX {
        let top = doubled_midpoint(INFINITY_INDEX - 1);
        let low = doubled_midpoint(k - 1);
        lemma_midpoint_increases(INFINITY_INDEX - 1, k - 1);
        assert(top * den <= low * den) by (nonlinear_arith)
            requires
                top < low,
                den > 0,
        ;
    }
}

/// Comparing `2 * num / den` with `a * t` is comparing their multiples by `b`.
proof fn lemma_compare_scaled(a: int, num: int, den: int, t: int, b: int, w: int, p: int)
    requires
        b > 0,
        t * b == w * p,
    ensures
        2 * num <= a * t * den <==> 2 * (num * b) <= a * w * (p * den),
        2 * num < a * t * den <==> 2 * (num * b) < a * w * (p * den),
{
    assert(a * t * den * b == (a * den) * (t * b)) by (nonlinear_arith);
    assert((a * den) * (w * p) == a * w * (p * den)) by (nonlinear_arith);
    let x = a * t * den;
    assert(2 * num <= x <==> 2 * (num * b) <= x * b) by (nonlinear_arith)
        requires
            b > 0,
    ;
    assert(2 * num < x <==> 2 * (num * b) < x * b) by (nonlinear_arith)
        requires
            b > 0,
    ;
}

/// Rounding `sig * 2^e`, split as `sig == q * 2^s + rem`, to a multiple of
/// `2^(e + s)`.
proof fn lemma_round_split(
    num: int,
    den: int,
    sig: int,
    e: int,
    inexact: bool,
    q: int,
    s: int,
    up: bool,
)
    requires
        den > 0,
        approximates(num, den, sig, e, inexact),
        s >= 1,
        e + s >= 0,
        e + SCALE_BIAS >= 0,
        0 <= q < 0x100_0000,
        q >= 0x80_0000 || e + s == 0,
        q * pow2(s as nat) <= sig < (q + 1) * pow2(s as nat),
        up <==> {
            let rest = sig - q * pow2(s as nat);
            ||| 2 * rest > pow2(s as nat)
            ||| 2 * rest == pow2(s as nat) && (inexact || q % 2 == 1)
        },
    ensures
        is_nearest_unbounded(num, den, (e + s) * 0x80_0000 + q + if up { 1int } else { 0 }),
{
    let t = e + s;
    let k = t * 0x80_0000 + q;
    let tt = pow2(t as nat) as int;
    let b = pow2(SCALE_BIAS as nat) as int;
    let w = pow2(s as nat) as int;
    let p = pow2((e + SCALE_BIAS) as nat) as int;
    let d = p * den;
    let n = num * b;
    lemma_pow2_pos(SCALE_BIAS as nat);
    lemma_pow2_pos(t as nat);
    lemma_pow2_pos(s as nat);
    lemma_pow2_pos((e + SCALE_BIAS) as nat);
    lemma_pow2_adds(t as nat, SCALE_BIAS as nat);
    lemma_pow2_adds(s as nat, (e + SCALE_BIAS) as nat);
    assert(t * 1 + SCALE_BIAS == s + (e + SCALE_BIAS));
    assert(tt * b == w * p);
    assert(d > 0) by (nonlinear_arith)
        requires
            p > 0,
            den > 0,
            d == p * den,
    ;
    lemma_pow2_unfold(s as nat);
    lemma_magnitude_at(t, q);
    lemma_magnitude_at(t, q + 1);
    assert((q + 1) * tt == q * tt + tt) by (nonlinear_arith);
    assert(2 * (q * tt) + tt == (2 * q + 1) * tt) by (nonlinear_arith);
    assert(doubled_midpoint(k) == (2 * q + 1) * tt);
    lemma_compare_scaled(2 * q + 1, num, den, tt, b, w, p);
    lemma_compare_scaled(2 * q, num, den, tt, b, w, p);
    lemma_compare_scaled(2 * (q + 1), num, den, tt, b, w, p);
    assert((2 * q + 1) * w == 2 * (q * w) + w) by (nonlinear_arith);
    assert((2 * q) * w == 2 * (q * w)) by (nonlinear_arith);
    assert((2 * (q + 1)) * w == 2 * (q * w) + 2 * w) by (nonlinear_arith);
    assert((q + 1) * w == q * w + w) by (nonlinear_arith);
    let mid = (2 * q + 1) * w;
    if up {
        assert(k % 2 == q % 2) by {
            assert((t * 0x80_0000 + q) % 2 == q % 2);
        }
        // At or above the midpoint, and below the next magnitude.
        assert(mid <= 2 * sig);
        assert(mid * d <= 2 * n) by (nonlinear_arith)
            requires
                mid <= 2 * sig,
                sig * d <= n,
                d > 0,
        ;
        if q % 2 == 0 {
            if mid < 2 * sig {
                assert(mid * d < 2 * n) by (nonlinear_arith)
                    requires
                        mid < 2 * sig,
                        sig * d <= n,
                        d > 0,
                ;
            } else {
                assert(mid * d < 2 * n) by (nonlinear_arith)
                    requires
                        mid <= 2 * sig,
                        sig * d < n,
                        d > 0,
                ;
            }
        }
        let next = (2 * (q + 1)) * w;
        assert(2 * n < next * d) by (nonlinear_arith)
            requires
                2 * (sig + 1) <= next,
                n < (sig + 1) * d,
                d > 0,
        ;
        lemma_magnitude_increases(k + 1, k + 2);
        let above = doubled_midpoint(k + 1);
        assert((2 * (q + 1)) * tt < above) by {
            assert((2 * (q + 1)) * tt == 2 * ((q + 1) * tt)) by (nonlinear_arith);
        }
        let x = (2 * (q + 1)) * tt;
        assert(x * den < above * den) by (nonlinear_arith)
            requires
                x < above,
                den > 0,
        ;
    } else {
        assert(k % 2 == q % 2) by {
            assert((t * 0x80_0000 + q) % 2 == q % 2);
        }
        // At or below the midpoint, and no smaller than the magnitude itself.
        if 2 * (sig + 1) <= mid {
            assert(2 * n < mid * d) by (nonlinear_arith)
                requires
                    2 * (sig + 1) <= mid,
                    n < (sig + 1) * d,
                    d > 0,
            ;
        } else {
            assert(2 * sig == mid);
            assert(2 * n == mid * d) by (nonlinear_arith)
                requires
                    2 * sig == mid,
                    n == sig * d,
            ;
        }
        if k > 0 {
            let base = (2 * q) * w;
            assert(base * d <= 2 * n) by (nonlinear_arith)
                requires
                    base <= 2 * sig,
                    sig * d <= n,
                    d > 0,
            ;
            lemma_magnitude_increases(k - 1, k);
            let below = doubled_midpoint(k - 1);
            let x = (2 * q) * tt;
            assert(below < x) by {
                assert((2 * q) * tt == 2 * (q * tt)) by (nonlinear_arith);
            }
            assert(below * den < x * den) by (nonlinear_arith)
                requires
                    below < x,
                    den > 0,
            ;
        }
    }
}

/// Something below half the smallest magnitude rounds to zero.
proof fn lemma_round_tiny(num: int, den: int, sig: int, e: int, inexact: bool)
    requires
        den > 0,
        approximates(num, den, sig, e, inexact),
        0 <= sig < pow2(63),
        e + 63 < 0,
        e + SCALE_BIAS >= 0,
    ensures
        is_nearest_unbounded(num, den, 0),
{
    let b = pow2(SCALE_BIAS as nat) as int;
    let p = pow2((e + SCALE_BIAS) as nat) as int;
    lemma_pow2_pos((e + SCALE_BIAS) as nat);
    lemma_pow2_pos(SCALE_BIAS as nat);
    lemma_pow2_adds(63, (e + SCALE_BIAS) as nat);
    if e + SCALE_BIAS + 63 < SCALE_BIAS - 1 {
        lemma_pow2_strictly_increases((e + SCALE_BIAS + 63) as nat, (SCALE_BIAS - 1) as nat);
    }
    lemma_pow2_unfold(SCALE_BIAS as nat);
    assert(2 * (pow2(63) * p) <= b);
    assert(2 * (num * b) <= b * den) by (nonlinear_arith)
        requires
            num * b < (sig + 1) * (p * den),
            sig + 1 <= pow2(63),
            2 * (pow2(63) * p) <= b,
            p > 0,
            den > 0,
    ;
    assert(2 * num <= den) by (nonlinear_arith)
        requires
            2 * (num * b) <= b * den,
            b > 0,
    ;
    assert(doubled_midpoint(0) == 1);
}

/// The index of the magnitude nearest to a value known as `sig * 2^e`, exactly or
/// as the floor of it.
pub(crate) fn round_to_index(
    sig: u64,
    e: i32,
    inexact: bool,
    Ghost(num): Ghost<int>,
    Ghost(den): Ghost<int>,
) -> (k: u32)
    requires
        den > 0,
        0 < sig < 0x8000_0000_0000_0000,
        inexact ==> sig >= 0x400_0000,
        -400 <= e <= 450,
        approximates(num, den, sig as int, e as int, inexact),
    ensures
        is_nearest(num, den, k as int),
        k == nearest_index(num, den),
{
    let mut m: u64 = sig;
    let mut x: i32 = e;
    proof {
        lemma2_to64();
    }
    while m < 0x400_0000
        invariant
            den > 0,
            0 < m < 0x8000_0000_0000_0000,
            inexact ==> m >= 0x400_0000,
            -426 <= x <= 450,
            m < 0x400_0000 ==> m as int >= pow2((e - x) as nat),
            -400 <= e,
            x <= e,
            approximates(num, den, m as int, x as int, inexact),
        decreases 0x800_0000 - m,
    {
        proof {
            let p = pow2((x - 1 + SCALE_BIAS) as nat) as int;
            lemma_pow2_pos((x - 1 + SCALE_BIAS) as nat);
            lemma_pow2_unfold((x + SCALE_BIAS) as nat);
            lemma_pow2_unfold((e - x + 1) as nat);
            lemma2_to64();
            if e - x >= 26 {
                if e - x > 26 {
                    lemma_pow2_strictly_increases(26, (e - x) as nat);
                }
            }
            assert(m * ((2 * p) * den) == (2 * m) * (p * den)) by (nonlinear_arith);
            assert((2 * m) * (p * den) < (2 * m + 1) * (p * den)) by (nonlinear_arith)
                requires
                    p > 0,
                    den > 0,
            {
                assert(p * den > 0) by (nonlinear_arith)
                    requires
                        p > 0,
                        den > 0,
                ;
            }
        }
        m = 2 * m;
        x = x - 1;
    }
    let mut q: u64 = m / 8;
    let mut s: i32 = 3;
    let mut w: u64 = 8;
    proof {
        lemma2_to64();
    }
    while q >= 0x100_0000 || x + s < 0
        invariant
            den > 0,
            0x400_0000 <= m < 0x8000_0000_0000_0000,
            -426 <= x <= 450,
            3 <= s <= 63,
            w == pow2(s as nat),
            q * w <= m < (q + 1) * w,
            q >= 0x80_0000 || x + s <= 0,
            q <= m,
            approximates(num, den, m as int, x as int, inexact),
        decreases 64 - s,
    {
        if s == 63 {
            proof {
                lemma2_to64();
                lemma2_to64_rest();
                assert(q == 0) by (nonlinear_arith)
                    requires
                        q * w <= m,
                        m < 0x8000_0000_0000_0000,
                        w == 0x8000_0000_0000_0000,
                ;
                lemma_round_tiny(num, den, m as int, x as int, inexact);
                lemma_clamp_to_infinity(num, den, 0);
                lemma_nearest_unique(num, den, 0);
            }
            return 0;
        }
        proof {
            lemma_pow2_unfold((s + 1) as nat);
            lemma2_to64();
            lemma2_to64_rest();
            if s < 62 {
                lemma_pow2_strictly_increases(s as nat, 62);
            }
            let half = (q / 2) as int;
            let odd = (q % 2) as int;
            assert(half * (2 * w) <= m < (half + 1) * (2 * w)) by (nonlinear_arith)
                requires
                    q * w <= m < (q + 1) * w,
                    q == 2 * half + odd,
                    0 <= odd <= 1,
                    w > 0,
            ;
        }
        q = q / 2;
        s = s + 1;
        w = 2 * w;
    }
    proof {
        lemma2_to64();
        lemma2_to64_rest();
        assert(q * w <= m < (q + 1) * w);
        if s < 63 {
            lemma_pow2_strictly_increases(s as nat, 63);
        }
    }
    assert(0 <= q * w <= u64::MAX) by (nonlinear_arith)
        requires
            q * w <= m,
            q >= 0,
            w >= 0,
    ;
    let rest: u64 = m - q * w;
    assert(rest < w) by (nonlinear_arith)
        requires
            rest == m - q * w,
            m < (q + 1) * w,
    ;
    assert(w % 2 == 0) by {
        lemma_pow2_unfold(s as nat);
    }
    let up: bool = rest > w / 2 || (rest == w / 2 && (inexact || q % 2 == 1));
    let base: u64 = (x + s) as u64 * 0x80_0000 + q;
    let k: u64 = if up {
        base + 1
    } else {
        base
    };
    proof {
        lemma_round_split(num, den, m as int, x as int, inexact, q as int, s as int, up);
        lemma_clamp_to_infinity(num, den, k as int);
        lemma_nearest_unique(
            num,
            den,
            if k < INFINITY_INDEX {
                k as int
            } else {
                INFINITY_INDEX as int
            },
        );
    }
    if k < INFINITY_INDEX as u64 {
        k as u32
    } else {
        INFINITY_INDEX
    }
}

/// Rounding the root of `x * 2^(2e)`, whose floor is `root * 2^e` with
/// `root == 4 * q + rest`, to a multiple of `2^(e + 2)`.
pub(crate) proof fn lemma_round_root(n: int, x: int, e: int, root: int, q: int, up: bool)
    requires
        0 <= e <= 200,
        n == x * (pow2(e as nat) * pow2(e as nat)),
        root * root <= x < (root + 1) * (root + 1),
        0x80_0000 <= q < 0x100_0000,
        4 * q <= root < 4 * q + 4,
        up <==> {
            ||| root - 4 * q > 2
            ||| root - 4 * q == 2 && (root * root < x || q % 2 == 1)
        },
    ensures
        is_nearest_root(n, (e + 2) * 0x80_0000 + q + if up { 1int } else { 0 }),
{
    let t = e + 2;
    let k = t * 0x80_0000 + q;
    let p = pow2(e as nat) as int;
    let tt = pow2(t as nat) as int;
    lemma_pow2_pos(e as nat);
    lemma2_to64();
    lemma_pow2_adds(e as nat, 2);
    assert(tt == 4 * p);
    lemma_magnitude_at(t, q);
    lemma_magnitude_at(t, q + 1);
    assert((q + 1) * tt == q * tt + tt) by (nonlinear_arith);
    assert(2 * (q * tt) + tt == (2 * q + 1) * tt) by (nonlinear_arith);
    let mid = doubled_midpoint(k);
    assert(mid == (2 * q + 1) * (4 * p));
    let h = 4 * q + 2;
    assert(mid == 2 * h * p) by (nonlinear_arith)
        requires
            mid == (2 * q + 1) * (4 * p),
            h == 4 * q + 2,
    ;
    assert(mid * mid == 4 * ((h * h) * (p * p))) by (nonlinear_arith)
        requires
            mid == 2 * h * p,
    ;
    assert(p * p > 0) by (nonlinear_arith)
        requires
            p > 0,
    ;
    let pp = p * p;
    assert(k % 2 == q % 2) by {
        assert((t * 0x80_0000 + q) % 2 == q % 2);
    }
    if up {
        assert(h * h <= root * root) by (nonlinear_arith)
            requires
                0 <= h <= root,
        ;
        assert((h * h) * pp <= x * pp) by (nonlinear_arith)
            requires
                h * h <= x,
                pp > 0,
        ;
        if q % 2 == 0 {
            if root > h {
                assert(h * h < root * root) by (nonlinear_arith)
                    requires
                        0 <= h < root,
                ;
            }
            assert((h * h) * pp < x * pp) by (nonlinear_arith)
                requires
                    h * h < x,
                    pp > 0,
            ;
        }
        let g = 4 * q + 4;
        assert((root + 1) * (root + 1) <= g * g) by (nonlinear_arith)
            requires
                0 <= root + 1 <= g,
        ;
        assert(x * pp < (g * g) * pp) by (nonlinear_arith)
            requires
                x < g * g,
                pp > 0,
        ;
        lemma_magnitude_increases(k + 1, k + 2);
        let above = doubled_midpoint(k + 1);
        assert(2 * g * p == 2 * ((q + 1) * tt)) by (nonlinear_arith)
            requires
                tt == 4 * p,
                g == 4 * q + 4,
        ;
        let low = 2 * g * p;
        assert(low * low == 4 * ((g * g) * (p * p))) by (nonlinear_arith)
            requires
                low == 2 * g * p,
        ;
        assert(low * low < above * above) by (nonlinear_arith)
            requires
                0 <= low < above,
        ;
    } else {
        if root + 1 <= h {
            assert((root + 1) * (root + 1) <= h * h) by (nonlinear_arith)
                requires
                    0 <= root + 1 <= h,
            ;
            assert(x * pp < (h * h) * pp) by (nonlinear_arith)
                requires
                    x < h * h,
                    pp > 0,
            ;
        } else {
            assert(x == h * h);
        }
        let g = 4 * q;
        assert(g * g <= root * root) by (nonlinear_arith)
            requires
                0 <= g <= root,
        ;
        assert((g * g) * pp <= x * pp) by (nonlinear_arith)
            requires
                g * g <= x,
                pp > 0,
        ;
        lemma_magnitude_increases(k - 1, k);
        let below = doubled_midpoint(k - 1);
        assert(2 * g * p == 2 * (q * tt)) by (nonlinear_arith)
            requires
                tt == 4 * p,
                g == 4 * q,
        ;
        let high = 2 * g * p;
        assert(high * high == 4 * ((g * g) * (p * p))) by (nonlinear_arith)
            requires
                high == 2 * g * p,
        ;
        assert(0 <= below);
        assert(below * below < high * high) by (nonlinear_arith)
            requires
                0 <= below < high,
        ;
    }
    assert(202 * 0x80_0000 + 0x100_0000 < INFINITY_INDEX);
}

/// There is one nearest magnitude to a root at most.
pub proof fn lemma_nearest_root_unique(n: int, k: int)
    requires
        is_nearest_root(n, k),
    ensures
        nearest_root_index(n) == k,
{
    let chosen = nearest_root_index(n);
    assert(is_nearest_root(n, chosen));
    lemma_nearest_root_order(n, chosen, k);
    lemma_nearest_root_order(n, k, chosen);
}

proof fn lemma_nearest_root_order(n: int, j: int, k: int)
    requires
        is_nearest_root(n, j),
        is_nearest_root(n, k),
    ensures
        k <= j,
{
    if j < k {
        let lo = doubled_midpoint(j);
        let hi = doubled_midpoint(k - 1);
        lemma_magnitude_increases(j, j + 1);
        if j < k - 1 {
            lemma_midpoint_increases(j, k - 1);
            assert(lo * lo < hi * hi) by (nonlinear_arith)
                requires
                    0 <= lo < hi,
            ;
        }
    }
}

/// Every natural number has a magnitude nearest to its root.
pub proof fn lemma_nearest_root_exists(n: int)
    requires
        n >= 0,
    ensures
        is_nearest_root(n, nearest_root_index(n)),
{
    lemma_nearest_root_exists_below(n, INFINITY_INDEX as int);
}

proof fn lemma_nearest_root_exists_below(n: int, k: int)
    requires
        n >= 0,
        0 <= k <= INFINITY_INDEX,
        k < INFINITY_INDEX ==> 4 * n <= doubled_midpoint(k) * doubled_midpoint(k),
        k < INFINITY_INDEX && k % 2 == 1 ==> 4 * n < doubled_midpoint(k) * doubled_midpoint(k),
    ensures
        is_nearest_root(n, nearest_root_index(n)),
    decreases k,
{
    if is_nearest_root(n, k) {
    } else {
        lemma_nearest_root_exists_below(n, k - 1);
    }
}

} // verus!
