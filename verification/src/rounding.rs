//! Round-half-to-even arithmetic on binary significands.
//!
//! Sizes and shares are shown with a fixed number of decimals of a quotient taken in IEEE 754
//! double precision. This module does that arithmetic on integers: a positive double is a
//! significand of 53 bits and a power of two, and every operation rounds half to even.
use vstd::prelude::*;
use vstd::arithmetic::power2::*;
use vstd::arithmetic::mul::*;
use vstd::arithmetic::div_mod::*;

verus! {

/// Two to the power 52: the least significand of a double.
pub const SIG_MIN: u128 = 4503599627370496;

/// Two to the power 53: every significand of a double lies below it.
pub const SIG_LIMIT: u128 = 9007199254740992;

/// The quotient `n / d` rounded to an integer, halves going to the even neighbour.
pub open spec fn half_even(n: nat, d: nat) -> nat
    recommends
        d > 0,
{
    let q = n / d;
    let r = n % d;
    if 2 * r < d || (2 * r == d && q % 2 == 0) {
        q
    } else {
        q + 1
    }
}

/// `n / d * 2^k`, rounded half to even.
pub open spec fn scaled(n: nat, d: nat, k: int) -> nat
    recommends
        d > 0,
{
    if k >= 0 {
        half_even(n * pow2(k as nat), d)
    } else {
        half_even(n, d * pow2((-k) as nat))
    }
}

/// `n / d * 2^k` lies in the range of a 53-bit significand.
pub open spec fn fills(n: nat, d: nat, k: int) -> bool {
    if k >= 0 {
        SIG_MIN * d <= n * pow2(k as nat) < SIG_LIMIT * d
    } else {
        SIG_MIN * (d * pow2((-k) as nat)) <= n < SIG_LIMIT * (d * pow2((-k) as nat))
    }
}

/// The value `sig * 2^exp` of a non-negative double.
pub struct Double {
    pub sig: nat,
    pub exp: int,
}

/// The double nearest to `n / d`, ties to the even significand.
///
/// A significand that rounds up to 2^53 is left there: the value is the same.
pub open spec fn nearest(n: nat, d: nat) -> Double
    recommends
        d > 0,
{
    if n == 0 {
        Double { sig: 0, exp: 0 }
    } else {
        let k = choose|k: int| fills(n, d, k);
        Double { sig: scaled(n, d, k), exp: -k }
    }
}

/// Significand and exponent as machine integers.
#[derive(Clone, Copy)]
pub struct Parts {
    pub sig: u64,
    pub exp: i32,
}

impl View for Parts {
    type V = Double;

    open spec fn view(&self) -> Double {
        Double { sig: self.sig as nat, exp: self.exp as int }
    }
}

proof fn lemma_sig_consts()
    ensures
        pow2(52) == SIG_MIN,
        pow2(53) == SIG_LIMIT,
        pow2(0) == 1,
        pow2(1) == 2,
{
    lemma2_to64();
    lemma2_to64_rest();
}

/// At most one scaling brings a quotient into the range of a significand.
proof fn lemma_fills_unique(n: nat, d: nat, k1: int, k2: int)
    requires
        d > 0,
        fills(n, d, k1),
        fills(n, d, k2),
    ensures
        k1 == k2,
{
    if k1 < k2 {
        lemma_fills_not_both(n, d, k1, k2);
    } else if k2 < k1 {
        lemma_fills_not_both(n, d, k2, k1);
    }
}

proof fn lemma_fills_not_both(n: nat, d: nat, k1: int, k2: int)
    requires
        d > 0,
        k1 < k2,
        fills(n, d, k1),
    ensures
        !fills(n, d, k2),
{
    let g = (k2 - k1) as nat;
    lemma_pow2_pos((g - 1) as nat);
    lemma_pow2_unfold(g);
    let w = pow2(g) as int;
    assert(w >= 2);
    if k1 >= 0 {
        lemma_pow2_adds(k1 as nat, g);
        let x = (n * pow2(k1 as nat)) as int;
        let y = (n * pow2(k2 as nat)) as int;
        assert(y == x * w) by {
            lemma_mul_is_associative(n as int, pow2(k1 as nat) as int, w);
        }
        assert(y >= SIG_LIMIT * d) by (nonlinear_arith)
            requires
                y == x * w,
                x >= SIG_MIN * d,
                w >= 2,
        ;
    } else if k2 < 0 {
        lemma_pow2_adds((-k2) as nat, g);
        let x = (d * pow2((-k1) as nat)) as int;
        let y = (d * pow2((-k2) as nat)) as int;
        assert(x == y * w) by {
            lemma_mul_is_associative(d as int, pow2((-k2) as nat) as int, w);
        }
        assert(n >= SIG_LIMIT * y) by (nonlinear_arith)
            requires
                n >= SIG_MIN * x,
                x == y * w,
                y >= 0,
                w >= 2,
        ;
    } else {
        let p = pow2((-k1) as nat) as int;
        let r = pow2(k2 as nat) as int;
        lemma_pow2_pos(k2 as nat);
        lemma_pow2_unfold((-k1) as nat);
        lemma_pow2_pos((-k1 - 1) as nat);
        let x = (d * pow2((-k1) as nat)) as int;
        let y = (n * pow2(k2 as nat)) as int;
        assert(y >= SIG_LIMIT * d) by (nonlinear_arith)
            requires
                y == n * r,
                x == d * p,
                n >= SIG_MIN * x,
                r >= 1,
                p >= 2,
                d > 0,
        ;
    }
}

/// Some scaling, found from `k` on, brings a positive quotient into the range of a significand.
proof fn lemma_fills_from(n: nat, d: nat, k: nat) -> (r: int)
    requires
        n > 0,
        d > 0,
        k == 0 || n * pow2(k) < SIG_LIMIT * d,
    ensures
        fills(n, d, r),
    decreases SIG_LIMIT * d - n * pow2(k), n,
{
    lemma_sig_consts();
    lemma_pow2_unfold(k + 1);
    lemma_pow2_pos(k);
    assert(n * (2 * pow2(k)) == 2 * (n * pow2(k))) by (nonlinear_arith);
    assert(n * pow2(k) > 0) by (nonlinear_arith)
        requires
            n > 0,
            pow2(k) > 0,
    ;
    if n * pow2(k) < SIG_MIN * d {
        lemma_fills_from(n, d, k + 1)
    } else if n * pow2(k) < SIG_LIMIT * d {
        k as int
    } else {
        assert(n * 1 == n) by (nonlinear_arith);
        lemma_fills_below(n, d, 0)
    }
}

proof fn lemma_fills_below(n: nat, d: nat, m: nat) -> (r: int)
    requires
        d > 0,
        n >= SIG_LIMIT * (d * pow2(m)),
    ensures
        fills(n, d, r),
    decreases n - SIG_LIMIT * (d * pow2(m)),
{
    lemma_pow2_unfold(m + 1);
    lemma_pow2_pos(m);
    assert(d * (2 * pow2(m)) == 2 * (d * pow2(m))) by (nonlinear_arith);
    assert(d * pow2(m) > 0) by (nonlinear_arith)
        requires
            d > 0,
            pow2(m) > 0,
    ;
    if n < SIG_LIMIT * (d * pow2(m + 1)) {
        -(m + 1)
    } else {
        lemma_fills_below(n, d, m + 1)
    }
}

/// The scaling that brings a positive quotient into the range of a significand.
pub proof fn lemma_fills_exists(n: nat, d: nat) -> (k: int)
    requires
        n > 0,
        d > 0,
    ensures
        fills(n, d, k),
        nearest(n, d) == (Double { sig: scaled(n, d, k), exp: -k }),
        SIG_MIN <= nearest(n, d).sig <= SIG_LIMIT,
{
    let k = lemma_fills_from(n, d, 0);
    lemma_nearest_is(n, d, k);
    lemma_scaled_range(n, d, k);
    k
}

/// Rounding keeps the order of the dividends.
pub proof fn lemma_half_even_ordered(n1: nat, n2: nat, d: nat)
    requires
        d > 0,
        n1 <= n2,
    ensures
        half_even(n1, d) <= half_even(n2, d),
{
    let q1 = (n1 / d) as int;
    let q2 = (n2 / d) as int;
    lemma_fundamental_div_mod(n1 as int, d as int);
    lemma_fundamental_div_mod(n2 as int, d as int);
    lemma_mod_bound(n1 as int, d as int);
    lemma_mod_bound(n2 as int, d as int);
    lemma_div_is_ordered(n1 as int, n2 as int, d as int);
    if q1 == q2 {
        assert(n1 % d <= n2 % d);
    }
}

/// A quotient that comes out even is not changed by rounding.
pub proof fn lemma_half_even_exact(c: nat, d: nat)
    requires
        d > 0,
    ensures
        half_even(c * d, d) == c,
{
    lemma_div_multiples_vanish(c as int, d as int);
    lemma_mul_is_commutative(c as int, d as int);
    lemma_mod_multiples_basic(c as int, d as int);
}

/// A common factor of dividend and divisor does not matter.
pub proof fn lemma_half_even_cancels(n: nat, d: nat, m: nat)
    requires
        d > 0,
        m > 0,
    ensures
        half_even(n * m, d * m) == half_even(n, d),
{
    let q = (n / d) as int;
    let r = (n % d) as int;
    lemma_fundamental_div_mod(n as int, d as int);
    lemma_mod_bound(n as int, d as int);
    assert(n * m == q * (d * m) + r * m) by (nonlinear_arith)
        requires
            n == d * q + r,
    ;
    assert(0 <= r * m < d * m) by (nonlinear_arith)
        requires
            0 <= r < d,
            m > 0,
    ;
    lemma_fundamental_div_mod_converse((n * m) as int, (d * m) as int, q, r * m);
    assert((2 * r < d) == (2 * (r * m) < d * m)) by (nonlinear_arith)
        requires
            m > 0,
    ;
    assert((2 * r == d) == (2 * (r * m) == d * m)) by (nonlinear_arith)
        requires
            m > 0,
    ;
}

/// A scaling that fits is the one `nearest` uses.
pub proof fn lemma_nearest_is(n: nat, d: nat, k: int)
    requires
        n > 0,
        d > 0,
        fills(n, d, k),
    ensures
        nearest(n, d) == (Double { sig: scaled(n, d, k), exp: -k }),
{
    let c = choose|c: int| fills(n, d, c);
    lemma_fills_unique(n, d, k, c);
}

proof fn lemma_div_range(n: nat, d: nat, lo: nat, hi: nat)
    requires
        d > 0,
        lo * d <= n < hi * d,
    ensures
        lo <= n / d < hi,
        lo <= half_even(n, d) <= hi,
{
    lemma_fundamental_div_mod(n as int, d as int);
    lemma_mod_bound(n as int, d as int);
    let q = (n / d) as int;
    let r = (n % d) as int;
    assert(lo <= q < hi) by (nonlinear_arith)
        requires
            n == d * q + r,
            0 <= r < d,
            lo * d <= n < hi * d,
    ;
}

/// The rounded significand stays between 2^52 and 2^53.
proof fn lemma_scaled_range(n: nat, d: nat, k: int)
    requires
        d > 0,
        fills(n, d, k),
    ensures
        SIG_MIN <= scaled(n, d, k) <= SIG_LIMIT,
{
    if k >= 0 {
        lemma_div_range(n * pow2(k as nat), d, SIG_MIN as nat, SIG_LIMIT as nat);
    } else {
        lemma_pow2_pos((-k) as nat);
        let y = d * pow2((-k) as nat);
        assert(y > 0) by {
            lemma_mul_strictly_positive(d as int, pow2((-k) as nat) as int);
        }
        lemma_div_range(n, y, SIG_MIN as nat, SIG_LIMIT as nat);
    }
}

/// A lower bound on the scaling, from bounds on the quotient's terms.
pub proof fn lemma_scale_above(n: nat, d: nat, k: int, p: nat, q: nat)
    requires
        fills(n, d, k),
        n < pow2(p),
        d >= pow2(q),
    ensures
        k > 52 + q - p,
{
    lemma_sig_consts();
    if k <= 52 + q - p {
        if k >= 0 {
            let a = pow2(k as nat) as int;
            lemma_pow2_pos(k as nat);
            lemma_pow2_adds(p, k as nat);
            lemma_pow2_adds(52, q);
            if p + k < 52 + q {
                lemma_pow2_strictly_increases((p + k) as nat, 52 + q);
            }
            assert(n * a < pow2(p) * a) by (nonlinear_arith)
                requires
                    n < pow2(p),
                    a > 0,
            ;
            assert(SIG_MIN * d >= SIG_MIN * pow2(q)) by (nonlinear_arith)
                requires
                    d >= pow2(q),
            ;
        } else {
            let m = (-k) as nat;
            let a = pow2(m) as int;
            lemma_pow2_pos(m);
            lemma_pow2_adds(q, m);
            lemma_pow2_adds(52, (q + m) as nat);
            if p < 52 + q + m {
                lemma_pow2_strictly_increases(p, (52 + q + m) as nat);
            }
            assert(d * a >= pow2(q) * a) by (nonlinear_arith)
                requires
                    d >= pow2(q),
                    a > 0,
            ;
            assert(SIG_MIN * (d * a) >= SIG_MIN * (pow2(q) * a)) by (nonlinear_arith)
                requires
                    d * a >= pow2(q) * a,
            ;
        }
    }
}

/// An upper bound on the scaling, from bounds on the quotient's terms.
pub proof fn lemma_scale_below(n: nat, d: nat, k: int, p: nat, q: nat)
    requires
        fills(n, d, k),
        n >= pow2(p),
        d <= pow2(q),
    ensures
        k < 53 + q - p,
{
    lemma_sig_consts();
    if k >= 53 + q - p {
        if k >= 0 {
            let a = pow2(k as nat) as int;
            lemma_pow2_pos(k as nat);
            lemma_pow2_adds(p, k as nat);
            lemma_pow2_adds(53, q);
            if p + k > 53 + q {
                lemma_pow2_strictly_increases(53 + q, (p + k) as nat);
            }
            assert(n * a >= pow2(p) * a) by (nonlinear_arith)
                requires
                    n >= pow2(p),
                    a > 0,
            ;
            assert(SIG_LIMIT * d <= SIG_LIMIT * pow2(q)) by (nonlinear_arith)
                requires
                    d <= pow2(q),
            ;
        } else {
            let m = (-k) as nat;
            let a = pow2(m) as int;
            lemma_pow2_pos(m);
            lemma_pow2_adds(q, m);
            lemma_pow2_adds(53, (q + m) as nat);
            if p > 53 + q + m {
                lemma_pow2_strictly_increases((53 + q + m) as nat, p);
            }
            assert(d * a <= pow2(q) * a) by (nonlinear_arith)
                requires
                    d <= pow2(q),
                    a > 0,
            ;
            assert(SIG_LIMIT * (d * a) <= SIG_LIMIT * (pow2(q) * a)) by (nonlinear_arith)
                requires
                    d * a <= pow2(q) * a,
            ;
        }
    }
}

/// A power of two in the dividend moves the scaling, and nothing else.
pub proof fn lemma_scaling_shift(n: nat, d: nat, k: int, g: nat)
    requires
        d > 0,
    ensures
        fills(n * pow2(g), d, k - g) == fills(n, d, k),
        scaled(n * pow2(g), d, k - g) == scaled(n, d, k),
{
    let j = k - g;
    if j >= 0 {
        lemma_pow2_adds(g, j as nat);
        lemma_mul_is_associative(n as int, pow2(g) as int, pow2(j as nat) as int);
    } else if k >= 0 {
        let w = pow2((-j) as nat);
        let x = n * pow2(k as nat);
        lemma_pow2_pos((-j) as nat);
        lemma_pow2_adds(k as nat, (-j) as nat);
        assert(n * pow2(g) == x * w) by {
            lemma_mul_is_associative(n as int, pow2(k as nat) as int, w as int);
        }
        lemma_common_factor(x, d, w);
        lemma_half_even_cancels(x, d, w);
    } else {
        let w = pow2(g);
        let y = d * pow2((-k) as nat);
        lemma_pow2_pos(g);
        lemma_pow2_pos((-k) as nat);
        lemma_pow2_adds((-k) as nat, g);
        assert(d * pow2((-j) as nat) == y * w) by {
            lemma_mul_is_associative(d as int, pow2((-k) as nat) as int, w as int);
        }
        assert(y > 0) by {
            lemma_mul_strictly_positive(d as int, pow2((-k) as nat) as int);
        }
        lemma_common_factor(n, y, w);
        lemma_half_even_cancels(n, y, w);
    }
}

/// A common factor does not matter to the range of a significand.
proof fn lemma_common_factor(x: nat, y: nat, w: nat)
    requires
        w > 0,
    ensures
        (SIG_MIN * (y * w) <= x * w) == (SIG_MIN * y <= x),
        (x * w < SIG_LIMIT * (y * w)) == (x < SIG_LIMIT * y),
{
    assert((SIG_MIN * (y * w) <= x * w) == (SIG_MIN * y <= x)) by (nonlinear_arith)
        requires
            w > 0,
    ;
    assert((x * w < SIG_LIMIT * (y * w)) == (x < SIG_LIMIT * y)) by (nonlinear_arith)
        requires
            w > 0,
    ;
}

/// A power of two in the dividend goes into the exponent of the double.
pub proof fn lemma_nearest_shift(n: nat, d: nat, g: nat)
    requires
        n > 0,
        d > 0,
    ensures
        nearest(n * pow2(g), d) == (Double {
            sig: nearest(n, d).sig,
            exp: nearest(n, d).exp + g,
        }),
{
    let k = lemma_fills_exists(n, d);
    lemma_scaling_shift(n, d, k, g);
    lemma_pow2_pos(g);
    assert(n * pow2(g) > 0) by {
        lemma_mul_strictly_positive(n as int, pow2(g) as int);
    }
    lemma_nearest_is(n * pow2(g), d, k - g);
}

/// The smaller of two dividends takes the greater scaling.
proof fn lemma_smaller_scales_more(n: nat, t: nat, d: nat, j: int, k: int)
    requires
        0 < n <= t,
        d > 0,
        fills(n, d, j),
        fills(t, d, k),
    ensures
        j >= k,
{
    if j < k {
        let g = (k - j) as nat;
        lemma_pow2_unfold(g);
        lemma_pow2_pos((g - 1) as nat);
        let w = pow2(g) as int;
        if j >= 0 {
            let x = pow2(j as nat) as int;
            lemma_pow2_adds(j as nat, g);
            assert(t * (x * w) >= SIG_LIMIT * d) by (nonlinear_arith)
                requires
                    n * x >= SIG_MIN * d,
                    t >= n,
                    x >= 0,
                    w >= 2,
            ;
        } else if k < 0 {
            let x = pow2((-k) as nat) as int;
            lemma_pow2_adds((-k) as nat, g);
            assert(t >= SIG_LIMIT * (d * x)) by (nonlinear_arith)
                requires
                    n >= SIG_MIN * (d * (x * w)),
                    t >= n,
                    d > 0,
                    x >= 0,
                    w >= 2,
            ;
        } else {
            let x = pow2((-j) as nat) as int;
            let y = pow2(k as nat) as int;
            lemma_pow2_unfold((-j) as nat);
            lemma_pow2_pos((-j - 1) as nat);
            lemma_pow2_pos(k as nat);
            assert(t * y >= SIG_LIMIT * d) by (nonlinear_arith)
                requires
                    n >= SIG_MIN * (d * x),
                    t >= n,
                    d > 0,
                    x >= 2,
                    y >= 1,
            ;
        }
    }
}

/// Scaling keeps the order of the dividends.
proof fn lemma_scaled_monotone(n: nat, t: nat, d: nat, k: int)
    requires
        n <= t,
        d > 0,
    ensures
        scaled(n, d, k) <= scaled(t, d, k),
{
    if k >= 0 {
        let w = pow2(k as nat) as int;
        assert(n * w <= t * w) by (nonlinear_arith)
            requires
                n <= t,
                w >= 0,
        ;
        lemma_half_even_ordered((n * w) as nat, (t * w) as nat, d);
    } else {
        lemma_pow2_pos((-k) as nat);
        lemma_mul_strictly_positive(d as int, pow2((-k) as nat) as int);
        lemma_half_even_ordered(n, t, d * pow2((-k) as nat));
    }
}

/// The greater of two quotients with the same divisor has the greater double, and no smaller
/// exponent.
pub proof fn lemma_nearest_ordered(n: nat, t: nat, d: nat)
    requires
        0 < n <= t,
        d > 0,
    ensures
        nearest(n, d).exp <= nearest(t, d).exp,
        nearest(n, d).sig <= nearest(t, d).sig * pow2(
            (nearest(t, d).exp - nearest(n, d).exp) as nat,
        ),
{
    let j = lemma_fills_exists(n, d);
    let k = lemma_fills_exists(t, d);
    lemma_sig_consts();
    lemma_smaller_scales_more(n, t, d, j, k);
    let a = nearest(n, d).sig as int;
    let b = nearest(t, d).sig as int;
    if j == k {
        lemma_scaled_monotone(n, t, d, k);
        assert(b * 1 == b);
    } else {
        let g = (j - k) as nat;
        lemma_pow2_unfold(g);
        lemma_pow2_pos((g - 1) as nat);
        let w = pow2(g) as int;
        assert(a <= b * w) by (nonlinear_arith)
            requires
                a <= SIG_LIMIT,
                b >= SIG_MIN,
                w >= 2,
        ;
    }
}

/// As `lemma_nearest_ordered`, where a power of two stands beside the greater dividend.
pub proof fn lemma_nearest_ordered_shifted(n: nat, t: nat, d: nat, g: nat)
    requires
        0 < n <= t * pow2(g),
        t > 0,
        d > 0,
    ensures
        nearest(n, d).exp <= nearest(t, d).exp + g,
        nearest(n, d).sig <= nearest(t, d).sig * pow2(
            (nearest(t, d).exp + g - nearest(n, d).exp) as nat,
        ),
{
    lemma_nearest_shift(t, d, g);
    lemma_nearest_ordered(n, t * pow2(g), d);
}

/// Rounding keeps the order of two integers with powers of two beside them.
pub proof fn lemma_scaled_ordered(n: nat, t: nat, k: int, g: nat)
    requires
        n <= t * pow2(g),
    ensures
        scaled(n, 1, k) <= scaled(t, 1, k + g),
{
    lemma_scaling_shift(t, 1, k + g, g);
    lemma_scaled_monotone(n, t * pow2(g), 1, k);
}

/// The quotient rounded to an integer, halves going to the even neighbour.
pub fn round_half_even(n: u128, d: u128) -> (r: u128)
    requires
        d > 0,
        n < 0x8000_0000_0000_0000_0000_0000_0000_0000,
    ensures
        r == half_even(n as nat, d as nat),
        r <= n + 1,
{
    let q: u128 = n / d;
    let r: u128 = n % d;
    assert(q <= n) by {
        lemma_div_is_ordered_by_denominator(n as int, 1, d as int);
        lemma_div_basics(n as int);
    }
    // `2 * r < d` without the doubling: `d - r` is the distance to the next multiple
    let gap: u128 = d - r;
    if r < gap || (r == gap && q % 2 == 0) {
        q
    } else {
        q + 1
    }
}

/// Two to the power `m`.
fn power_of_two(m: u32) -> (r: u128)
    requires
        m < 128,
    ensures
        r == pow2(m as nat),
{
    let mut r: u128 = 1;
    let mut i: u32 = 0;
    proof {
        lemma_sig_consts();
    }
    while i < m
        invariant
            i <= m < 128,
            r == pow2(i as nat),
        decreases m - i,
    {
        proof {
            lemma_pow2_unfold((i + 1) as nat);
            lemma2_to64_rest();
            lemma_pow2_adds(63, 64);
            assert(pow2(127) == 0x8000_0000_0000_0000_0000_0000_0000_0000);
            if i + 1 < 127 {
                lemma_pow2_strictly_increases((i + 1) as nat, 127);
            }
        }
        r = r * 2;
        i = i + 1;
    }
    r
}

/// The double nearest to `n / d`.
pub fn nearest_double(n: u128, d: u128) -> (r: Parts)
    requires
        0 < n <= 0x1_0000_0000_0000_0000,
        0 < d <= SIG_LIMIT,
    ensures
        r@ == nearest(n as nat, d as nat),
        fills(n as nat, d as nat, -r.exp),
        SIG_MIN <= r.sig <= SIG_LIMIT,
        -106 <= r.exp <= 64,
{
    let mut num: u128 = n;
    let mut den: u128 = d;
    let mut k: i32 = 0;
    proof {
        lemma_sig_consts();
        lemma2_to64();
        lemma2_to64_rest();
    }
    while num < SIG_MIN * den
        invariant
            0 < n <= 0x1_0000_0000_0000_0000,
            0 < d <= SIG_LIMIT,
            den == d,
            0 <= k <= 106,
            num == n * pow2(k as nat),
            k > 0 ==> num < SIG_LIMIT * den,
            num >= pow2(k as nat),
            pow2(52) == SIG_MIN,
            pow2(53) == SIG_LIMIT,
        decreases 106 - k,
    {
        proof {
            lemma_pow2_unfold((k + 1) as nat);
            lemma_pow2_pos(k as nat);
            assert(n * (2 * pow2(k as nat)) == 2 * (n * pow2(k as nat))) by (nonlinear_arith);
            lemma_pow2_adds(52, 53);
            if k >= 105 {
                if k > 105 {
                    lemma_pow2_strictly_increases(105, k as nat);
                }
                assert(false);
            }
        }
        num = num * 2;
        k = k + 1;
    }
    let ghost up = k;
    proof {
        assert(n * 1 == n && d * 1 == d) by (nonlinear_arith);
    }
    while num >= SIG_LIMIT * den
        invariant
            0 < n <= 0x1_0000_0000_0000_0000,
            0 < d <= SIG_LIMIT,
            0 <= up <= 106,
            num == n * pow2(up as nat),
            num >= SIG_MIN * den,
            up > 0 ==> k == up && den == d && num < SIG_LIMIT * den,
            up == 0 ==> -64 <= k <= 0 && num == n && den == d * pow2((-k) as nat),
            up == 0 ==> den >= pow2((-k) as nat),
            den <= 0x1_0000_0000_0000_0000,
            den > 0,
            pow2(52) == SIG_MIN,
            pow2(53) == SIG_LIMIT,
            pow2(0) == 1,
            pow2(63) == 0x8000_0000_0000_0000,
        decreases k + 64,
    {
        proof {
            let m = (-k) as nat;
            lemma_pow2_unfold(m + 1);
            assert(d * (2 * pow2(m)) == 2 * (d * pow2(m))) by (nonlinear_arith);
            if m >= 63 {
                if m > 63 {
                    lemma_pow2_strictly_increases(63, m);
                }
            }
        }
        den = den * 2;
        k = k - 1;
    }
    proof {
        assert(fills(n as nat, d as nat, k as int)) by {
            assert(n * 1 == n && d * 1 == d) by (nonlinear_arith);
        }
        lemma_nearest_is(n as nat, d as nat, k as int);
        lemma_scaled_range(n as nat, d as nat, k as int);
        lemma_pow2_adds(53, 53);
        lemma_pow2_adds(53, 64);
        lemma2_to64_rest();
        if k == 0 {
            assert(num == n && den == d);
        }
        assert(half_even(num as nat, den as nat) == scaled(n as nat, d as nat, k as int));
    }
    let sig: u128 = round_half_even(num, den);
    Parts { sig: sig as u64, exp: -k }
}

/// `n * 2^k` rounded half to even.
pub fn round_scaled(n: u128, k: i32) -> (r: u128)
    requires
        n < 0x1_0000_0000_0000_0000,
        -127 <= k <= 60,
    ensures
        r == scaled(n as nat, 1, k as int),
{
    if k >= 0 {
        let w: u128 = power_of_two(k as u32);
        proof {
            lemma2_to64_rest();
            lemma_pow2_pos(k as nat);
            if k < 60 {
                lemma_pow2_strictly_increases(k as nat, 60);
            }
            assert(n * w < 0x1_0000_0000_0000_0000 * 0x1000_0000_0000_0000) by (nonlinear_arith)
                requires
                    n < 0x1_0000_0000_0000_0000,
                    0 < w <= 0x1000_0000_0000_0000,
            ;
            lemma_div_basics((n * w) as int);
            assert((n * w) as nat % 1 == 0);
        }
        n * w
    } else {
        let w: u128 = power_of_two((-k) as u32);
        proof {
            lemma_pow2_pos((-k) as nat);
            assert(1 * pow2((-k) as nat) == pow2((-k) as nat));
        }
        round_half_even(n, w)
    }
}

/// A quotient is rounded to an integer that is no further from it than a half, and to an even one
/// if there are two such integers.
pub proof fn rounding_goes_to_the_nearest_integer(n: nat, d: nat)
    requires
        d > 0,
    ensures
        2 * (half_even(n, d) * d - n) <= d,
        2 * (n - half_even(n, d) * d) <= d,
        2 * (half_even(n, d) * d - n) == d || 2 * (n - half_even(n, d) * d) == d ==> half_even(n, d)
            % 2 == 0,
{
    let q = (n / d) as int;
    let r = (n % d) as int;
    lemma_fundamental_div_mod(n as int, d as int);
    lemma_mod_bound(n as int, d as int);
    assert(q * d == d * q && (q + 1) * d == d * q + d) by (nonlinear_arith);
}

/// The double nearest to a positive quotient has a significand of 53 bits: the quotient, moved by
/// a power of two into the range of these, and rounded there.
pub proof fn nearest_double_has_53_bits(n: nat, d: nat)
    requires
        n > 0,
        d > 0,
    ensures
        ({
            let f = nearest(n, d);
            let up = n * pow2((-f.exp) as nat);
            let down = d * pow2(f.exp as nat);
            &&& 4503599627370496 <= f.sig <= 9007199254740992
            &&& f.exp <= 0 ==> 4503599627370496 * d <= up < 9007199254740992 * d && f.sig
                == half_even(up, d)
            &&& f.exp > 0 ==> 4503599627370496 * down <= n < 9007199254740992 * down && f.sig
                == half_even(n, down)
        }),
        nearest(0, d) == (Double { sig: 0, exp: 0 }),
{
    let k = lemma_fills_exists(n, d);
}

/// A number moved by a power of two is the number times that power, or its quotient by the power
/// with the opposite exponent, rounded.
pub proof fn moving_rounds_the_product_or_the_quotient(n: nat, k: nat)
    ensures
        scaled(n, 1, k as int) == n * pow2(k),
        scaled(n, 1, -k) == half_even(n, pow2(k)),
{
    lemma2_to64();
    lemma_half_even_exact(n * pow2(k), 1);
    assert((n * pow2(k)) * 1 == n * pow2(k));
    assert(1 * pow2(k) == pow2(k));
    if k == 0 {
        lemma_half_even_exact(n, 1);
        assert(n * pow2(0) == n) by (nonlinear_arith)
            requires
                pow2(0) == 1,
        ;
        assert(n * 1 == n);
    }
}

/// The double nearest to a quotient differs from it by at most one part in 2^53.
pub proof fn lemma_nearest_is_close(n: nat, d: nat, g: nat)
    requires
        n > 0,
        d > 0,
        g + nearest(n, d).exp >= 0,
    ensures
        ({
            let v = nearest(n, d).sig * pow2((g + nearest(n, d).exp) as nat);
            &&& (SIG_LIMIT - 1) * (v * d) <= SIG_LIMIT * (n * pow2(g))
            &&& SIG_LIMIT * (n * pow2(g)) <= (SIG_LIMIT + 1) * (v * d)
        }),
{
    let k = lemma_fills_exists(n, d);
    let s = nearest(n, d).sig as int;
    let e = nearest(n, d).exp;
    if k >= 0 {
        let top = (n * pow2(k as nat)) as int;
        rounding_goes_to_the_nearest_integer(top as nat, d);
        let w = pow2((g - k) as nat) as int;
        lemma_pow2_adds((g - k) as nat, k as nat);
        lemma_pow2_pos((g - k) as nat);
        lemma_close_products(s, d as int, top, w);
        assert((s * w) * d == (s * d) * w) by (nonlinear_arith);
        assert(n * (w * pow2(k as nat)) == (n * pow2(k as nat)) * w) by (nonlinear_arith);
    } else {
        let low = (d * pow2(e as nat)) as int;
        lemma_pow2_pos(e as nat);
        lemma_pow2_pos(g);
        lemma_mul_strictly_positive(d as int, pow2(e as nat) as int);
        rounding_goes_to_the_nearest_integer(n, low as nat);
        let w = pow2(g) as int;
        lemma_pow2_adds(g, e as nat);
        lemma_close_products(s, low, n as int, w);
        assert((s * (w * pow2(e as nat))) * d == (s * (d * pow2(e as nat))) * w)
            by (nonlinear_arith);
    }
}

proof fn lemma_close_products(s: int, d: int, n: int, w: int)
    requires
        s >= SIG_MIN,
        d > 0,
        n >= 0,
        w >= 0,
        2 * (s * d - n) <= d,
        2 * (n - s * d) <= d,
    ensures
        (SIG_LIMIT - 1) * ((s * d) * w) <= SIG_LIMIT * (n * w),
        SIG_LIMIT * (n * w) <= (SIG_LIMIT + 1) * ((s * d) * w),
{
    let x = s * d;
    assert(x >= SIG_MIN * d) by (nonlinear_arith)
        requires
            x == s * d,
            s >= SIG_MIN,
            d > 0,
    ;
    assert((SIG_LIMIT - 1) * x <= SIG_LIMIT * n) by (nonlinear_arith)
        requires
            2 * (x - n) <= d,
            x >= SIG_MIN * d,
    ;
    assert(SIG_LIMIT * n <= (SIG_LIMIT + 1) * x) by (nonlinear_arith)
        requires
            2 * (n - x) <= d,
            x >= SIG_MIN * d,
    ;
    assert((SIG_LIMIT - 1) * (x * w) <= SIG_LIMIT * (n * w)) by (nonlinear_arith)
        requires
            (SIG_LIMIT - 1) * x <= SIG_LIMIT * n,
            w >= 0,
    ;
    assert(SIG_LIMIT * (n * w) <= (SIG_LIMIT + 1) * (x * w)) by (nonlinear_arith)
        requires
            SIG_LIMIT * n <= (SIG_LIMIT + 1) * x,
            w >= 0,
    ;
}

} // verus!
