//! The figures of a report: sizes in bytes and shares in per cent.
use vstd::prelude::*;
use vstd::arithmetic::power2::*;
use vstd::arithmetic::mul::*;
use vstd::arithmetic::div_mod::*;
use vstd::string::*;
use crate::rounding::{fills, half_even, nearest, scaled};
use crate::rounding::{SIG_LIMIT, SIG_MIN};
use crate::rounding::{lemma_fills_exists, lemma_scale_above, lemma_scale_below};
use crate::rounding::{lemma_half_even_cancels, lemma_half_even_exact, lemma_half_even_ordered};
use crate::rounding::{lemma_nearest_ordered, lemma_nearest_ordered_shifted, lemma_nearest_shift};
use crate::rounding::{lemma_nearest_is_close, lemma_scaled_ordered};
use crate::rounding::moving_rounds_the_product_or_the_quotient;
use crate::rounding::rounding_goes_to_the_nearest_integer;
use crate::rounding::{nearest_double, round_half_even, round_scaled};
use crate::text::{decimal, push_decimal};

verus! {

/// The bytes of a kilobyte.
pub const KILO: u64 = 1024;

/// The bytes of a megabyte.
pub const MEGA: u64 = 1048576;

/// The numeral with one decimal of a number of tenths.
pub open spec fn one_decimal(tenths: nat) -> Seq<char> {
    decimal(tenths / 10) + "."@ + decimal(tenths % 10)
}

/// The tenths of a megabyte in `b` bytes: `b` as a double, divided by 2^20, rounded.
pub open spec fn megabyte_tenths(b: nat) -> nat {
    let f = nearest(b, 1);
    scaled(f.sig * 10, 1, f.exp - 20)
}

/// A number of bytes as it is shown, in one of three units.
pub enum Size {
    Bytes(nat),
    Kilobytes(nat),
    MegabyteTenths(nat),
}

impl Size {
    /// The size of `b` bytes: whole bytes below a kilobyte, whole kilobytes below a megabyte, and
    /// tenths of a megabyte from there on.
    pub open spec fn of(b: nat) -> Size {
        if b >= MEGA {
            Size::MegabyteTenths(megabyte_tenths(b))
        } else if b >= KILO {
            Size::Kilobytes(half_even(b, KILO as nat))
        } else {
            Size::Bytes(b)
        }
    }

    /// How the size is written.
    pub open spec fn text(self) -> Seq<char> {
        match self {
            Size::Bytes(n) => decimal(n) + " B"@,
            Size::Kilobytes(n) => decimal(n) + " kB"@,
            Size::MegabyteTenths(n) => one_decimal(n) + " MB"@,
        }
    }

    /// How much the size stands for, in tenths of a byte.
    pub open spec fn byte_tenths(self) -> nat {
        match self {
            Size::Bytes(n) => n * 10,
            Size::Kilobytes(n) => n * 10 * KILO as nat,
            Size::MegabyteTenths(n) => n * MEGA as nat,
        }
    }
}

/// How a number of bytes is written.
pub open spec fn bytes_text(b: nat) -> Seq<char> {
    Size::of(b).text()
}

/// The tenths of a per cent of `n` in `total`: the quotient of the two doubles, times 100,
/// each of the two operations rounded to a double, then rounded to tenths.
pub open spec fn share_tenths(n: nat, total: nat) -> nat {
    let a = nearest(n, 1);
    let b = nearest(total, 1);
    let q = nearest(a.sig, b.sig);
    let p = nearest(q.sig * 100, 1);
    scaled(p.sig * 10, 1, p.exp + q.exp + a.exp - b.exp)
}

/// How a share is written: per cent with one decimal; nothing of nothing is `0.0%`.
pub open spec fn share_text(n: nat, total: nat) -> Seq<char> {
    if total == 0 {
        "0.0%"@
    } else {
        one_decimal(share_tenths(n, total)) + "%"@
    }
}

/// Appends a number of tenths with one decimal.
fn push_one_decimal(out: &mut String, tenths: u128)
    ensures
        final(out)@ == old(out)@ + one_decimal(tenths as nat),
{
    let ghost start = out@;
    push_decimal(out, tenths / 10);
    out.append(".");
    push_decimal(out, tenths % 10);
    proof {
        assert(out@ =~= start + one_decimal(tenths as nat));
    }
}

/// Scaling nothing gives nothing.
proof fn lemma_scaled_zero(k: int)
    ensures
        scaled(0, 1, k) == 0,
{
    if k >= 0 {
        assert(0 * pow2(k as nat) == 0) by (nonlinear_arith);
    } else {
        lemma_pow2_pos((-k) as nat);
        assert(1 * pow2((-k) as nat) == pow2((-k) as nat));
        let d = pow2((-k) as nat) as int;
        lemma_small_mod(0, d as nat);
        lemma_basic_div(0, d);
    }
}

/// The exponent of the double nearest to a positive integer below 2^64.
proof fn lemma_integer_exponent(n: nat, exp: int)
    requires
        0 < n <= u64::MAX,
        fills(n, 1, -exp),
    ensures
        -52 <= exp <= 11,
{
    lemma2_to64();
    lemma2_to64_rest();
    lemma_scale_above(n, 1, -exp, 64, 0);
    lemma_scale_below(n, 1, -exp, 0, 0);
}

/// The tenths of a megabyte in `b` bytes.
fn to_megabyte_tenths(b: u64) -> (r: u128)
    ensures
        r == megabyte_tenths(b as nat),
{
    if b == 0 {
        proof {
            lemma_scaled_zero(-20);
        }
        return 0;
    }
    let f = nearest_double(b as u128, 1);
    proof {
        lemma_integer_exponent(b as nat, f.exp as int);
    }
    round_scaled(f.sig as u128 * 10, f.exp - 20)
}

/// A number of bytes in megabytes with one decimal, without the unit.
pub fn megabytes(b: u64) -> (r: String)
    ensures
        r@ == one_decimal(megabyte_tenths(b as nat)),
{
    let mut out = String::new();
    push_one_decimal(&mut out, to_megabyte_tenths(b));
    proof {
        assert(out@ =~= one_decimal(megabyte_tenths(b as nat)));
    }
    out
}

/// Writes a number of bytes with a unit that suits its size.
pub fn fmt_bytes(b: u64) -> (r: String)
    ensures
        r@ == bytes_text(b as nat),
{
    let mut out = String::new();
    if b >= MEGA {
        push_one_decimal(&mut out, to_megabyte_tenths(b));
        out.append(" MB");
    } else if b >= KILO {
        push_decimal(&mut out, round_half_even(b as u128, KILO as u128));
        out.append(" kB");
    } else {
        push_decimal(&mut out, b as u128);
        out.append(" B");
    }
    proof {
        assert(out@ =~= bytes_text(b as nat));
    }
    out
}

/// The tenths of a per cent of `n` in `total`.
fn to_share_tenths(n: u64, total: u64) -> (r: u128)
    requires
        total > 0,
    ensures
        r == share_tenths(n as nat, total as nat),
{
    let b = nearest_double(total as u128, 1);
    if n == 0 {
        proof {
            lemma_scaled_zero(-nearest(total as nat, 1).exp);
        }
        return 0;
    }
    let a = nearest_double(n as u128, 1);
    let q = nearest_double(a.sig as u128, b.sig as u128);
    let p = nearest_double(q.sig as u128 * 100, 1);
    proof {
        lemma2_to64();
        lemma2_to64_rest();
        lemma_integer_exponent(n as nat, a.exp as int);
        lemma_integer_exponent(total as nat, b.exp as int);
        lemma_scale_above(a.sig as nat, b.sig as nat, -q.exp, 54, 52);
        lemma_scale_below(a.sig as nat, b.sig as nat, -q.exp, 52, 53);
        lemma_scale_above((q.sig * 100) as nat, 1, -p.exp, 60, 0);
        lemma_scale_below((q.sig * 100) as nat, 1, -p.exp, 58, 0);
    }
    round_scaled(p.sig as u128 * 10, p.exp + q.exp + a.exp - b.exp)
}

/// Writes `n` as a share of `total` in per cent.
pub fn pct(n: u64, total: u64) -> (r: String)
    ensures
        r@ == share_text(n as nat, total as nat),
{
    let mut out = String::new();
    if total == 0 {
        out.append("0.0%");
    } else {
        push_one_decimal(&mut out, to_share_tenths(n, total));
        out.append("%");
    }
    proof {
        assert(out@ =~= share_text(n as nat, total as nat));
    }
    out
}

/// Below 2^53 bytes the megabytes shown are the exact quotient, rounded once.
pub proof fn megabytes_are_rounded_once(b: nat)
    requires
        b < SIG_LIMIT,
    ensures
        megabyte_tenths(b) == half_even(b * 10, MEGA as nat),
{
    lemma2_to64();
    lemma2_to64_rest();
    if b == 0 {
        lemma_scaled_zero(-20);
    } else {
        let k = lemma_fills_exists(b, 1);
        if k < 0 {
            lemma_pow2_unfold((-k) as nat);
            lemma_pow2_pos((-k - 1) as nat);
            assert(1 * pow2((-k) as nat) == pow2((-k) as nat));
        }
        let w = pow2(k as nat);
        lemma_pow2_pos(k as nat);
        assert(scaled(b, 1, k) == b * w) by {
            lemma_half_even_exact(b * w, 1);
        }
        lemma_pow2_adds(20, k as nat);
        assert((b * w) * 10 == (b * 10) * w) by (nonlinear_arith);
        lemma_half_even_cancels(b * 10, pow2(20), w);
        assert(1 * pow2((k + 20) as nat) == pow2(20) * w);
    }
}

/// The tenths of a megabyte keep the order of the bytes.
proof fn lemma_megabyte_tenths_ordered(b1: nat, b2: nat)
    requires
        0 < b1 <= b2,
    ensures
        megabyte_tenths(b1) <= megabyte_tenths(b2),
{
    let f1 = nearest(b1, 1);
    let f2 = nearest(b2, 1);
    lemma_nearest_ordered(b1, b2, 1);
    let g = (f2.exp - f1.exp) as nat;
    let w = pow2(g) as int;
    assert(f1.sig * 10 <= (f2.sig * 10) * w) by (nonlinear_arith)
        requires
            f1.sig <= f2.sig * w,
    ;
    lemma_scaled_ordered(f1.sig * 10, f2.sig * 10, f1.exp - 20, g);
}

/// More bytes are never shown as less, across the changes of unit too.
pub proof fn more_bytes_are_not_shown_as_less(b1: nat, b2: nat)
    requires
        b1 <= b2,
    ensures
        Size::of(b1).byte_tenths() <= Size::of(b2).byte_tenths(),
{
    if b2 >= MEGA {
        // a megabyte is shown as ten tenths
        megabytes_are_rounded_once(MEGA as nat);
        lemma_half_even_exact(10, MEGA as nat);
        lemma_megabyte_tenths_ordered(MEGA as nat, b2);
        if b1 >= MEGA {
            lemma_megabyte_tenths_ordered(b1, b2);
        } else if b1 >= KILO {
            lemma_half_even_ordered(b1, MEGA as nat, KILO as nat);
            lemma_half_even_exact(1024, KILO as nat);
        }
    } else if b2 >= KILO {
        // a kilobyte is shown as one
        lemma_half_even_exact(1, KILO as nat);
        lemma_half_even_ordered(KILO as nat, b2, KILO as nat);
        if b1 >= KILO {
            lemma_half_even_ordered(b1, b2, KILO as nat);
        }
    }
}

/// From a quotient of significands that, scaled by `e`, is at most one to a share of at most
/// a hundred per cent.
proof fn lemma_share_from_quotient(a: nat, b: nat, e: nat)
    requires
        SIG_MIN <= a <= SIG_LIMIT,
        SIG_MIN <= b <= SIG_LIMIT,
        a <= b * pow2(e),
    ensures
        ({
            let q = nearest(a, b);
            let p = nearest(q.sig * 100, 1);
            let tenths = scaled(p.sig * 10, 1, p.exp + q.exp - e);
            tenths <= 1000 && (a == b && e == 0 ==> tenths == 1000)
        }),
{
    lemma2_to64();
    lemma2_to64_rest();
    let k = lemma_fills_exists(a, b);
    lemma_scale_above(a, b, k, 54, 52);
    let q = nearest(a, b);
    let h = q.sig * 100;
    let j = lemma_fills_exists(h, 1);
    lemma_scale_above(h, 1, j, 60, 0);
    lemma_scale_below(h, 1, j, 58, 0);
    let m = (-j) as nat;
    assert(5 <= m <= 7);
    let p = nearest(h, 1);
    let wk = pow2(k as nat);
    let top = pow2((e + k) as nat);
    lemma_pow2_adds(e, k as nat);
    // the rounded quotient is at most 2^(e + k)
    assert(a * wk <= top * b) by (nonlinear_arith)
        requires
            a <= b * pow2(e),
            top == pow2(e) * wk,
            wk >= 0,
    ;
    lemma_half_even_ordered(a * wk, top * b, b);
    lemma_half_even_exact(top, b);
    assert(q.sig <= top);
    // times 100, rounded, it is at most 100 * 2^(e + k - m)
    let wm = pow2(m);
    let rest = pow2((e + k - m) as nat);
    lemma_pow2_adds((e + k - m) as nat, m);
    lemma_pow2_pos(m);
    lemma_pow2_pos((e + k - m) as nat);
    assert(1 * wm == wm);
    assert(top * 100 == (100 * rest) * wm) by (nonlinear_arith)
        requires
            top == rest * wm,
    ;
    lemma_half_even_ordered(h, top * 100, wm);
    lemma_half_even_exact(100 * rest, wm);
    assert(p.sig <= 100 * rest);
    // and in tenths it is at most 1000
    assert(1 * rest == rest);
    lemma_half_even_ordered(p.sig * 10, 1000 * rest, rest);
    lemma_half_even_exact(1000, rest);
    assert(p.exp + q.exp - e == -(e + k - m));
    if a == b && e == 0 {
        assert(top == wk) by {
            assert(pow2(0) * wk == wk) by (nonlinear_arith)
                requires
                    pow2(0) == 1,
            ;
        }
        lemma_mul_is_commutative(a as int, wk as int);
    }
}

/// A part of a whole is never shown as more than a hundred per cent.
pub proof fn part_is_at_most_a_hundred_per_cent(n: nat, total: nat)
    requires
        n <= total,
        total > 0,
    ensures
        share_tenths(n, total) <= 1000,
{
    if n == 0 {
        lemma_scaled_zero(-nearest(total, 1).exp);
    } else {
        let j = lemma_fills_exists(n, 1);
        let k = lemma_fills_exists(total, 1);
        lemma_nearest_ordered(n, total, 1);
        let a = nearest(n, 1);
        let b = nearest(total, 1);
        lemma_share_from_quotient(a.sig, b.sig, (b.exp - a.exp) as nat);
    }
}

/// A greater part is never shown as a smaller share of the same whole; of nothing, all parts are
/// shown alike.
pub proof fn greater_part_has_no_smaller_share(n1: nat, n2: nat, total: nat)
    requires
        n1 <= n2,
    ensures
        total > 0 ==> share_tenths(n1, total) <= share_tenths(n2, total),
        total == 0 ==> share_text(n1, total) == share_text(n2, total),
{
    if n1 == 0 {
        lemma_scaled_zero(-nearest(total, 1).exp);
    } else if total > 0 {
        let a1 = nearest(n1, 1);
        let a2 = nearest(n2, 1);
        let b = nearest(total, 1);
        let i1 = lemma_fills_exists(n1, 1);
        let i2 = lemma_fills_exists(n2, 1);
        let i3 = lemma_fills_exists(total, 1);
        lemma_nearest_ordered(n1, n2, 1);
        let g = (a2.exp - a1.exp) as nat;
        // the quotients keep the order of the parts
        let q1 = nearest(a1.sig, b.sig);
        let q2 = nearest(a2.sig, b.sig);
        let j1 = lemma_fills_exists(a1.sig, b.sig);
        let j2 = lemma_fills_exists(a2.sig, b.sig);
        lemma_nearest_ordered_shifted(a1.sig, a2.sig, b.sig, g);
        let h = (q2.exp + g - q1.exp) as nat;
        // so do the quotients times 100
        let w = pow2(h) as int;
        assert(q1.sig * 100 <= (q2.sig * 100) * w) by (nonlinear_arith)
            requires
                q1.sig <= q2.sig * w,
        ;
        let p1 = nearest(q1.sig * 100, 1);
        let p2 = nearest(q2.sig * 100, 1);
        lemma_nearest_ordered_shifted(q1.sig * 100, q2.sig * 100, 1, h);
        let f = (p2.exp + h - p1.exp) as nat;
        // and their tenths
        let v = pow2(f) as int;
        assert(p1.sig * 10 <= (p2.sig * 10) * v) by (nonlinear_arith)
            requires
                p1.sig <= p2.sig * v,
        ;
        lemma_scaled_ordered(p1.sig * 10, p2.sig * 10, p1.exp + q1.exp + a1.exp - b.exp, f);
        assert(p1.exp + q1.exp + a1.exp - b.exp + f == p2.exp + q2.exp + a2.exp - b.exp);
    }
}

/// Twice a part of twice a whole is shown as the same share.
pub proof fn doubling_both_keeps_the_share(n: nat, total: nat)
    ensures
        share_text(2 * n, 2 * total) == share_text(n, total),
{
    lemma2_to64();
    if total > 0 {
        lemma_nearest_shift(total, 1, 1);
        assert(total * pow2(1) == 2 * total) by (nonlinear_arith)
            requires
                pow2(1) == 2,
        ;
        if n > 0 {
            lemma_nearest_shift(n, 1, 1);
            assert(n * pow2(1) == 2 * n) by (nonlinear_arith)
                requires
                    pow2(1) == 2,
            ;
        } else {
            lemma_scaled_zero(-nearest(total, 1).exp);
            lemma_scaled_zero(-nearest(2 * total, 1).exp);
        }
    }
}

/// The whole of anything but nothing is shown as `100.0%`.
pub proof fn whole_is_a_hundred_per_cent(n: nat)
    requires
        n > 0,
    ensures
        share_text(n, n) == "100.0%"@,
{
    let k = lemma_fills_exists(n, 1);
    let a = nearest(n, 1);
    lemma2_to64();
    assert(a.sig * pow2(0) == a.sig) by (nonlinear_arith)
        requires
            pow2(0) == 1,
    ;
    lemma_share_from_quotient(a.sig, a.sig, 0);
    assert(share_tenths(n, n) == 1000);
    reveal_strlit(".");
    reveal_strlit("%");
    reveal_strlit("100.0%");
    assert(decimal(100) =~= seq!['1', '0', '0']) by {
        reveal_with_fuel(decimal, 4);
    }
    assert(decimal(0) =~= seq!['0']);
    assert(share_text(n, n) =~= "100.0%"@);
}

/// Nothing is shown as `0.0%` of anything.
pub proof fn nothing_is_zero_per_cent(total: nat)
    ensures
        share_text(0, total) == "0.0%"@,
{
    if total > 0 {
        lemma_scaled_zero(-nearest(total, 1).exp);
        reveal_strlit(".");
        reveal_strlit("%");
        reveal_strlit("0.0%");
        assert(decimal(0) =~= seq!['0']);
        assert(share_text(0, total) =~= "0.0%"@);
    }
}

/// Sizes below a kilobyte of 1024 bytes are written as they are, those below a megabyte of 1024
/// kilobytes in whole kilobytes, and the others in megabytes with one decimal.
pub proof fn sizes_are_written_in_these_units(b: nat)
    ensures
        b < 1024 ==> bytes_text(b) == decimal(b) + " B"@,
        1024 <= b < 1048576 ==> bytes_text(b) == decimal(half_even(b, 1024)) + " kB"@,
        b >= 1048576 ==> bytes_text(b) == decimal(megabyte_tenths(b) / 10) + "."@ + decimal(
            megabyte_tenths(b) % 10,
        ) + " MB"@,
        b < 9007199254740992 ==> megabyte_tenths(b) == half_even(b * 10, 1048576),
{
    if b < 9007199254740992 {
        megabytes_are_rounded_once(b);
    }
}

/// A number of tenths is written with one decimal, and a share with a per cent sign behind it;
/// every share of nothing is written as `0.0%`.
pub proof fn shares_are_written_with_one_decimal(n: nat, total: nat)
    ensures
        one_decimal(n) == decimal(n / 10) + "."@ + decimal(n % 10),
        total > 0 ==> share_text(n, total) == decimal(share_tenths(n, total) / 10) + "."@
            + decimal(share_tenths(n, total) % 10) + "%"@,
        total == 0 ==> share_text(n, total) == "0.0%"@,
{
}

/// From a bound by a multiple of a number, and a bound on a multiple of that number.
proof fn lemma_chain(x: int, y: int, s: int, c: int, e: int)
    requires
        x <= y * s,
        s * c <= e,
        c >= 0,
        y >= 0,
    ensures
        x * c <= y * e,
{
    assert(x * c <= (y * s) * c) by (nonlinear_arith)
        requires
            x <= y * s,
            c >= 0,
    ;
    assert((y * s) * c == y * (s * c)) by (nonlinear_arith);
    assert(y * (s * c) <= y * e) by (nonlinear_arith)
        requires
            s * c <= e,
            y >= 0,
    ;
}

/// The quotient of two doubles times 100, from bounds on what each of the four roundings makes
/// greater.
proof fn lemma_share_at_most(
    w: int,
    n: int,
    t: int,
    a: int,
    b: int,
    q: int,
    p: int,
    wa: int,
    wb: int,
    wq: int,
    wp: int,
    g: int,
)
    requires
        w > 1,
        n >= 0,
        t >= 0,
        a >= 0,
        b >= 0,
        q >= 0,
        p >= 0,
        wa > 0,
        wb > 0,
        wq > 0,
        wp > 0,
        g > 0,
        (w - 1) * (a * wa) <= w * (n * g),
        w * (t * g) <= (w + 1) * (b * wb),
        (w - 1) * ((q * wq) * b) <= w * (a * g),
        (w - 1) * (p * wp) <= w * ((q * 100) * g),
    ensures
        ((w - 1) * (w - 1) * (w - 1)) * (p * (wp * wq * wa)) * t <= (100 * (w * w * (w + 1))) * (n
            * (g * g * wb)),
{
    let u = w - 1;
    let x1 = u * (p * wp);
    let y1 = 100 * (w * g);
    assert(w * ((q * 100) * g) == y1 * q) by (nonlinear_arith)
        requires
            y1 == 100 * (w * g),
    ;
    let c2 = u * (wq * b);
    let e2 = w * (a * g);
    assert(u * ((q * wq) * b) == q * c2) by (nonlinear_arith)
        requires
            c2 == u * (wq * b),
    ;
    assert(wq * b >= 0) by (nonlinear_arith)
        requires
            wq > 0,
            b >= 0,
    ;
    assert(c2 >= 0) by (nonlinear_arith)
        requires
            c2 == u * (wq * b),
            u > 0,
            wq * b >= 0,
    ;
    assert(w * g > 0) by (nonlinear_arith)
        requires
            w > 1,
            g > 0,
    ;
    lemma_chain(x1, y1, q, c2, e2);
    let x2 = x1 * c2;
    let y2 = y1 * (w * g);
    assert(y1 * e2 == y2 * a) by (nonlinear_arith)
        requires
            e2 == w * (a * g),
            y2 == y1 * (w * g),
    ;
    let c3 = u * wa;
    let e3 = w * (n * g);
    assert(u * (a * wa) == a * c3) by (nonlinear_arith)
        requires
            c3 == u * wa,
    ;
    assert(c3 >= 0) by (nonlinear_arith)
        requires
            c3 == u * wa,
            u > 0,
            wa > 0,
    ;
    assert(y2 >= 0) by (nonlinear_arith)
        requires
            y2 == y1 * (w * g),
            y1 >= 0,
            w * g > 0,
    ;
    lemma_chain(x2, y2, a, c3, e3);
    // all but the last rounding: `k * b` is at most `y2 * e3`
    let k = (u * u * u) * (p * (wp * wq * wa));
    let uu = u * u;
    let wqa = wq * wa;
    assert(k == (uu * u) * (p * (wp * wqa))) by (nonlinear_arith)
        requires
            k == (u * u * u) * (p * (wp * wq * wa)),
            uu == u * u,
            wqa == wq * wa,
    ;
    assert(c2 * c3 == (uu * wqa) * b) by (nonlinear_arith)
        requires
            c2 == u * (wq * b),
            c3 == u * wa,
            uu == u * u,
            wqa == wq * wa,
    ;
    lemma_mul_is_associative(x1, c2, c3);
    assert((u * (p * wp)) * ((uu * wqa) * b) == ((uu * u) * (p * (wp * wqa))) * b)
        by (nonlinear_arith);
    assert(k >= 0) by (nonlinear_arith)
        requires
            k == (u * u * u) * (p * (wp * wq * wa)),
            u > 0,
            p >= 0,
            wp > 0,
            wq > 0,
            wa > 0,
    ;
    let c4 = (w + 1) * wb;
    assert((w + 1) * (b * wb) == c4 * b) by (nonlinear_arith)
        requires
            c4 == (w + 1) * wb,
    ;
    assert(c4 >= 0) by (nonlinear_arith)
        requires
            c4 == (w + 1) * wb,
            w > 1,
            wb > 0,
    ;
    let top = w * (t * g);
    assert(k * top <= k * (c4 * b)) by (nonlinear_arith)
        requires
            top <= c4 * b,
            k >= 0,
    ;
    assert(k * (c4 * b) == (k * b) * c4) by (nonlinear_arith);
    assert((k * b) * c4 <= (y2 * e3) * c4) by (nonlinear_arith)
        requires
            k * b <= y2 * e3,
            c4 >= 0,
    ;
    let goal = (100 * (w * w * (w + 1))) * (n * (g * g * wb));
    let wg = w * g;
    assert(k * top == (k * t) * wg) by (nonlinear_arith)
        requires
            top == w * (t * g),
            wg == w * g,
    ;
    let ww = w * w;
    let gg = g * g;
    let v = w + 1;
    assert(y2 == 100 * (ww * gg)) by (nonlinear_arith)
        requires
            y1 == 100 * (w * g),
            y2 == y1 * (w * g),
            ww == w * w,
            gg == g * g,
    ;
    assert(e3 == wg * n) by (nonlinear_arith)
        requires
            e3 == w * (n * g),
            wg == w * g,
    ;
    assert(((100 * (ww * gg)) * (wg * n)) * (v * wb) == ((100 * (ww * v)) * (n * (gg * wb))) * wg)
        by (nonlinear_arith);
    assert(k * t <= goal) by (nonlinear_arith)
        requires
            (k * t) * wg <= goal * wg,
            wg > 0,
    ;
}

/// The same from bounds on what each of the four roundings makes smaller.
proof fn lemma_share_at_least(
    w: int,
    n: int,
    t: int,
    a: int,
    b: int,
    q: int,
    p: int,
    wa: int,
    wb: int,
    wq: int,
    wp: int,
    g: int,
)
    requires
        w > 1,
        n >= 0,
        t >= 0,
        a >= 0,
        b >= 0,
        q >= 0,
        p >= 0,
        wa > 0,
        wb > 0,
        wq > 0,
        wp > 0,
        g > 0,
        w * (n * g) <= (w + 1) * (a * wa),
        (w - 1) * (b * wb) <= w * (t * g),
        w * (a * g) <= (w + 1) * ((q * wq) * b),
        w * ((q * 100) * g) <= (w + 1) * (p * wp),
    ensures
        (100 * (w * w * (w - 1))) * (n * (g * g * wb)) <= ((w + 1) * (w + 1) * (w + 1)) * (p * (wp
            * wq * wa)) * t,
{
    let u = w + 1;
    let wg = w * g;
    assert(wg > 0) by (nonlinear_arith)
        requires
            wg == w * g,
            w > 1,
            g > 0,
    ;
    let x1 = w * (n * g);
    let y1 = u * wa;
    assert(u * (a * wa) == y1 * a) by (nonlinear_arith)
        requires
            y1 == u * wa,
    ;
    assert(y1 >= 0) by (nonlinear_arith)
        requires
            y1 == u * wa,
            u > 0,
            wa > 0,
    ;
    let e2 = u * ((q * wq) * b);
    assert(w * (a * g) == a * wg) by (nonlinear_arith)
        requires
            wg == w * g,
    ;
    lemma_chain(x1, y1, a, wg, e2);
    let x2 = x1 * wg;
    let y2 = y1 * (u * (wq * b));
    assert(y1 * e2 == y2 * q) by (nonlinear_arith)
        requires
            e2 == u * ((q * wq) * b),
            y2 == y1 * (u * (wq * b)),
    ;
    assert(wq * b >= 0) by (nonlinear_arith)
        requires
            wq > 0,
            b >= 0,
    ;
    assert(u * (wq * b) >= 0) by (nonlinear_arith)
        requires
            u > 0,
            wq * b >= 0,
    ;
    assert(y2 >= 0) by (nonlinear_arith)
        requires
            y2 == y1 * (u * (wq * b)),
            y1 >= 0,
            u * (wq * b) >= 0,
    ;
    let e3 = u * (p * wp);
    assert(w * ((q * 100) * g) == q * (100 * wg)) by (nonlinear_arith)
        requires
            wg == w * g,
    ;
    lemma_chain(x2, y2, q, 100 * wg, e3);
    let x3 = x2 * (100 * wg);
    let k = (u * u * u) * (p * (wp * wq * wa));
    let uu = u * u;
    let wqa = wq * wa;
    assert(y2 == (uu * wqa) * b) by (nonlinear_arith)
        requires
            y1 == u * wa,
            y2 == y1 * (u * (wq * b)),
            uu == u * u,
            wqa == wq * wa,
    ;
    assert(k == (uu * u) * (p * (wp * wqa))) by (nonlinear_arith)
        requires
            k == (u * u * u) * (p * (wp * wq * wa)),
            uu == u * u,
            wqa == wq * wa,
    ;
    assert(((uu * wqa) * b) * (u * (p * wp)) == ((uu * u) * (p * (wp * wqa))) * b)
        by (nonlinear_arith);
    assert(k >= 0) by (nonlinear_arith)
        requires
            k == (u * u * u) * (p * (wp * wq * wa)),
            u > 0,
            p >= 0,
            wp > 0,
            wq > 0,
            wa > 0,
    ;
    let c4 = (w - 1) * wb;
    assert((w - 1) * (b * wb) == b * c4) by (nonlinear_arith)
        requires
            c4 == (w - 1) * wb,
    ;
    assert(c4 >= 0) by (nonlinear_arith)
        requires
            c4 == (w - 1) * wb,
            w > 1,
            wb > 0,
    ;
    let e4 = w * (t * g);
    lemma_chain(x3, k, b, c4, e4);
    let low = (100 * (w * w * (w - 1))) * (n * (g * g * wb));
    let ww = w * w;
    let gg = g * g;
    let v = w - 1;
    assert(wg * wg == ww * gg) by (nonlinear_arith)
        requires
            wg == w * g,
            ww == w * w,
            gg == g * g,
    ;
    assert(x1 == wg * n) by (nonlinear_arith)
        requires
            x1 == w * (n * g),
            wg == w * g,
    ;
    assert(x3 == (100 * (wg * wg)) * (wg * n)) by (nonlinear_arith)
        requires
            x2 == (wg * n) * wg,
            x3 == x2 * (100 * wg),
    ;
    assert(((100 * (ww * gg)) * (wg * n)) * (v * wb) == ((100 * (ww * v)) * (n * (gg * wb))) * wg)
        by (nonlinear_arith);
    assert(k * e4 == (k * t) * wg) by (nonlinear_arith)
        requires
            e4 == w * (t * g),
            wg == w * g,
    ;
    assert(low <= k * t) by (nonlinear_arith)
        requires
            low * wg <= (k * t) * wg,
            wg > 0,
    ;
}

/// The double of a share times 100, given as `sig * 2^x`, is close to a hundred times the exact
/// quotient.
proof fn lemma_share_is_close(n: nat, total: nat)
    requires
        n > 0,
        total > 0,
    ensures
        ({
            let w = SIG_LIMIT as int;
            let a = nearest(n, 1);
            let b = nearest(total, 1);
            let q = nearest(a.sig, b.sig);
            let p = nearest(q.sig * 100, 1);
            let x = p.exp + q.exp + a.exp - b.exp;
            let up = if x >= 0 { pow2(x as nat) as int } else { 1 };
            let down = if x >= 0 { 1 } else { pow2((-x) as nat) as int };
            &&& ((w - 1) * (w - 1) * (w - 1)) * ((p.sig * up) * total) <= (100 * (w * w * (w
                + 1))) * (n * down)
            &&& (100 * (w * w * (w - 1))) * (n * down) <= ((w + 1) * (w + 1) * (w + 1)) * ((p.sig
                * up) * total)
        }),
{
    let w = SIG_LIMIT as int;
    let a = nearest(n, 1);
    let b = nearest(total, 1);
    let i1 = lemma_fills_exists(n, 1);
    let i2 = lemma_fills_exists(total, 1);
    let q = nearest(a.sig, b.sig);
    let i3 = lemma_fills_exists(a.sig, b.sig);
    let p = nearest(q.sig * 100, 1);
    let i4 = lemma_fills_exists(q.sig * 100, 1);
    let x = p.exp + q.exp + a.exp - b.exp;
    let size = |e: int| if e >= 0 { e } else { -e };
    let h = (size(a.exp) + size(b.exp) + size(q.exp) + size(p.exp)) as nat;
    let g = pow2(h) as int;
    let wa = pow2((h + a.exp) as nat) as int;
    let wb = pow2((h + b.exp) as nat) as int;
    let wq = pow2((h + q.exp) as nat) as int;
    let wp = pow2((h + p.exp) as nat) as int;
    lemma_nearest_is_close(n, 1, h);
    lemma_nearest_is_close(total, 1, h);
    lemma_nearest_is_close(a.sig, b.sig, h);
    lemma_nearest_is_close(q.sig * 100, 1, h);
    lemma_pow2_pos(h);
    lemma_pow2_pos((h + a.exp) as nat);
    lemma_pow2_pos((h + b.exp) as nat);
    lemma_pow2_pos((h + q.exp) as nat);
    lemma_pow2_pos((h + p.exp) as nat);
    assert((a.sig * wa) * 1 == a.sig * wa);
    assert((b.sig * wb) * 1 == b.sig * wb);
    assert((p.sig * wp) * 1 == p.sig * wp);
    lemma_share_at_most(
        w,
        n as int,
        total as int,
        a.sig as int,
        b.sig as int,
        q.sig as int,
        p.sig as int,
        wa,
        wb,
        wq,
        wp,
        g,
    );
    lemma_share_at_least(
        w,
        n as int,
        total as int,
        a.sig as int,
        b.sig as int,
        q.sig as int,
        p.sig as int,
        wa,
        wb,
        wq,
        wp,
        g,
    );
    // the powers of two on both sides
    let left = wp * wq * wa;
    let right = g * g * wb;
    lemma_pow2_adds((h + p.exp) as nat, (h + q.exp) as nat);
    lemma_pow2_adds((2 * h + p.exp + q.exp) as nat, (h + a.exp) as nat);
    lemma_pow2_adds(h, h);
    lemma_pow2_adds(2 * h, (h + b.exp) as nat);
    lemma_pow2_pos((3 * h + p.exp + q.exp + a.exp) as nat);
    lemma_pow2_pos((3 * h + b.exp) as nat);
    let sig = p.sig as int;
    let t = total as int;
    let c1 = (w - 1) * (w - 1) * (w - 1);
    let c2 = 100 * (w * w * (w + 1));
    let c3 = 100 * (w * w * (w - 1));
    let c4 = (w + 1) * (w + 1) * (w + 1);
    if x >= 0 {
        let up = pow2(x as nat) as int;
        lemma_pow2_adds((3 * h + b.exp) as nat, x as nat);
        assert(left == right * up);
        assert(c1 * (sig * (right * up)) * t == (c1 * ((sig * up) * t)) * right)
            by (nonlinear_arith);
        assert(c4 * (sig * (right * up)) * t == (c4 * ((sig * up) * t)) * right)
            by (nonlinear_arith);
        assert(c2 * (n * right) == (c2 * (n * 1)) * right) by (nonlinear_arith);
        assert(c3 * (n * right) == (c3 * (n * 1)) * right) by (nonlinear_arith);
        lemma_common_power(c1 * ((sig * up) * t), c2 * (n * 1), right);
        lemma_common_power(c3 * (n * 1), c4 * ((sig * up) * t), right);
    } else {
        let down = pow2((-x) as nat) as int;
        lemma_pow2_adds((3 * h + p.exp + q.exp + a.exp) as nat, (-x) as nat);
        assert(right == left * down);
        assert(c1 * (sig * left) * t == (c1 * ((sig * 1) * t)) * left) by (nonlinear_arith);
        assert(c4 * (sig * left) * t == (c4 * ((sig * 1) * t)) * left) by (nonlinear_arith);
        assert(c2 * (n * (left * down)) == (c2 * (n * down)) * left) by (nonlinear_arith);
        assert(c3 * (n * (left * down)) == (c3 * (n * down)) * left) by (nonlinear_arith);
        lemma_common_power(c1 * ((sig * 1) * t), c2 * (n * down), left);
        lemma_common_power(c3 * (n * down), c4 * ((sig * 1) * t), left);
    }
}

proof fn lemma_common_power(x: int, y: int, c: int)
    requires
        x * c <= y * c,
        c > 0,
    ensures
        x <= y,
{
    assert(x <= y) by (nonlinear_arith)
        requires
            x * c <= y * c,
            c > 0,
    ;
}

/// A share is shown as the tenth of a per cent that is nearest to the exact quotient: the two
/// differ by no more than half a tenth and, for the sake of double arithmetic, one part in 2^50 of
/// the quotient.
pub proof fn shares_are_the_nearest_tenths(n: nat, total: nat)
    requires
        total > 0,
    ensures
        9007199254740992 * (2 * (share_tenths(n, total) * total - 1000 * n) - total) <= 16000 * n,
        9007199254740992 * (2 * (1000 * n - share_tenths(n, total) * total) - total) <= 16000 * n,
{
    if n == 0 {
        lemma_scaled_zero(-nearest(total, 1).exp);
        assert(share_tenths(n, total) == 0);
        assert(0 * total == 0);
    } else {
        lemma_share_is_close(n, total);
        let w = SIG_LIMIT as int;
        let a = nearest(n, 1);
        let b = nearest(total, 1);
        let q = nearest(a.sig, b.sig);
        let p = nearest(q.sig * 100, 1);
        let x = p.exp + q.exp + a.exp - b.exp;
        let tenths = share_tenths(n, total) as int;
        let sig = p.sig as int;
        let t = total as int;
        let up = if x >= 0 { pow2(x as nat) as int } else { 1 };
        let down = if x >= 0 { 1 } else { pow2((-x) as nat) as int };
        if x >= 0 {
            moving_rounds_the_product_or_the_quotient(p.sig * 10, x as nat);
            assert((sig * 10) * up == 10 * (sig * up)) by (nonlinear_arith);
        } else {
            moving_rounds_the_product_or_the_quotient(p.sig * 10, (-x) as nat);
            lemma_pow2_pos((-x) as nat);
            rounding_goes_to_the_nearest_integer(p.sig * 10, pow2((-x) as nat));
        }
        lemma_tenths_are_close(w, n as int, t, sig * up, down, tenths);
    }
}

/// From the closeness of a double to a hundred times a quotient to that of its tenths to a
/// thousand times the quotient.
proof fn lemma_tenths_are_close(w: int, n: int, t: int, s: int, down: int, tenths: int)
    requires
        w == SIG_LIMIT,
        n > 0,
        t > 0,
        s >= 0,
        down > 0,
        2 * (tenths * down - s * 10) <= down,
        2 * (s * 10 - tenths * down) <= down,
        ((w - 1) * (w - 1) * (w - 1)) * (s * t) <= (100 * (w * w * (w + 1))) * (n * down),
        (100 * (w * w * (w - 1))) * (n * down) <= ((w + 1) * (w + 1) * (w + 1)) * (s * t),
    ensures
        w * (2 * (tenths * t - 1000 * n) - t) <= 16000 * n,
        w * (2 * (1000 * n - tenths * t) - t) <= 16000 * n,
{
    let st = s * t;
    let nd = n * down;
    let c1 = (w - 1) * (w - 1) * (w - 1);
    let c2 = w * w * (w + 1);
    let c3 = w * w * (w - 1);
    let c4 = (w + 1) * (w + 1) * (w + 1);
    assert(nd > 0) by (nonlinear_arith)
        requires
            nd == n * down,
            n > 0,
            down > 0,
    ;
    // a double is off by at most eight parts in 2^53
    assert(c2 * w <= c1 * (w + 8)) by (nonlinear_arith)
        requires
            w == 9007199254740992,
            c1 == (w - 1) * (w - 1) * (w - 1),
            c2 == w * w * (w + 1),
    ;
    assert(c4 * (w - 8) <= c3 * w) by (nonlinear_arith)
        requires
            w == 9007199254740992,
            c3 == w * w * (w - 1),
            c4 == (w + 1) * (w + 1) * (w + 1),
    ;
    assert(c1 > 0) by (nonlinear_arith)
        requires
            w == 9007199254740992,
            c1 == (w - 1) * (w - 1) * (w - 1),
    ;
    assert(c4 > 0) by (nonlinear_arith)
        requires
            w == 9007199254740992,
            c4 == (w + 1) * (w + 1) * (w + 1),
    ;
    assert(c1 * st <= c2 * (100 * nd)) by (nonlinear_arith)
        requires
            c1 * st <= (100 * c2) * nd,
    ;
    assert(c3 * (100 * nd) <= c4 * st) by (nonlinear_arith)
        requires
            (100 * c3) * nd <= c4 * st,
    ;
    lemma_ratio_above(w, c1, c2, st, 100 * nd);
    lemma_ratio_below(w, c3, c4, st, 100 * nd);
    // the tenths of it are rounded once more
    let tt = tenths * t;
    assert(2 * (tt * down) - 20 * st <= down * t && 20 * st - 2 * (tt * down) <= down * t)
        by (nonlinear_arith)
        requires
            tt == tenths * t,
            st == s * t,
            2 * (tenths * down - s * 10) <= down,
            2 * (s * 10 - tenths * down) <= down,
            t > 0,
    ;
    assert(w * (2 * (tt * down) - down * t) <= 20 * ((w + 8) * (100 * nd))) by (nonlinear_arith)
        requires
            2 * (tt * down) - 20 * st <= down * t,
            w * st <= (w + 8) * (100 * nd),
            w == 9007199254740992,
    ;
    assert(20 * ((w - 8) * (100 * nd)) <= w * (2 * (tt * down) + down * t)) by (nonlinear_arith)
        requires
            20 * st - 2 * (tt * down) <= down * t,
            (w - 8) * (100 * nd) <= w * st,
            w == 9007199254740992,
    ;
    assert((w * (2 * (tt - 1000 * n) - t)) * down == w * (2 * (tt * down) - down * t) - 2000 * (w
        * nd)) by (nonlinear_arith)
        requires
            nd == n * down,
    ;
    assert((w * (2 * (1000 * n - tt) - t)) * down == 2000 * (w * nd) - w * (2 * (tt * down) + down
        * t)) by (nonlinear_arith)
        requires
            nd == n * down,
    ;
    assert((16000 * n) * down == 16000 * nd) by (nonlinear_arith)
        requires
            nd == n * down,
    ;
    assert(20 * ((w + 8) * (100 * nd)) == 2000 * (w * nd) + 16000 * nd) by (nonlinear_arith);
    assert(20 * ((w - 8) * (100 * nd)) == 2000 * (w * nd) - 16000 * nd) by (nonlinear_arith);
    lemma_common_power(w * (2 * (tt - 1000 * n) - t), 16000 * n, down);
    lemma_common_power(w * (2 * (1000 * n - tt) - t), 16000 * n, down);
}

proof fn lemma_ratio_above(w: int, c: int, d: int, x: int, y: int)
    requires
        w > 0,
        c > 0,
        y >= 0,
        c * x <= d * y,
        d * w <= c * (w + 8),
    ensures
        w * x <= (w + 8) * y,
{
    assert((w * x) * c <= ((w + 8) * y) * c) by (nonlinear_arith)
        requires
            w > 0,
            y >= 0,
            c * x <= d * y,
            d * w <= c * (w + 8),
    ;
    lemma_common_power(w * x, (w + 8) * y, c);
}

proof fn lemma_ratio_below(w: int, c: int, d: int, x: int, y: int)
    requires
        w > 0,
        d > 0,
        y >= 0,
        c * y <= d * x,
        d * (w - 8) <= c * w,
    ensures
        (w - 8) * y <= w * x,
{
    assert(((w - 8) * y) * d <= (w * x) * d) by (nonlinear_arith)
        requires
            w > 0,
            y >= 0,
            c * y <= d * x,
            d * (w - 8) <= c * w,
    ;
    lemma_common_power((w - 8) * y, w * x, d);
}

} // verus!
