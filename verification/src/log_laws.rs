//! How close the fixed-point logarithm is to the true one.
//!
//! For `n` of 64 bits and `l = log2_fixed(n)`, `2^l <= n^(2^32) < 2^(l + 2)`: the
//! fixed-point logarithm is never above `log2 n`, and less than `2^-31` below it.

use crate::math::{keep_rate, SCALE};
use crate::weights::{
    fraction_digits, lemma_log2_bracket, log2_fixed, mantissa, neg_log2_rate, to_micro_nat,
    LN2_E12, LOG_TO_MICRO,
};
use vstd::arithmetic::logarithm::log;
use vstd::arithmetic::power::{
    lemma_pow0, lemma_pow1, lemma_pow_adds, lemma_pow_distributes, lemma_pow_multiplies,
    lemma_pow_positive, lemma_square_is_pow2, pow,
};
use vstd::arithmetic::power2::{
    lemma2_to64, lemma2_to64_rest, lemma_pow2, lemma_pow2_adds, lemma_pow2_pos,
    lemma_pow2_unfold, pow2,
};
use vstd::prelude::*;

verus! {

proof fn lemma_square_ordered(a: int, b: int)
    requires
        0 <= a <= b,
    ensures
        a * a <= b * b,
{
    assert(a * a <= b * b) by (nonlinear_arith)
        requires
            0 <= a <= b,
    ;
}

proof fn lemma_cancel(a: int, b: int, c: int)
    requires
        a * c <= b * c,
        c > 0,
    ensures
        a <= b,
{
    assert(a <= b) by (nonlinear_arith)
        requires
            a * c <= b * c,
            c > 0,
    ;
}

proof fn lemma_cancel_strict(a: int, b: int, c: int)
    requires
        a * c < b * c,
        c > 0,
    ensures
        a < b,
{
    assert(a < b) by (nonlinear_arith)
        requires
            a * c < b * c,
            c > 0,
    ;
}

/// From `m / b <= p / q` to `(m * m / b) / b <= (p / q)^2`, with the square of `m`
/// cut down to `sq`.
proof fn lemma_low_square(m: int, sq: int, p: int, q: int, b: int)
    requires
        b > 0,
        m >= 0,
        sq >= 0,
        p >= 0,
        q >= 0,
        m * q <= p * b,
        sq * b <= m * m,
    ensures
        sq * (q * q) <= (p * p) * b,
{
    let x = m * q;
    let y = p * b;
    assert(x >= 0) by (nonlinear_arith)
        requires
            x == m * q,
            m >= 0,
            q >= 0,
    ;
    lemma_square_ordered(x, y);
    assert(x * x == (m * m) * (q * q)) by (nonlinear_arith)
        requires
            x == m * q,
    ;
    assert(y * y == ((p * p) * b) * b) by (nonlinear_arith)
        requires
            y == p * b,
    ;
    let qq = q * q;
    assert(qq >= 0) by (nonlinear_arith)
        requires
            qq == q * q,
    ;
    assert((sq * b) * qq <= (m * m) * qq) by (nonlinear_arith)
        requires
            sq * b <= m * m,
            qq >= 0,
    ;
    assert((sq * b) * qq == (sq * qq) * b) by (nonlinear_arith);
    lemma_cancel(sq * qq, (p * p) * b, b);
}

/// From `p / q <= s / b` to `(p / q)^2 <= u / b`, where `s * s <= u * b`.
proof fn lemma_up_square(s: int, u: int, p: int, q: int, b: int)
    requires
        b > 0,
        s >= 0,
        u >= 0,
        p >= 0,
        q >= 0,
        p * b <= s * q,
        s * s <= u * b,
    ensures
        (p * p) * b <= u * (q * q),
{
    let x = p * b;
    let y = s * q;
    assert(x >= 0) by (nonlinear_arith)
        requires
            x == p * b,
            p >= 0,
            b > 0,
    ;
    lemma_square_ordered(x, y);
    assert(x * x == ((p * p) * b) * b) by (nonlinear_arith)
        requires
            x == p * b,
    ;
    assert(y * y == (s * s) * (q * q)) by (nonlinear_arith)
        requires
            y == s * q,
    ;
    let qq = q * q;
    assert(qq >= 0) by (nonlinear_arith)
        requires
            qq == q * q,
    ;
    assert((s * s) * qq <= (u * b) * qq) by (nonlinear_arith)
        requires
            s * s <= u * b,
            qq >= 0,
    ;
    assert((u * b) * qq == (u * qq) * b) by (nonlinear_arith);
    lemma_cancel((p * p) * b, u * qq, b);
}

/// The square of `m + delta` is at most `sq + k * delta + 1` units of `b`, where `sq`
/// is the square of `m` cut to whole units and `2 * m + delta <= k * b`.
proof fn lemma_square_slack(m: int, delta: int, sq: int, b: int, k: int)
    requires
        b > 0,
        m >= 0,
        delta >= 0,
        sq == (m * m) / b,
        2 * m + delta <= k * b,
    ensures
        (m + delta) * (m + delta) <= (sq + k * delta + 1) * b,
{
    let mm = m * m;
    assert(mm < (sq + 1) * b) by (nonlinear_arith)
        requires
            sq == mm / b,
            b > 0,
    ;
    assert((2 * m + delta) * delta <= (k * b) * delta) by (nonlinear_arith)
        requires
            2 * m + delta <= k * b,
            delta >= 0,
    ;
    assert((m + delta) * (m + delta) == mm + (2 * m + delta) * delta) by (nonlinear_arith)
        requires
            mm == m * m,
    ;
    assert((sq + k * delta + 1) * b == (sq + 1) * b + (k * b) * delta) by (nonlinear_arith);
}

/// A mantissa whose square stays below two is below one and a half.
proof fn lemma_small_square(m: int, delta: int, b: int)
    requires
        b > 0,
        m >= 0,
        0 <= delta,
        8 * delta <= b,
        (m * m) / b < 2 * b,
    ensures
        2 * m + delta <= 3 * b,
{
    let mm = m * m;
    assert(mm < (2 * b) * b) by (nonlinear_arith)
        requires
            mm / b < 2 * b,
            b > 0,
    ;
    if 2 * m + delta > 3 * b {
        assert(16 * m >= 23 * b);
        lemma_square_ordered(23 * b, 16 * m);
        assert((23 * b) * (23 * b) == 529 * (b * b)) by (nonlinear_arith);
        assert((16 * m) * (16 * m) == 256 * mm) by (nonlinear_arith)
            requires
                mm == m * m,
        ;
        assert((2 * b) * b == 2 * (b * b)) by (nonlinear_arith);
        assert(b * b > 0) by (nonlinear_arith)
            requires
                b > 0,
        ;
        assert(false);
    }
}

/// Powers of squares: `(x * x)^k` is `x^(2k)`.
proof fn lemma_pow_of_square(x: int, k: nat)
    ensures
        pow(x * x, k) == pow(x, 2 * k),
{
    lemma_square_is_pow2(x);
    lemma_pow_multiplies(x, 2, k);
}

/// Where a value `p / q` lies between the mantissa `m` and `m + delta`, both in units
/// of `2^-63`, its power `2^bits` lies between two to the digits that the mantissa
/// has and four times as much. `delta` is the room that the cutting of the squares
/// has taken so far; it grows at most threefold with each digit.
proof fn lemma_digits_bracket(m: nat, bits: nat, p: int, q: int, delta: int)
    requires
        pow2(63) <= m < pow2(64),
        p >= 0,
        q > 0,
        delta >= 0,
        m * q <= p * pow2(63),
        p * pow2(63) <= (m + delta) * q,
        (delta + 1) * pow(3, bits) <= pow2(60),
    ensures
        pow2(fraction_digits(m, bits)) * pow(q, pow2(bits)) <= pow(p, pow2(bits)),
        pow(p, pow2(bits)) < pow2(fraction_digits(m, bits) + 2) * pow(q, pow2(bits)),
    decreases bits,
{
    lemma2_to64();
    lemma2_to64_rest();
    let b: int = 0x8000_0000_0000_0000;
    lemma_pow_positive(3, bits);
    assert(delta + 1 <= pow2(60)) by (nonlinear_arith)
        requires
            (delta + 1) * pow(3, bits) <= pow2(60),
            pow(3, bits) >= 1,
            delta >= 0,
    ;
    if bits == 0 {
        lemma_pow1(p);
        lemma_pow1(q);
        assert(b * q <= m * q) by (nonlinear_arith)
            requires
                b <= m,
                q > 0,
        ;
        assert(q * b == b * q) by (nonlinear_arith);
        lemma_cancel(q, p, b);
        assert((m + delta) * q < (4 * b) * q) by (nonlinear_arith)
            requires
                m + delta < 4 * b,
                q > 0,
        ;
        assert((4 * b) * q == (4 * q) * b) by (nonlinear_arith);
        lemma_cancel_strict(p, 4 * q, b);
        assert(fraction_digits(m, bits) == 0);
        assert(pow(q, pow2(bits)) == q && pow(p, pow2(bits)) == p);
        assert(pow2(0) * q == q) by (nonlinear_arith)
            requires
                pow2(0) == 1,
        ;
        assert(pow2(2) * q == 4 * q) by (nonlinear_arith)
            requires
                pow2(2) == 4,
        ;
    } else {
        let rest = (bits - 1) as nat;
        let k = pow2(rest);
        lemma_pow2_unfold(bits);
        let mm: int = (m * m) as int;
        let sq: int = mm / b;
        assert(fraction_digits(m, bits) == if sq >= pow2(64) {
            pow2(rest) + fraction_digits((sq / 2) as nat, rest)
        } else {
            fraction_digits(sq as nat, rest)
        });
        assert(b * b <= mm && mm < (2 * b) * (2 * b)) by (nonlinear_arith)
            requires
                mm == m * m,
                b <= m < 2 * b,
                b > 0,
        ;
        assert(b <= sq && sq < 4 * b && sq * b <= mm) by (nonlinear_arith)
            requires
                sq == mm / b,
                b * b <= mm,
                mm < (2 * b) * (2 * b),
                b > 0,
        ;
        lemma_low_square(m as int, sq, p, q, b);
        let pp = p * p;
        let qq = q * q;
        assert(pp >= 0 && qq > 0) by (nonlinear_arith)
            requires
                pp == p * p,
                qq == q * q,
                q > 0,
        ;
        let next = 3 * delta + 1;
        lemma_pow_adds(3, 1, rest);
        lemma_pow1(3);
        lemma_pow_positive(3, rest);
        assert((next + 1) * pow(3, rest) <= (delta + 1) * pow(3, bits)) by (nonlinear_arith)
            requires
                next == 3 * delta + 1,
                pow(3, bits) == 3 * pow(3, rest),
                pow(3, rest) > 0,
                delta >= 0,
        ;
        lemma_pow_of_square(p, k);
        lemma_pow_of_square(q, k);
        if sq < pow2(64) {
            lemma_small_square(m as int, delta, b);
            lemma_square_slack(m as int, delta, sq, b, 3);
            lemma_up_square(m + delta, sq + 3 * delta + 1, p, q, b);
            lemma_digits_bracket(sq as nat, rest, pp, qq, next);
            assert(pow2(bits) == 2 * k);
            assert(pow(q, pow2(bits)) == pow(qq, k));
            assert(pow(p, pow2(bits)) == pow(pp, k));
            assert(fraction_digits(m, bits) == fraction_digits(sq as nat, rest));
        } else {
            let half = sq / 2;
            lemma_square_slack(m as int, delta, sq, b, 5);
            lemma_up_square(m + delta, sq + 5 * delta + 1, p, q, b);
            let qq2 = 2 * qq;
            assert(half * qq2 <= sq * qq) by (nonlinear_arith)
                requires
                    half == sq / 2,
                    qq2 == 2 * qq,
                    qq > 0,
            ;
            assert((sq + 5 * delta + 1) * qq <= (half + next) * qq2) by (nonlinear_arith)
                requires
                    half == sq / 2,
                    next == 3 * delta + 1,
                    qq2 == 2 * qq,
                    qq > 0,
                    delta >= 0,
            ;
            lemma_digits_bracket(half as nat, rest, pp, qq2, next);
            let d = fraction_digits(half as nat, rest);
            lemma_pow_distributes(2, qq, k);
            lemma_pow2(k);
            lemma_pow2_adds(k, d);
            lemma_pow2_adds(k, d + 2);
            let pk = pow(qq, k);
            assert(pow2(k + d) * pk == pow2(d) * (pow2(k) * pk)) by (nonlinear_arith)
                requires
                    pow2(k + d) == pow2(k) * pow2(d),
            ;
            assert(pow2(k + d + 2) * pk == pow2(d + 2) * (pow2(k) * pk)) by (nonlinear_arith)
                requires
                    pow2(k + (d + 2)) == pow2(k) * pow2(d + 2),
            ;
            assert(pow2(bits) == 2 * k);
            assert(pow(q, pow2(bits)) == pk);
            assert(pow(p, pow2(bits)) == pow(pp, k));
            assert(pow(qq2, k) == pow2(k) * pk);
            assert(fraction_digits(m, bits) == k + d);
        }
    }
}

proof fn lemma_three_to_32()
    ensures
        pow(3, 32) == 1_853_020_188_851_841,
{
    lemma_pow1(3);
    let a1 = pow(3, 1);
    let a2 = pow(3, 2);
    let a4 = pow(3, 4);
    let a8 = pow(3, 8);
    let a16 = pow(3, 16);
    let a32 = pow(3, 32);
    assert(a2 == a1 * a1) by {
        lemma_pow_adds(3, 1, 1);
    }
    assert(a4 == a2 * a2) by {
        lemma_pow_adds(3, 2, 2);
    }
    assert(a8 == a4 * a4) by {
        lemma_pow_adds(3, 4, 4);
    }
    assert(a16 == a8 * a8) by {
        lemma_pow_adds(3, 8, 8);
    }
    assert(a32 == a16 * a16) by {
        lemma_pow_adds(3, 16, 16);
    }
    assert(a2 == 9) by (nonlinear_arith)
        requires
            a2 == a1 * a1,
            a1 == 3,
    ;
    assert(a4 == 81) by (nonlinear_arith)
        requires
            a4 == a2 * a2,
            a2 == 9,
    ;
    assert(a8 == 6561) by (nonlinear_arith)
        requires
            a8 == a4 * a4,
            a4 == 81,
    ;
    assert(a16 == 43_046_721) by (nonlinear_arith)
        requires
            a16 == a8 * a8,
            a8 == 6561,
    ;
    assert(a32 == 1_853_020_188_851_841) by (nonlinear_arith)
        requires
            a32 == a16 * a16,
            a16 == 43_046_721,
    ;
}

/// A power of a power of two is a power of two.
proof fn lemma_pow_of_pow2(x: nat, s: nat)
    ensures
        pow(pow2(x) as int, s) == pow2(x * s),
{
    lemma_pow2(x);
    lemma_pow2(x * s);
    lemma_pow_multiplies(2, x, s);
}

/// The fixed-point logarithm is close to the true one: with `l = log2_fixed(n)`,
/// `2^l <= n^(2^32) < 2^(l + 2)`. So `l / 2^32` is never above `log2 n`, and less than
/// `2^-31` below it.
pub proof fn lemma_log2_fixed_is_close(n: nat)
    requires
        1 <= n < pow2(64),
    ensures
        pow2(log2_fixed(n)) <= pow(n as int, pow2(32)),
        pow(n as int, pow2(32)) < pow2(log2_fixed(n) + 2),
{
    lemma2_to64();
    lemma2_to64_rest();
    lemma_log2_bracket(n);
    let e = log(2, n as int) as nat;
    if e + 1 > 64 {
        vstd::arithmetic::power2::lemma_pow2_strictly_increases(64, e);
    }
    assert(e <= 63);
    let up = (63 - e) as nat;
    let shift = pow2(up);
    let m = mantissa(n);
    let s = pow2(32);
    let b = pow2(63);
    lemma_pow2_pos(up);
    lemma_pow2_adds(e, up);
    lemma_pow2_adds(e + 1, up);
    lemma_pow2_unfold(64);
    assert(pow2(e) * shift <= n * shift && n * shift < pow2(e + 1) * shift) by (nonlinear_arith)
        requires
            pow2(e) <= n < pow2(e + 1),
            shift > 0,
    ;
    assert(pow2(63) <= m < pow2(64));
    lemma_three_to_32();
    assert((0 + 1) * pow(3, 32) <= pow2(60));
    lemma_digits_bracket(m, 32, m as int, b as int, 0);
    let d = fraction_digits(m, 32);
    // in powers of two: b^s, shift^s and the powers of the whole part
    lemma_pow_of_pow2(63, s);
    lemma_pow_of_pow2(up, s);
    lemma_pow_distributes(n as int, shift as int, s);
    let high = up * s;
    let whole = e * s;
    assert(63 * s == whole + high) by (nonlinear_arith)
        requires
            whole == e * s,
            high == up * s,
            up == 63 - e,
    ;
    lemma_pow2_adds(whole, high);
    lemma_pow2_adds(d, whole);
    lemma_pow2_adds(d + 2, whole);
    lemma_pow2_pos(high);
    let t = pow2(high) as int;
    let x = pow(n as int, s);
    assert(pow(m as int, s) == x * t);
    assert(pow(b as int, s) == pow2(whole) * t);
    assert((pow2(d) * pow2(whole)) * t == pow2(d) * (pow2(whole) * t)) by (nonlinear_arith);
    assert((pow2(d + 2) * pow2(whole)) * t == pow2(d + 2) * (pow2(whole) * t))
        by (nonlinear_arith);
    lemma_cancel((pow2(d) * pow2(whole)) as int, x, t);
    lemma_cancel_strict(x, (pow2(d + 2) * pow2(whole)) as int, t);
    assert(log2_fixed(n) == whole + d);
}

/// The product of two numbers between powers of two lies between the products of the powers.
proof fn lemma_product_bracket(low_a: int, a: int, high_a: int, low_b: int, b: int, high_b: int)
    requires
        0 < low_a <= a < high_a,
        0 < low_b <= b < high_b,
    ensures
        low_a * low_b <= a * b < high_a * high_b,
{
    assert(low_a * low_b <= a * b && a * b < high_a * high_b) by (nonlinear_arith)
        requires
            0 < low_a <= a < high_a,
            0 < low_b <= b < high_b,
    ;
}

/// The logarithm of a rate is close to the true one. With `q` the fixed-point
/// logarithm of `reserve_in * 10^6 / (reserve_out * kept)`, where `kept` is what the
/// fee leaves of a million, the power `2^32` of this ratio lies between `2^(q - 4)`
/// and `2^(q + 4)`: `q / 2^32` is less than `2^-30` away from minus the base-2
/// logarithm of the rate. The bounds are written without division: `q` is `up - down`.
pub proof fn lemma_rate_logarithm_is_close(reserve_in: nat, reserve_out: nat, fee: nat)
    requires
        1 <= reserve_in <= u64::MAX,
        1 <= reserve_out <= u64::MAX,
        fee < SCALE,
    ensures
        ({
            let up = log2_fixed(reserve_in) + log2_fixed(SCALE as nat);
            let down = log2_fixed(reserve_out) + log2_fixed(keep_rate(fee));
            let base = (reserve_in * SCALE) as int;
            let rate = (reserve_out * keep_rate(fee)) as int;
            &&& neg_log2_rate(reserve_in, reserve_out, fee) == up - down
            &&& pow2(up) * pow(rate, pow2(32)) < pow(base, pow2(32)) * pow2(down + 4)
            &&& pow(base, pow2(32)) * pow2(down) < pow2(up + 4) * pow(rate, pow2(32))
        }),
{
    lemma2_to64();
    let s = pow2(32);
    let kept = keep_rate(fee);
    let scale = SCALE as nat;
    lemma_log2_fixed_is_close(reserve_in);
    lemma_log2_fixed_is_close(scale);
    lemma_log2_fixed_is_close(reserve_out);
    lemma_log2_fixed_is_close(kept);
    let (la, lb, lc, ld) = (
        log2_fixed(reserve_in),
        log2_fixed(scale),
        log2_fixed(reserve_out),
        log2_fixed(kept),
    );
    lemma_pow_distributes(reserve_in as int, scale as int, s);
    lemma_pow_distributes(reserve_out as int, kept as int, s);
    lemma_pow2_adds(la, lb);
    lemma_pow2_adds(la + 2, lb + 2);
    lemma_pow2_adds(lc, ld);
    lemma_pow2_adds(lc + 2, ld + 2);
    lemma_pow2_pos(la);
    lemma_pow2_pos(lb);
    lemma_pow2_pos(lc);
    lemma_pow2_pos(ld);
    lemma_product_bracket(
        pow2(la) as int,
        pow(reserve_in as int, s),
        pow2(la + 2) as int,
        pow2(lb) as int,
        pow(scale as int, s),
        pow2(lb + 2) as int,
    );
    lemma_product_bracket(
        pow2(lc) as int,
        pow(reserve_out as int, s),
        pow2(lc + 2) as int,
        pow2(ld) as int,
        pow(kept as int, s),
        pow2(ld + 2) as int,
    );
    let up = la + lb;
    let down = lc + ld;
    let base = pow((reserve_in * scale) as int, s);
    let rate = pow((reserve_out * kept) as int, s);
    assert(pow2(up) <= base < pow2(up + 4));
    assert(pow2(down) <= rate < pow2(down + 4));
    lemma_pow2_pos(up);
    lemma_pow2_pos(down);
    assert(pow2(up) * rate < base * pow2(down + 4)) by (nonlinear_arith)
        requires
            0 < pow2(up) <= base,
            0 < rate < pow2(down + 4),
    ;
    assert(base * pow2(down) < pow2(up + 4) * rate) by (nonlinear_arith)
        requires
            0 < base < pow2(up + 4),
            0 < pow2(down) <= rate,
    ;
}

/// Product of the denominators of the rates of the hops, each the reserve on the input
/// side times a million.
pub open spec fn rate_base(hops: Seq<(u64, u64)>) -> int
    decreases hops.len(),
{
    if hops.len() == 0 {
        1
    } else {
        rate_base(hops.drop_last()) * (hops.last().0 * SCALE)
    }
}

/// Product of the numerators of the rates of the hops, each the reserve on the output
/// side times what the fee leaves of a million. The product of the rates is
/// `rate_gain / rate_base`.
pub open spec fn rate_gain(hops: Seq<(u64, u64)>, fee: nat) -> int
    decreases hops.len(),
{
    if hops.len() == 0 {
        1
    } else {
        rate_gain(hops.drop_last(), fee) * (hops.last().1 * keep_rate(fee))
    }
}

/// Sum of the weights of the hops, in millionths.
pub open spec fn weight_sum(hops: Seq<(u64, u64)>, fee: nat) -> int
    decreases hops.len(),
{
    if hops.len() == 0 {
        0
    } else {
        weight_sum(hops.drop_last(), fee) + to_micro_nat(
            neg_log2_rate(hops.last().0 as nat, hops.last().1 as nat, fee),
        )
    }
}

/// Sum of the fixed-point logarithms of the denominators of the rates.
pub open spec fn up_sum(hops: Seq<(u64, u64)>) -> nat
    decreases hops.len(),
{
    if hops.len() == 0 {
        0
    } else {
        up_sum(hops.drop_last()) + log2_fixed(hops.last().0 as nat) + log2_fixed(SCALE as nat)
    }
}

/// Sum of the fixed-point logarithms of the numerators of the rates.
pub open spec fn down_sum(hops: Seq<(u64, u64)>, fee: nat) -> nat
    decreases hops.len(),
{
    if hops.len() == 0 {
        0
    } else {
        down_sum(hops.drop_last(), fee) + log2_fixed(hops.last().1 as nat) + log2_fixed(
            keep_rate(fee),
        )
    }
}

/// Every hop has something on both sides.
pub open spec fn all_funded(hops: Seq<(u64, u64)>) -> bool {
    forall|i: int| 0 <= i < hops.len() ==> (#[trigger] hops[i]).0 >= 1 && hops[i].1 >= 1
}

/// The powers `2^32` of the two products lie within `4` binary digits a hop of what
/// the sums of the logarithms say.
proof fn lemma_products_are_close(hops: Seq<(u64, u64)>, fee: nat)
    requires
        all_funded(hops),
        fee < SCALE,
    ensures
        rate_base(hops) >= 1,
        rate_gain(hops, fee) >= 1,
        pow2(up_sum(hops)) * pow(rate_gain(hops, fee), pow2(32)) <= pow(
            rate_base(hops),
            pow2(32),
        ) * pow2(down_sum(hops, fee) + 4 * hops.len()),
        pow(rate_base(hops), pow2(32)) * pow2(down_sum(hops, fee)) <= pow2(
            up_sum(hops) + 4 * hops.len(),
        ) * pow(rate_gain(hops, fee), pow2(32)),
    decreases hops.len(),
{
    let s = pow2(32);
    lemma2_to64();
    if hops.len() == 0 {
        lemma_pow_base_one(s);
    } else {
        let front = hops.drop_last();
        let hop = hops.last();
        assert(all_funded(front)) by {
            assert forall|i: int| 0 <= i < front.len() implies (#[trigger] front[i]).0 >= 1
                && front[i].1 >= 1 by {
                assert(front[i] == hops[i]);
            }
        }
        assert(hop.0 >= 1 && hop.1 >= 1);
        lemma_products_are_close(front, fee);
        lemma_rate_logarithm_is_close(hop.0 as nat, hop.1 as nat, fee);
        let up = log2_fixed(hop.0 as nat) + log2_fixed(SCALE as nat);
        let down = log2_fixed(hop.1 as nat) + log2_fixed(keep_rate(fee));
        let base = (hop.0 * SCALE) as int;
        let rate = (hop.1 * keep_rate(fee)) as int;
        assert(base >= 1 && rate >= 1) by (nonlinear_arith)
            requires
                base == hop.0 * SCALE,
                rate == hop.1 * keep_rate(fee),
                hop.0 >= 1,
                hop.1 >= 1,
                SCALE >= 1,
                keep_rate(fee) >= 1,
        ;
        let (fb, fg) = (rate_base(front), rate_gain(front, fee));
        let (fu, fd) = (up_sum(front), down_sum(front, fee));
        let k4 = 4 * front.len();
        assert(fb * base >= 1 && fg * rate >= 1) by (nonlinear_arith)
            requires
                fb >= 1,
                base >= 1,
                fg >= 1,
                rate >= 1,
        ;
        lemma_pow_distributes(fb, base, s);
        lemma_pow_distributes(fg, rate, s);
        lemma_pow2_adds(fu, up);
        lemma_pow2_adds(fd, down);
        lemma_pow2_adds(fd + k4, down + 4);
        lemma_pow2_adds(fu + k4, up + 4);
        lemma_pow_positive(fb, s);
        lemma_pow_positive(fg, s);
        lemma_pow_positive(base, s);
        lemma_pow_positive(rate, s);
        lemma_pow2_pos(fu);
        lemma_pow2_pos(fd);
        lemma_pow2_pos(up);
        lemma_pow2_pos(down);
        lemma_pow2_pos(fd + k4);
        lemma_pow2_pos(fu + k4);
        lemma_pow2_pos(up + 4);
        lemma_pow2_pos(down + 4);
        let (pfb, pfg, pb, pr) = (pow(fb, s), pow(fg, s), pow(base, s), pow(rate, s));
        lemma_four_products(
            pow2(fu) as int,
            pfg,
            pfb,
            pow2(fd + k4) as int,
            pow2(up) as int,
            pr,
            pb,
            pow2(down + 4) as int,
        );
        lemma_four_products(
            pfb,
            pow2(fd) as int,
            pow2(fu + k4) as int,
            pfg,
            pb,
            pow2(down) as int,
            pow2(up + 4) as int,
            pr,
        );
        assert(up_sum(hops) == fu + up);
        assert(down_sum(hops, fee) == fd + down);
    }
}

/// Where `a * b <= c * d` and `e * f <= g * h`, all positive, the products of the left
/// sides are at most the products of the right sides.
proof fn lemma_four_products(a: int, b: int, c: int, d: int, e: int, f: int, g: int, h: int)
    requires
        a > 0,
        b > 0,
        c > 0,
        d > 0,
        e > 0,
        f > 0,
        g > 0,
        h > 0,
        a * b <= c * d,
        e * f <= g * h,
    ensures
        (a * e) * (b * f) <= (c * g) * (d * h),
{
    let x = a * b;
    let y = c * d;
    let z = e * f;
    let w = g * h;
    assert(x > 0 && z > 0) by (nonlinear_arith)
        requires
            x == a * b,
            z == e * f,
            a > 0,
            b > 0,
            e > 0,
            f > 0,
    ;
    assert(x * z <= y * w) by (nonlinear_arith)
        requires
            0 < x <= y,
            0 < z <= w,
    ;
    assert((a * e) * (b * f) == x * z) by (nonlinear_arith)
        requires
            x == a * b,
            z == e * f,
    ;
    assert((c * g) * (d * h) == y * w) by (nonlinear_arith)
        requires
            y == c * d,
            w == g * h,
    ;
}

proof fn lemma_pow_base_one(e: nat)
    ensures
        pow(1, e) == 1,
{
    vstd::arithmetic::power::lemma1_pow(e);
}

/// A larger base never has a smaller power.
proof fn lemma_pow_base_ordered(a: int, b: int, e: nat)
    requires
        0 <= a <= b,
    ensures
        0 <= pow(a, e) <= pow(b, e),
    decreases e,
{
    if e == 0 {
        lemma_pow0(a);
        lemma_pow0(b);
    } else {
        lemma_pow_base_ordered(a, b, (e - 1) as nat);
        lemma_pow_adds(a, 1, (e - 1) as nat);
        lemma_pow_adds(b, 1, (e - 1) as nat);
        lemma_pow1(a);
        lemma_pow1(b);
        let x = pow(a, (e - 1) as nat);
        let y = pow(b, (e - 1) as nat);
        assert(0 <= a * x && a * x <= b * y) by (nonlinear_arith)
            requires
                0 <= a <= b,
                0 <= x <= y,
        ;
    }
}

/// The weights of the hops add up to the changed units of the sum of the logarithms,
/// give or take one for each hop.
proof fn lemma_weight_sum_is_close(hops: Seq<(u64, u64)>, fee: nat)
    ensures
        ({
            let q = up_sum(hops) - down_sum(hops, fee);
            &&& q * LN2_E12 <= (weight_sum(hops, fee) + hops.len()) * LOG_TO_MICRO
            &&& q * LN2_E12 >= (weight_sum(hops, fee) - hops.len()) * LOG_TO_MICRO
        }),
    decreases hops.len(),
{
    let a = LN2_E12 as int;
    let d = LOG_TO_MICRO as int;
    if hops.len() > 0 {
        let front = hops.drop_last();
        let hop = hops.last();
        lemma_weight_sum_is_close(front, fee);
        let l = neg_log2_rate(hop.0 as nat, hop.1 as nat, fee);
        let w = to_micro_nat(l);
        assert(l * a < (w + 1) * d && l * a > (w - 1) * d) by (nonlinear_arith)
            requires
                w == if l >= 0 {
                    l * a / d
                } else {
                    -((-l) * a / d)
                },
                a > 0,
                d > 0,
        ;
        let fq = up_sum(front) - down_sum(front, fee);
        let fw = weight_sum(front, fee);
        let n = front.len() as int;
        assert((fq + l) * a <= (fw + w + n + 1) * d) by (nonlinear_arith)
            requires
                fq * a <= (fw + n) * d,
                l * a < (w + 1) * d,
        ;
        assert((fq + l) * a >= (fw + w - n - 1) * d) by (nonlinear_arith)
            requires
                fq * a >= (fw - n) * d,
                l * a > (w - 1) * d,
        ;
    }
}

/// A cycle of negative weight is a cycle of gain. Where the weights of up to a
/// thousand hops, each between funded reserves, add up to less than minus the number
/// of hops, the rates of the hops multiply to more than one: the product of their
/// numerators is above the product of their denominators.
pub proof fn lemma_negative_weight_means_gain(hops: Seq<(u64, u64)>, fee: nat)
    requires
        all_funded(hops),
        fee < SCALE,
        1 <= hops.len() <= 1000,
        weight_sum(hops, fee) < -hops.len(),
    ensures
        rate_base(hops) < rate_gain(hops, fee),
{
    let s = pow2(32);
    let k = hops.len() as int;
    let up = up_sum(hops);
    let down = down_sum(hops, fee);
    lemma_products_are_close(hops, fee);
    lemma_weight_sum_is_close(hops, fee);
    let q = up - down;
    let slack = weight_sum(hops, fee) + k;
    assert(slack * 4_294_967_296_000_000 <= -4_294_967_296_000_000) by (nonlinear_arith)
        requires
            slack <= -1,
    ;
    assert(q < -4 * k) by (nonlinear_arith)
        requires
            q * 693_147_180_560 <= -4_294_967_296_000_000,
            1 <= k <= 1000,
    ;
    // 2^(up + 4k) is at most half of 2^down
    let low = (up + 4 * k) as nat;
    let gap = (down - low) as nat;
    lemma_pow2_adds(low, gap);
    lemma_pow2_pos(low);
    lemma_pow2_unfold(gap);
    lemma_pow2_pos((gap - 1) as nat);
    let base = pow(rate_base(hops), s);
    let gain = pow(rate_gain(hops, fee), s);
    lemma_pow_positive(rate_base(hops), s);
    lemma_pow_positive(rate_gain(hops, fee), s);
    assert(base * (pow2(low) * pow2(gap)) <= pow2(low) * gain);
    assert(base * 2 <= gain) by (nonlinear_arith)
        requires
            base * (pow2(low) * pow2(gap)) <= pow2(low) * gain,
            pow2(low) > 0,
            pow2(gap) >= 2,
            base > 0,
    ;
    if rate_base(hops) >= rate_gain(hops, fee) {
        lemma_pow_base_ordered(rate_gain(hops, fee), rate_base(hops), s);
        assert(false);
    }
}

/// A cycle of positive weight is a cycle of loss. Where the weights of up to a
/// thousand hops, each between funded reserves, add up to more than the number of
/// hops, the rates of the hops multiply to less than one.
pub proof fn lemma_positive_weight_means_loss(hops: Seq<(u64, u64)>, fee: nat)
    requires
        all_funded(hops),
        fee < SCALE,
        1 <= hops.len() <= 1000,
        weight_sum(hops, fee) > hops.len(),
    ensures
        rate_gain(hops, fee) < rate_base(hops),
{
    let s = pow2(32);
    let k = hops.len() as int;
    let up = up_sum(hops);
    let down = down_sum(hops, fee);
    lemma_products_are_close(hops, fee);
    lemma_weight_sum_is_close(hops, fee);
    let q = up - down;
    let slack = weight_sum(hops, fee) - k;
    assert(slack * 4_294_967_296_000_000 >= 4_294_967_296_000_000) by (nonlinear_arith)
        requires
            slack >= 1,
    ;
    assert(q > 4 * k) by (nonlinear_arith)
        requires
            q * 693_147_180_560 >= 4_294_967_296_000_000,
            1 <= k <= 1000,
    ;
    let low = (down + 4 * k) as nat;
    let gap = (up - low) as nat;
    lemma_pow2_adds(low, gap);
    lemma_pow2_pos(low);
    lemma_pow2_unfold(gap);
    lemma_pow2_pos((gap - 1) as nat);
    let base = pow(rate_base(hops), s);
    let gain = pow(rate_gain(hops, fee), s);
    lemma_pow_positive(rate_base(hops), s);
    lemma_pow_positive(rate_gain(hops, fee), s);
    assert((pow2(low) * pow2(gap)) * gain <= base * pow2(low));
    assert(gain * 2 <= base) by (nonlinear_arith)
        requires
            (pow2(low) * pow2(gap)) * gain <= base * pow2(low),
            pow2(low) > 0,
            pow2(gap) >= 2,
            gain > 0,
    ;
    if rate_gain(hops, fee) >= rate_base(hops) {
        lemma_pow_base_ordered(rate_base(hops), rate_gain(hops, fee), s);
        assert(false);
    }
}

} // verus!
