//! Fixed-point logarithms, from which the search weights of a pool are made.

use vstd::arithmetic::logarithm::{lemma_log0, lemma_log_is_ordered, lemma_log_s, log};
use vstd::arithmetic::power2::{lemma2_to64, lemma2_to64_rest, lemma_pow2_pos, lemma_pow2_strictly_increases, lemma_pow2_unfold, pow2};
use vstd::prelude::*;

verus! {

/// Number of binary digits kept behind the point of a base-2 logarithm.
pub const LOG_FRACTION_BITS: u32 = 32;

/// The natural logarithm of 2, in units of 10^-12.
pub const LN2_E12: u128 = 693_147_180_560;

/// What a base-2 logarithm with 32 binary digits is divided by, after it has been
/// multiplied by `LN2_E12`, to give millionths: 2^32 * 10^6.
pub const LOG_TO_MICRO: u128 = 4_294_967_296_000_000;

/// Weight of a directed edge: a fixed-point number of millionths, or infinite for an
/// edge that the search must never take.
#[derive(Clone, Copy, Debug, PartialEq, Eq, Structural)]
pub enum Weight {
    Finite(i64),
    Infinite,
}

/// Digits of the base-2 logarithm behind the point, `bits` of them, of a number whose
/// 64-bit mantissa is `m` (so `2^63 <= m < 2^64` stands for a value in `[1, 2)`):
/// squaring the value shifts its logarithm one digit to the left, and the digit that
/// crosses the point is 1 exactly when the square reaches 2. Each square is cut to 64 bits.
pub open spec fn fraction_digits(m: nat, bits: nat) -> nat
    decreases bits,
{
    if bits == 0 {
        0
    } else {
        let square = m * m / pow2(63);
        if square >= pow2(64) {
            pow2((bits - 1) as nat) + fraction_digits(square / 2, (bits - 1) as nat)
        } else {
            fraction_digits(square, (bits - 1) as nat)
        }
    }
}

/// The 64-bit mantissa of `n`: `n` scaled by the power of two that brings it into
/// `[2^63, 2^64)`.
pub open spec fn mantissa(n: nat) -> nat {
    n * pow2((63 - log(2, n as int)) as nat)
}

/// Base-2 logarithm of `n` as a fixed-point number with 32 binary digits behind the
/// point: the whole part is the exact `floor(log2 n)`, the digits follow from the mantissa.
pub open spec fn log2_fixed(n: nat) -> nat {
    (log(2, n as int) as nat) * pow2(32) + fraction_digits(mantissa(n), 32)
}

/// The digits behind the point are fewer than would make a whole.
pub proof fn lemma_fraction_digits_bound(m: nat, bits: nat)
    ensures
        fraction_digits(m, bits) < pow2(bits),
    decreases bits,
{
    if bits == 0 {
        lemma2_to64();
    } else {
        lemma2_to64();
        lemma2_to64_rest();
        let square = m * m / pow2(63);
        let rest = (bits - 1) as nat;
        lemma_pow2_unfold(bits);
        if square >= pow2(64) {
            lemma_fraction_digits_bound(square / 2, rest);
        } else {
            lemma_fraction_digits_bound(square, rest);
        }
    }
}

/// A larger mantissa never has smaller digits.
pub proof fn lemma_fraction_digits_ordered(m: nat, larger: nat, bits: nat)
    requires
        m <= larger,
    ensures
        fraction_digits(m, bits) <= fraction_digits(larger, bits),
    decreases bits,
{
    if bits > 0 {
        lemma2_to64();
        lemma2_to64_rest();
        let square = m * m / pow2(63);
        let larger_square = larger * larger / pow2(63);
        lemma_pow2_pos(63);
        assert(m * m <= larger * larger) by (nonlinear_arith)
            requires
                m <= larger,
        ;
        assert(square <= larger_square) by (nonlinear_arith)
            requires
                square == m * m / pow2(63),
                larger_square == larger * larger / pow2(63),
                m * m <= larger * larger,
                pow2(63) > 0,
        ;
        if larger_square >= pow2(64) {
            if square >= pow2(64) {
                lemma_fraction_digits_ordered(square / 2, larger_square / 2, (bits - 1) as nat);
            } else {
                lemma_fraction_digits_bound(square, (bits - 1) as nat);
            }
        } else {
            lemma_fraction_digits_ordered(square, larger_square, (bits - 1) as nat);
        }
    }
}

/// The mantissa of a power of two has no digits behind the point.
pub proof fn lemma_fraction_digits_of_one(bits: nat)
    ensures
        fraction_digits(pow2(63), bits) == 0,
    decreases bits,
{
    if bits > 0 {
        lemma2_to64();
        lemma2_to64_rest();
        lemma_pow2_pos(63);
        lemma_pow2_unfold(64);
        assert(pow2(63) * pow2(63) / pow2(63) == pow2(63)) by (nonlinear_arith)
            requires
                pow2(63) > 0,
        ;
        lemma_fraction_digits_of_one((bits - 1) as nat);
    }
}

/// The whole part of the fixed-point logarithm is the exact `floor(log2 n)`: the
/// logarithm lies between it and the next whole number.
pub proof fn lemma_log2_fixed_bracket(n: nat)
    ensures
        log(2, n as int) * pow2(32) <= log2_fixed(n) < (log(2, n as int) + 1) * pow2(32),
{
    lemma_fraction_digits_bound(mantissa(n), 32);
    vstd::arithmetic::logarithm::lemma_log_nonnegative(2, n as int);
    assert((log(2, n as int) + 1) * pow2(32) == log(2, n as int) * pow2(32) + pow2(32))
        by (nonlinear_arith);
}

/// The fixed-point logarithm of a power of two is exact.
pub proof fn lemma_log2_fixed_of_power(k: nat)
    requires
        k <= 63,
    ensures
        log2_fixed(pow2(k)) == k * pow2(32),
{
    vstd::arithmetic::power2::lemma_pow2(k);
    vstd::arithmetic::logarithm::lemma_log_pow(2, k);
    vstd::arithmetic::power2::lemma_pow2_adds(k, (63 - k) as nat);
    lemma_fraction_digits_of_one(32);
}

/// Where `floor(log2 n)` is `e`, `n` lies between the powers of two around it.
pub proof fn lemma_log2_bracket(n: nat)
    requires
        n >= 1,
    ensures
        pow2(log(2, n as int) as nat) <= n < pow2((log(2, n as int) + 1) as nat),
        log(2, n as int) >= 0,
    decreases n,
{
    lemma2_to64();
    if n < 2 {
        lemma_log0(2, n as int);
    } else {
        lemma_log_s(2, n as int);
        lemma_log2_bracket(n / 2);
        let e = log(2, (n / 2) as int) as nat;
        lemma_pow2_unfold(e + 1);
        lemma_pow2_unfold(e + 2);
    }
}

/// The fixed-point logarithm is monotone: a larger number never has a smaller one.
pub proof fn lemma_log2_fixed_ordered(n: nat, larger: nat)
    requires
        1 <= n <= larger,
        larger < pow2(64),
    ensures
        log2_fixed(n) <= log2_fixed(larger),
{
    lemma_log_is_ordered(2, n as int, larger as int);
    lemma_log2_bracket(n);
    lemma_log2_bracket(larger);
    let e = log(2, n as int);
    let f = log(2, larger as int);
    if e < f {
        lemma_log2_fixed_bracket(n);
        lemma_log2_fixed_bracket(larger);
        assert((e + 1) * pow2(32) <= f * pow2(32)) by (nonlinear_arith)
            requires
                e + 1 <= f,
                pow2(32) >= 0,
        ;
    } else {
        if f + 1 > 64 {
            lemma_pow2_strictly_increases(64, f as nat);
        }
        let shift = pow2((63 - e) as nat);
        assert(n * shift <= larger * shift) by (nonlinear_arith)
            requires
                n <= larger,
                shift >= 0,
        ;
        lemma_fraction_digits_ordered(mantissa(n), mantissa(larger), 32);
    }
}

/// `floor(log2 n)`.
pub fn floor_log2(n: u64) -> (e: u32)
    requires
        n >= 1,
    ensures
        e == log(2, n as int),
        e <= 63,
        pow2(e as nat) <= n < pow2((e + 1) as nat),
{
    let mut e: u32 = 0;
    let mut rest: u64 = n;
    proof {
        lemma2_to64();
    }
    while rest >= 2
        invariant
            rest >= 1,
            e <= 63,
            log(2, n as int) == e + log(2, rest as int),
            rest * pow2(e as nat) <= n,
            n < (rest + 1) * pow2(e as nat),
        decreases rest,
    {
        proof {
            lemma_log_s(2, rest as int);
            lemma_pow2_unfold((e + 1) as nat);
            let p = pow2(e as nat);
            let half = rest / 2;
            assert(half * (2 * p) <= rest * p) by (nonlinear_arith)
                requires
                    half == rest / 2,
                    p >= 0,
            ;
            assert((rest + 1) * p <= (half + 1) * (2 * p)) by (nonlinear_arith)
                requires
                    half == rest / 2,
                    p >= 0,
            ;
            if e >= 63 {
                lemma2_to64_rest();
                if e + 1 > 64 {
                    lemma_pow2_strictly_increases(64, (e + 1) as nat);
                }
                assert(half * (2 * p) >= 2 * p) by (nonlinear_arith)
                    requires
                        half >= 1,
                        p >= 0,
                ;
                assert(false);
            }
        }
        rest = rest / 2;
        e = e + 1;
    }
    proof {
        lemma_log0(2, rest as int);
        lemma_pow2_unfold((e + 1) as nat);
        assert(rest == 1);
        assert(1 * pow2(e as nat) == pow2(e as nat)) by (nonlinear_arith);
        assert((1 + 1) * pow2(e as nat) == 2 * pow2(e as nat)) by (nonlinear_arith);
    }
    e
}

/// Base-2 logarithm of `n` with 32 binary digits behind the point.
pub fn log2_q32(n: u64) -> (l: u64)
    requires
        n >= 1,
    ensures
        l == log2_fixed(n as nat),
        l < 64 * pow2(32),
{
    let e = floor_log2(n);
    // bring n into [2^63, 2^64)
    let mut m: u64 = n;
    let mut k: u32 = e;
    proof {
        lemma2_to64();
        lemma2_to64_rest();
        assert(n * pow2(0) == n) by (nonlinear_arith)
            requires
                pow2(0) == 1,
        ;
    }
    while k < 63
        invariant
            e <= k <= 63,
            m == n * pow2((k - e) as nat),
            pow2(k as nat) <= m < pow2((k + 1) as nat),
        decreases 63 - k,
    {
        proof {
            lemma_pow2_unfold((k + 1 - e) as nat);
            lemma_pow2_unfold((k + 1) as nat);
            lemma_pow2_unfold((k + 2) as nat);
            lemma2_to64_rest();
            if k + 1 < 63 {
                lemma_pow2_strictly_increases((k + 1) as nat, 63);
            }
            assert(n * (2 * pow2((k - e) as nat)) == 2 * (n * pow2((k - e) as nat)))
                by (nonlinear_arith);
        }
        m = m * 2;
        k = k + 1;
    }
    assert(m == mantissa(n as nat));
    let ghost m0 = m as nat;
    let mut digits: u64 = 0;
    let mut i: u32 = 0;
    while i < 32
        invariant
            i <= 32,
            pow2(63) <= m < pow2(64),
            digits < pow2(i as nat),
            fraction_digits(m0, 32) == digits * pow2((32 - i) as nat) + fraction_digits(
                m as nat,
                (32 - i) as nat,
            ),
        decreases 32 - i,
    {
        let ghost rest = (32 - i) as nat;
        proof {
            lemma2_to64();
            lemma2_to64_rest();
            lemma_pow2_unfold(rest);
            lemma_pow2_unfold((i + 1) as nat);
            if i < 32 {
                lemma_pow2_strictly_increases(i as nat, 33);
            }
            assert(m * m < pow2(64) * pow2(64)) by (nonlinear_arith)
                requires
                    0 <= m < pow2(64),
            ;
            assert(m * m >= pow2(63) * pow2(63)) by (nonlinear_arith)
                requires
                    m >= pow2(63),
            ;
            assert(pow2(64) * pow2(64) == 0x1_0000_0000_0000_0000_0000_0000_0000_0000)
                by (nonlinear_arith)
                requires
                    pow2(64) == 0x1_0000_0000_0000_0000,
            ;
        }
        let square: u128 = (m as u128) * (m as u128) / 0x8000_0000_0000_0000u128;
        proof {
            assert(pow2(63) <= square < 2 * pow2(64)) by (nonlinear_arith)
                requires
                    square == (m * m) / 0x8000_0000_0000_0000,
                    pow2(63) == 0x8000_0000_0000_0000,
                    pow2(64) == 0x1_0000_0000_0000_0000,
                    m * m < pow2(64) * pow2(64),
                    m * m >= pow2(63) * pow2(63),
            ;
            assert(digits * (2 * pow2((rest - 1) as nat)) == (2 * digits) * pow2(
                (rest - 1) as nat,
            )) by (nonlinear_arith);
            assert((2 * digits + 1) * pow2((rest - 1) as nat) == (2 * digits) * pow2(
                (rest - 1) as nat,
            ) + pow2((rest - 1) as nat)) by (nonlinear_arith);
        }
        if square >= 0x1_0000_0000_0000_0000u128 {
            digits = 2 * digits + 1;
            m = (square / 2) as u64;
        } else {
            digits = 2 * digits;
            m = square as u64;
        }
        i = i + 1;
    }
    proof {
        assert(digits * pow2(0) == digits) by (nonlinear_arith)
            requires
                pow2(0) == 1,
        ;
        assert((e as nat) * pow2(32) + digits < 64 * pow2(32)) by (nonlinear_arith)
            requires
                e <= 63,
                digits < pow2(32),
        ;
    }
    (e as u64) * 0x1_0000_0000u64 + digits
}

/// The fixed-point logarithm of the rate at which a pool turns the input token into the
/// output token, `reserve_out * (1 - fee) / reserve_in`, sign reversed and still in
/// base 2: positive where the rate is below one.
pub open spec fn neg_log2_rate(reserve_in: nat, reserve_out: nat, fee: nat) -> int {
    (log2_fixed(reserve_in) + log2_fixed(crate::math::SCALE as nat)) - (log2_fixed(reserve_out)
        + log2_fixed(crate::math::keep_rate(fee)))
}

/// A base-2 logarithm with 32 binary digits, turned into millionths of a natural
/// logarithm and cut towards zero.
pub open spec fn to_micro_nat(l: int) -> int {
    if l >= 0 {
        l * (LN2_E12 as int) / (LOG_TO_MICRO as int)
    } else {
        -((-l) * (LN2_E12 as int) / (LOG_TO_MICRO as int))
    }
}

/// True when the rate `reserve_out * (1 - fee) / reserve_in` is above 10^-10, the
/// least rate that the search takes for a market.
pub open spec fn rate_is_tradable(reserve_in: nat, reserve_out: nat, fee: nat) -> bool {
    reserve_out * crate::math::keep_rate(fee) * 10_000_000_000 > reserve_in
        * (crate::math::SCALE as nat)
}

/// Weight of the direction that sells into `reserve_in` and buys from `reserve_out`:
/// minus the natural logarithm of the rate, in millionths; infinite where a reserve
/// is empty or the rate is not tradable.
pub open spec fn direction_weight(reserve_in: nat, reserve_out: nat, fee: nat) -> Weight {
    if reserve_in == 0 || reserve_out == 0 || !rate_is_tradable(reserve_in, reserve_out, fee) {
        Weight::Infinite
    } else {
        Weight::Finite(to_micro_nat(neg_log2_rate(reserve_in, reserve_out, fee)) as i64)
    }
}

/// The fixed-point logarithm of a 64-bit number is below 64.
pub proof fn lemma_log2_fixed_below_64(n: nat)
    requires
        1 <= n <= u64::MAX,
    ensures
        log2_fixed(n) < 64 * pow2(32),
{
    lemma2_to64();
    lemma_log2_bracket(n);
    lemma_log2_fixed_bracket(n);
    let e = log(2, n as int);
    if e >= 64 {
        if e > 64 {
            lemma_pow2_strictly_increases(64, e as nat);
        }
        assert(false);
    }
    assert((e + 1) * pow2(32) <= 64 * pow2(32)) by (nonlinear_arith)
        requires
            e + 1 <= 64,
            pow2(32) >= 0,
    ;
}

/// The weight of a rate between funded reserves lies within the limit of a finite
/// weight, so it is the number that `direction_weight` holds.
pub proof fn lemma_weight_within_limit(reserve_in: nat, reserve_out: nat, fee: nat)
    requires
        1 <= reserve_in <= u64::MAX,
        1 <= reserve_out <= u64::MAX,
        fee < crate::math::SCALE,
    ensures
        -WEIGHT_LIMIT <= to_micro_nat(neg_log2_rate(reserve_in, reserve_out, fee)) <= WEIGHT_LIMIT,
{
    lemma2_to64();
    lemma_log2_fixed_below_64(reserve_in);
    lemma_log2_fixed_below_64(reserve_out);
    lemma_log2_fixed_below_64(crate::math::SCALE as nat);
    lemma_log2_fixed_below_64(crate::math::keep_rate(fee));
    let l = neg_log2_rate(reserve_in, reserve_out, fee);
    assert(-(128 * 0x1_0000_0000) < l < 128 * 0x1_0000_0000);
    if l >= 0 {
        assert(l * 693_147_180_560 / 4_294_967_296_000_000 <= 100_000_000) by (nonlinear_arith)
            requires
                0 <= l < 128 * 0x1_0000_0000,
        ;
        assert(l * 693_147_180_560 / 4_294_967_296_000_000 >= 0) by (nonlinear_arith)
            requires
                0 <= l,
        ;
    } else {
        let m = -l;
        assert(m * 693_147_180_560 / 4_294_967_296_000_000 <= 100_000_000) by (nonlinear_arith)
            requires
                0 <= m < 128 * 0x1_0000_0000,
        ;
        assert(m * 693_147_180_560 / 4_294_967_296_000_000 >= 0) by (nonlinear_arith)
            requires
                0 <= m,
        ;
    }
}

/// Without a fee the two directions of a pool weigh the same with reversed signs: a
/// swap there and back weighs nothing.
pub proof fn lemma_free_round_trip_weighs_nothing(reserve_a: nat, reserve_b: nat)
    ensures
        to_micro_nat(neg_log2_rate(reserve_a, reserve_b, 0)) == -to_micro_nat(
            neg_log2_rate(reserve_b, reserve_a, 0),
        ),
        neg_log2_rate(reserve_a, reserve_a, 0) == 0,
{
}

/// A better rate never weighs more: with the same input reserve and fee, the
/// direction with the larger output reserve has the smaller weight or the same.
pub proof fn lemma_weight_falls_with_output(reserve_in: nat, reserve_out: nat, larger_out: nat, fee: nat)
    requires
        1 <= reserve_out <= larger_out,
        larger_out <= u64::MAX,
    ensures
        to_micro_nat(neg_log2_rate(reserve_in, larger_out, fee)) <= to_micro_nat(
            neg_log2_rate(reserve_in, reserve_out, fee),
        ),
{
    lemma2_to64();
    lemma_log2_fixed_ordered(reserve_out, larger_out);
    lemma_to_micro_nat_ordered(
        neg_log2_rate(reserve_in, larger_out, fee),
        neg_log2_rate(reserve_in, reserve_out, fee),
    );
}

/// The change of units keeps the order.
pub proof fn lemma_to_micro_nat_ordered(l: int, larger: int)
    requires
        l <= larger,
    ensures
        to_micro_nat(l) <= to_micro_nat(larger),
{
    let a = LN2_E12 as int;
    let d = LOG_TO_MICRO as int;
    if l >= 0 {
        assert(l * a / d <= larger * a / d) by (nonlinear_arith)
            requires
                0 <= l <= larger,
                a > 0,
                d > 0,
        ;
    } else if larger < 0 {
        assert((-larger) * a / d <= (-l) * a / d) by (nonlinear_arith)
            requires
                0 <= -larger <= -l,
                a > 0,
                d > 0,
        ;
    } else {
        assert((-l) * a / d >= 0) by (nonlinear_arith)
            requires
                -l >= 0,
                a > 0,
                d > 0,
        ;
        assert(larger * a / d >= 0) by (nonlinear_arith)
            requires
                larger >= 0,
                a > 0,
                d > 0,
        ;
    }
}

/// Largest magnitude that a finite weight can have.
pub const WEIGHT_LIMIT: i64 = 100_000_000;

/// Computes `direction_weight`.
pub fn rate_weight(reserve_in: u64, reserve_out: u64, fee: u64) -> (w: Weight)
    ensures
        w == direction_weight(reserve_in as nat, reserve_out as nat, fee as nat),
        w matches Weight::Finite(v) ==> -WEIGHT_LIMIT <= v <= WEIGHT_LIMIT,
{
    if reserve_in == 0 || reserve_out == 0 {
        return Weight::Infinite;
    }
    let scale: u64 = crate::math::SCALE;
    let keep: u64 = if fee >= scale { 0 } else { scale - fee };
    assert((reserve_out as int) * (keep as int) <= 0xffff_ffff_ffff_ffff * 1_000_000)
        by (nonlinear_arith)
        requires
            0 <= reserve_out <= 0xffff_ffff_ffff_ffff,
            0 <= keep <= 1_000_000,
    ;
    assert((reserve_in as int) * 1_000_000 <= 0xffff_ffff_ffff_ffff * 1_000_000);
    let num: u128 = (reserve_out as u128) * (keep as u128) * 10_000_000_000u128;
    let den: u128 = (reserve_in as u128) * (scale as u128);
    if num <= den {
        return Weight::Infinite;
    }
    proof {
        lemma2_to64();
    }
    let up: u64 = log2_q32(reserve_in) + log2_q32(scale);
    let down: u64 = log2_q32(reserve_out) + log2_q32(keep);
    if up >= down {
        let l: u128 = (up - down) as u128;
        let v: u128 = l * LN2_E12 / LOG_TO_MICRO;
        assert(v <= 100_000_000) by (nonlinear_arith)
            requires
                v == l * 693_147_180_560 / 4_294_967_296_000_000,
                l < 128 * 0x1_0000_0000,
        ;
        Weight::Finite(v as i64)
    } else {
        let l: u128 = (down - up) as u128;
        let v: u128 = l * LN2_E12 / LOG_TO_MICRO;
        assert(v <= 100_000_000) by (nonlinear_arith)
            requires
                v == l * 693_147_180_560 / 4_294_967_296_000_000,
                l < 128 * 0x1_0000_0000,
        ;
        Weight::Finite(-(v as i64))
    }
}

} // verus!
