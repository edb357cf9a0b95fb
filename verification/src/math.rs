//! Constant-product swap arithmetic on fixed-point amounts.

use crate::constants::WEI_PER_MICRO;
use vstd::arithmetic::div_mod::lemma_fundamental_div_mod_converse;
use vstd::arithmetic::power2::{lemma2_to64, lemma_pow2_unfold, pow2};
use vstd::prelude::*;

verus! {

/// Number of fixed-point units in one whole: amounts count millionths of a token,
/// fee rates count millionths of the input.
pub const SCALE: u64 = 1_000_000;

/// The part of an input, in millionths, that is left after the fee is taken.
pub open spec fn keep_rate(fee: nat) -> nat {
    if fee >= SCALE as nat {
        0
    } else {
        (SCALE as nat - fee) as nat
    }
}

/// The input that reaches the pool once the fee has been taken, rounded down.
pub open spec fn after_fee(dx: nat, fee: nat) -> nat {
    dx * keep_rate(fee) / (SCALE as nat)
}

/// Output of one swap of `dx` into a pool holding `x` of the input token and `y`
/// of the output token: `y * d / (x + d)` rounded down, where `d` is `dx` after the fee.
/// A swap with nothing on one of the three sides gives nothing.
pub open spec fn swap_out(x: nat, y: nat, dx: nat, fee: nat) -> nat {
    if dx == 0 || x == 0 || y == 0 {
        0
    } else {
        y * after_fee(dx, fee) / (x + after_fee(dx, fee))
    }
}

/// Swaps `dx` into a constant-product pool with reserves `x_reserve` (input side) and
/// `y_reserve` (output side), the fee being taken from the input first.
pub fn swap(x_reserve: u64, y_reserve: u64, dx: u64, fee: u64) -> (out: u64)
    ensures
        out == swap_out(x_reserve as nat, y_reserve as nat, dx as nat, fee as nat),
        out <= y_reserve,
{
    if dx == 0 || x_reserve == 0 || y_reserve == 0 {
        return 0;
    }
    let keep: u64 = if fee >= SCALE { 0 } else { SCALE - fee };
    assert((dx as int) * (keep as int) <= (dx as int) * 1_000_000) by (nonlinear_arith)
        requires
            0 <= dx,
            0 <= keep <= 1_000_000,
    ;
    let scaled: u128 = (dx as u128) * (keep as u128);
    let dx_after_fee: u128 = scaled / (SCALE as u128);
    assert(dx_after_fee <= dx) by (nonlinear_arith)
        requires
            dx_after_fee == scaled / 1_000_000,
            scaled <= (dx as int) * 1_000_000,
    ;
    assert((y_reserve as int) * (dx_after_fee as int) <= 0xffff_ffff_ffff_ffff
        * 0xffff_ffff_ffff_ffff) by (nonlinear_arith)
        requires
            0 <= y_reserve <= 0xffff_ffff_ffff_ffff,
            0 <= dx_after_fee <= 0xffff_ffff_ffff_ffff,
    ;
    let numerator: u128 = (y_reserve as u128) * dx_after_fee;
    let denominator: u128 = (x_reserve as u128) + dx_after_fee;
    let out: u128 = numerator / denominator;
    assert(out <= y_reserve) by (nonlinear_arith)
        requires
            out == numerator / denominator,
            numerator == (y_reserve as int) * (dx_after_fee as int),
            denominator == (x_reserve as int) + (dx_after_fee as int),
            x_reserve > 0,
            dx_after_fee >= 0,
            y_reserve >= 0,
    ;
    out as u64
}

/// What is left of `dx` after it has been swapped through every pool of `pools` in
/// order; each pair holds the reserve on the input side, then on the output side.
pub open spec fn chain_out(pools: Seq<(u64, u64)>, dx: nat, fee: nat) -> nat
    decreases pools.len(),
{
    if pools.len() == 0 {
        dx
    } else {
        let hop = pools.last();
        swap_out(hop.0 as nat, hop.1 as nat, chain_out(pools.drop_last(), dx, fee), fee)
    }
}

/// Gain of sending `dx` round the pools: what comes out minus what went in.
pub open spec fn profit_of(pools: Seq<(u64, u64)>, dx: nat, fee: nat) -> int {
    chain_out(pools, dx, fee) - dx
}

/// The chain never hands out more than a 64-bit amount.
pub proof fn lemma_chain_out_bound(pools: Seq<(u64, u64)>, dx: nat, fee: nat)
    requires
        dx <= u64::MAX,
    ensures
        chain_out(pools, dx, fee) <= u64::MAX,
    decreases pools.len(),
{
    if pools.len() > 0 {
        let hop = pools.last();
        let before = chain_out(pools.drop_last(), dx, fee);
        lemma_chain_out_bound(pools.drop_last(), dx, fee);
        lemma_swap_out_le_reserve(hop.0 as nat, hop.1 as nat, before, fee);
    }
}

/// A swap never hands out more than the pool holds of the output token.
pub proof fn lemma_swap_out_le_reserve(x: nat, y: nat, dx: nat, fee: nat)
    ensures
        swap_out(x, y, dx, fee) <= y,
{
    if dx != 0 && x != 0 && y != 0 {
        let d = after_fee(dx, fee);
        assert(y * d / (x + d) <= y) by (nonlinear_arith)
            requires
                x > 0,
                d >= 0,
                y >= 0,
        ;
    }
}

/// The fee never adds to the input.
pub proof fn lemma_after_fee_le(dx: nat, fee: nat)
    ensures
        after_fee(dx, fee) <= dx,
{
    let keep = keep_rate(fee);
    assert(dx * keep / 1_000_000 <= dx) by (nonlinear_arith)
        requires
            0 <= keep <= 1_000_000,
    ;
}

/// Fee erosion: a pool that holds as much of one token as of the other hands out
/// strictly less than it takes in, whatever the fee.
pub proof fn lemma_balanced_swap_loses(reserve: nat, dx: nat, fee: nat)
    requires
        dx > 0,
    ensures
        swap_out(reserve, reserve, dx, fee) < dx,
{
    lemma_after_fee_le(dx, fee);
    let d = after_fee(dx, fee);
    if reserve != 0 && d != 0 {
        assert(reserve * d / (reserve + d) < d) by (nonlinear_arith)
            requires
                reserve > 0,
                d > 0,
        ;
    } else if reserve != 0 {
        assert(reserve * d / (reserve + d) == 0) by (nonlinear_arith)
            requires
                reserve > 0,
                d == 0,
        ;
    }
}

/// A pool is balanced when it holds as much of one token as of the other.
pub open spec fn all_balanced(pools: Seq<(u64, u64)>) -> bool {
    forall|i: int| 0 <= i < pools.len() ==> (#[trigger] pools[i]).0 == pools[i].1
}

/// No free arbitrage from balanced pools: a positive input sent through one or more
/// balanced pools comes back smaller, so the profit is strictly negative.
pub proof fn lemma_balanced_chain_loses(pools: Seq<(u64, u64)>, dx: nat, fee: nat)
    requires
        pools.len() >= 1,
        all_balanced(pools),
        dx > 0,
    ensures
        profit_of(pools, dx, fee) < 0,
    decreases pools.len(),
{
    let hop = pools.last();
    let front = pools.drop_last();
    let before = chain_out(front, dx, fee);
    assert(hop.0 == hop.1);
    if front.len() >= 1 {
        assert forall|i: int| 0 <= i < front.len() implies (#[trigger] front[i]).0
            == front[i].1 by {
            assert(front[i] == pools[i]);
        }
        lemma_balanced_chain_loses(front, dx, fee);
    } else {
        assert(before == dx);
    }
    if before > 0 {
        lemma_balanced_swap_loses(hop.0 as nat, before, fee);
    }
}

/// The search is a function of its inputs: two runs on the same reserves, fee and
/// number of rounds settle on the same input and the same profit.
pub proof fn lemma_search_is_deterministic(
    pools: Seq<(u64, u64)>,
    fee: nat,
    rounds: nat,
    first: (u64, i128),
    second: (u64, i128),
)
    requires
        first.0 == best_input_of(pools, fee, rounds),
        first.1 == profit_of(pools, first.0 as nat, fee),
        second.0 == best_input_of(pools, fee, rounds),
        second.1 == profit_of(pools, second.0 as nat, fee),
    ensures
        first == second,
{
}

/// Profit of pushing `dx` through `pools` hop by hop, each swap paying `fee`.
pub fn arbitrage_profit(dx: u64, pools: &[(u64, u64)], fee: u64) -> (profit: i128)
    ensures
        profit == profit_of(pools@, dx as nat, fee as nat),
{
    let mut amount: u64 = dx;
    let mut i: usize = 0;
    while i < pools.len()
        invariant
            i <= pools.len(),
            amount == chain_out(pools@.take(i as int), dx as nat, fee as nat),
        decreases pools.len() - i,
    {
        let hop = pools[i];
        assert(pools@.take(i + 1).drop_last() == pools@.take(i as int));
        amount = swap(hop.0, hop.1, amount, fee);
        i = i + 1;
    }
    assert(pools@.take(i as int) == pools@);
    (amount as i128) - (dx as i128)
}

/// Largest input the search tries: 99.9% of the first pool's input-side reserve.
pub open spec fn search_ceiling(pools: Seq<(u64, u64)>) -> nat {
    (pools[0].0 as nat) * 999 / 1000
}

/// One round of the search on the interval `[left, right]`: the profit is taken at the
/// two points one third in from each end, and the third that cannot hold the peak of
/// a single-peaked function is cut off.
pub open spec fn narrow(pools: Seq<(u64, u64)>, fee: nat, left: nat, right: nat) -> (nat, nat) {
    let third = (right - left) / 3;
    let m1 = (left + third) as nat;
    let m2 = (right - third) as nat;
    if profit_of(pools, m1, fee) < profit_of(pools, m2, fee) {
        (m1, right)
    } else {
        (left, m2)
    }
}

/// The interval left after `rounds` rounds of `narrow`.
pub open spec fn narrowed(pools: Seq<(u64, u64)>, fee: nat, left: nat, right: nat, rounds: nat) -> (
    nat,
    nat,
)
    decreases rounds,
{
    if rounds == 0 {
        (left, right)
    } else {
        let next = narrow(pools, fee, left, right);
        narrowed(pools, fee, next.0, next.1, (rounds - 1) as nat)
    }
}

/// The input the search settles on: the midpoint of the interval that is left after
/// `rounds` rounds, starting from `[0, search_ceiling]`.
pub open spec fn best_input_of(pools: Seq<(u64, u64)>, fee: nat, rounds: nat) -> nat {
    let last = narrowed(pools, fee, 0, search_ceiling(pools), rounds);
    (last.0 + last.1) / 2
}

/// The profit has a single peak on the inputs up to `ceiling`, at `peak`: it rises with
/// the input up to the peak and falls with it from there.
pub open spec fn single_peaked(pools: Seq<(u64, u64)>, fee: nat, ceiling: nat, peak: nat) -> bool {
    &&& peak <= ceiling
    &&& forall|x: nat, y: nat|
        x < y <= peak ==> #[trigger] profit_of(pools, x, fee) < #[trigger] profit_of(pools, y, fee)
    &&& forall|x: nat, y: nat|
        peak <= x < y <= ceiling ==> #[trigger] profit_of(pools, x, fee) > #[trigger] profit_of(
            pools,
            y,
            fee,
        )
}

/// Width of the interval of the search after `rounds` rounds, for an interval that
/// was `width` wide: each round cuts off a third, rounded down.
pub open spec fn narrowed_width(width: nat, rounds: nat) -> nat
    decreases rounds,
{
    if rounds == 0 {
        width
    } else {
        narrowed_width((width - width / 3) as nat, (rounds - 1) as nat)
    }
}

/// A round leaves at most two thirds of the width, and two thirds of a unit.
pub proof fn lemma_round_takes_a_third(width: nat)
    ensures
        3 * (width - width / 3) <= 2 * width + 2,
{
}

/// The search keeps the peak. Where the profit has a single peak, and the peak lies
/// in the interval, it lies in the interval after every round; and the interval is
/// as wide as `narrowed_width` says, whatever the profit is.
pub proof fn lemma_search_keeps_the_peak(
    pools: Seq<(u64, u64)>,
    fee: nat,
    left: nat,
    right: nat,
    rounds: nat,
    ceiling: nat,
    peak: nat,
)
    requires
        single_peaked(pools, fee, ceiling, peak),
        left <= peak <= right <= ceiling,
    ensures
        narrowed(pools, fee, left, right, rounds).0 <= peak <= narrowed(
            pools,
            fee,
            left,
            right,
            rounds,
        ).1,
        left <= narrowed(pools, fee, left, right, rounds).0,
        narrowed(pools, fee, left, right, rounds).1 <= right,
        narrowed(pools, fee, left, right, rounds).1 - narrowed(pools, fee, left, right, rounds).0
            == narrowed_width((right - left) as nat, rounds),
    decreases rounds,
{
    if rounds > 0 {
        let third = ((right - left) / 3) as nat;
        let m1 = (left + third) as nat;
        let m2 = (right - third) as nat;
        let next = narrow(pools, fee, left, right);
        assert(m1 <= m2);
        if profit_of(pools, m1, fee) < profit_of(pools, m2, fee) {
            assert(next == (m1, right));
            if peak < m1 {
                assert(m1 < m2);
                assert(profit_of(pools, m1, fee) > profit_of(pools, m2, fee));
            }
        } else {
            assert(next == (left, m2));
            if peak > m2 {
                if m1 < m2 {
                    assert(profit_of(pools, m1, fee) < profit_of(pools, m2, fee));
                }
            }
        }
        lemma_search_keeps_the_peak(pools, fee, next.0, next.1, (rounds - 1) as nat, ceiling, peak);
    }
}

/// Where the profit has a single peak, the input that the search settles on is no
/// further from the peak than the interval is wide after the last round.
pub proof fn lemma_best_input_is_near_the_peak(
    pools: Seq<(u64, u64)>,
    fee: nat,
    rounds: nat,
    peak: nat,
)
    requires
        single_peaked(pools, fee, search_ceiling(pools), peak),
    ensures
        best_input_of(pools, fee, rounds) - peak <= narrowed_width(search_ceiling(pools), rounds),
        peak - best_input_of(pools, fee, rounds) <= narrowed_width(search_ceiling(pools), rounds),
{
    lemma_search_keeps_the_peak(pools, fee, 0, search_ceiling(pools), rounds, search_ceiling(pools), peak);
}

/// Ternary search for the input that earns most on the chain of `pools`: `iterations`
/// rounds on `[0, 99.9% of the first reserve]`, then the midpoint and the profit there.
pub fn find_best_input(pools: &[(u64, u64)], fee: u64, iterations: usize) -> (best: (u64, i128))
    requires
        pools@.len() > 0,
    ensures
        best.0 == best_input_of(pools@, fee as nat, iterations as nat),
        best.1 == profit_of(pools@, best.0 as nat, fee as nat),
        best.0 <= search_ceiling(pools@),
{
    let ceiling: u128 = (pools[0].0 as u128) * 999 / 1000;
    let mut left: u64 = 0;
    let mut right: u64 = ceiling as u64;
    let mut round: usize = 0;
    while round < iterations
        invariant
            round <= iterations,
            left <= right <= search_ceiling(pools@),
            narrowed(pools@, fee as nat, left as nat, right as nat, (iterations - round) as nat)
                == narrowed(
                pools@,
                fee as nat,
                0,
                search_ceiling(pools@),
                iterations as nat,
            ),
        decreases iterations - round,
    {
        let third: u64 = (right - left) / 3;
        let m1: u64 = left + third;
        let m2: u64 = right - third;
        let p1 = arbitrage_profit(m1, pools, fee);
        let p2 = arbitrage_profit(m2, pools, fee);
        if p1 < p2 {
            left = m1;
        } else {
            right = m2;
        }
        round = round + 1;
    }
    let best_input: u64 = (((left as u128) + (right as u128)) / 2) as u64;
    let best_profit = arbitrage_profit(best_input, pools, fee);
    (best_input, best_profit)
}

/// A raw on-chain balance of a token with 18 decimals, in millionths of a token:
/// rounded down, and held at the largest 64-bit amount where it is larger.
pub open spec fn token_units(raw: nat) -> nat {
    if raw / (WEI_PER_MICRO as nat) > u64::MAX as nat {
        u64::MAX as nat
    } else {
        raw / (WEI_PER_MICRO as nat)
    }
}

/// Converts a raw on-chain balance to token units (millionths of a token).
pub fn u256_to_f64(value: u128) -> (units: u64)
    ensures
        units == token_units(value as nat),
{
    let whole: u128 = value / WEI_PER_MICRO;
    if whole > u64::MAX as u128 {
        u64::MAX
    } else {
        whole as u64
    }
}

/// Converts token units (millionths of a token) to the raw on-chain balance.
pub fn f64_to_u256(value: u64) -> (raw: u128)
    ensures
        raw == value * WEI_PER_MICRO,
        token_units(raw as nat) == value,
{
    assert((value as int) * 1_000_000_000_000 / 1_000_000_000_000 == value as int)
        by (nonlinear_arith);
    (value as u128) * WEI_PER_MICRO
}

/// The full product of two 128-bit numbers, as its upper and its lower 128 bits.
pub fn mul_wide(a: u128, b: u128) -> (product: (u128, u128))
    ensures
        product.0 * 0x1_0000_0000_0000_0000_0000_0000_0000_0000 + product.1 == a * b,
{
    let a0: u128 = a % 0x1_0000_0000_0000_0000u128;
    let a1: u128 = a / 0x1_0000_0000_0000_0000u128;
    let b0: u128 = b % 0x1_0000_0000_0000_0000u128;
    let b1: u128 = b / 0x1_0000_0000_0000_0000u128;
    proof {
        lemma_limb_product(a0, b0);
        lemma_limb_product(a0, b1);
        lemma_limb_product(a1, b0);
        lemma_limb_product(a1, b1);
    }
    let p00: u128 = a0 * b0;
    let p01: u128 = a0 * b1;
    let p10: u128 = a1 * b0;
    let p11: u128 = a1 * b1;
    let mid1: u128 = p01 + p00 / 0x1_0000_0000_0000_0000u128;
    let mid2: u128 = mid1 % 0x1_0000_0000_0000_0000u128 + p10 % 0x1_0000_0000_0000_0000u128;
    let low: u128 = (mid2 % 0x1_0000_0000_0000_0000u128) * 0x1_0000_0000_0000_0000u128 + p00
        % 0x1_0000_0000_0000_0000u128;
    let ghost high: int = p11 + mid1 / 0x1_0000_0000_0000_0000u128 + p10
        / 0x1_0000_0000_0000_0000u128 + mid2 / 0x1_0000_0000_0000_0000u128;
    proof {
        let base: int = 0x1_0000_0000_0000_0000;
        let (x0, x1, y0, y1) = (a0 as int, a1 as int, b0 as int, b1 as int);
        let (q00, q01, q10, q11) = (p00 as int, p01 as int, p10 as int, p11 as int);
        let (m1, m2, lo) = (mid1 as int, mid2 as int, low as int);
        assert(a * b == (x1 * base + x0) * (y1 * base + y0));
        lemma_two_limb_product(x0, x1, y0, y1, base);
        assert(high * (base * base) + lo == q11 * (base * base) + (q01 + q10) * base + q00)
            by (nonlinear_arith)
            requires
                base == 0x1_0000_0000_0000_0000,
                m1 == q01 + q00 / base,
                m2 == m1 % base + q10 % base,
                lo == (m2 % base) * base + q00 % base,
                high == q11 + m1 / base + q10 / base + m2 / base,
        ;
        assert(a * b < 0x1_0000_0000_0000_0000_0000_0000_0000_0000
            * 0x1_0000_0000_0000_0000_0000_0000_0000_0000) by (nonlinear_arith)
            requires
                0 <= a < 0x1_0000_0000_0000_0000_0000_0000_0000_0000,
                0 <= b < 0x1_0000_0000_0000_0000_0000_0000_0000_0000,
        ;
        assert(base * base == 0x1_0000_0000_0000_0000_0000_0000_0000_0000);
        assert(high < 0x1_0000_0000_0000_0000_0000_0000_0000_0000) by (nonlinear_arith)
            requires
                high * 0x1_0000_0000_0000_0000_0000_0000_0000_0000 + lo
                    < 0x1_0000_0000_0000_0000_0000_0000_0000_0000
                    * 0x1_0000_0000_0000_0000_0000_0000_0000_0000,
                lo >= 0,
        ;
    }
    let high_exec: u128 = p11 + mid1 / 0x1_0000_0000_0000_0000u128 + p10
        / 0x1_0000_0000_0000_0000u128 + mid2 / 0x1_0000_0000_0000_0000u128;
    (high_exec, low)
}

proof fn lemma_two_limb_product(x0: int, x1: int, y0: int, y1: int, base: int)
    ensures
        (x1 * base + x0) * (y1 * base + y0) == (x1 * y1) * (base * base) + (x0 * y1 + x1 * y0)
            * base + x0 * y0,
{
    let a = x1 * base;
    let c = y1 * base;
    assert((a + x0) * (c + y0) == a * c + a * y0 + x0 * c + x0 * y0) by (nonlinear_arith);
    assert(a * c == (x1 * y1) * (base * base)) by (nonlinear_arith)
        requires
            a == x1 * base,
            c == y1 * base,
    ;
    assert(a * y0 == (x1 * y0) * base) by (nonlinear_arith)
        requires
            a == x1 * base,
    ;
    assert(x0 * c == (x0 * y1) * base) by (nonlinear_arith)
        requires
            c == y1 * base,
    ;
    assert((x0 * y1 + x1 * y0) * base == (x0 * y1) * base + (x1 * y0) * base)
        by (nonlinear_arith);
}

proof fn lemma_limb_product(x: u128, y: u128)
    requires
        x < 0x1_0000_0000_0000_0000,
        y < 0x1_0000_0000_0000_0000,
    ensures
        x * y <= 0xffff_ffff_ffff_ffff * 0xffff_ffff_ffff_ffff,
{
    assert(x * y <= 0xffff_ffff_ffff_ffff * 0xffff_ffff_ffff_ffff) by (nonlinear_arith)
        requires
            0 <= x <= 0xffff_ffff_ffff_ffff,
            0 <= y <= 0xffff_ffff_ffff_ffff,
    ;
}

/// The quotient of the 256-bit number with the upper bits `high` and the lower bits
/// `low` by `d`, where the quotient fits 128 bits: schoolbook division, one bit of
/// `low` at a time.
pub fn div_wide(high: u128, low: u128, d: u128) -> (q: u128)
    requires
        high < d,
    ensures
        q == (high * 0x1_0000_0000_0000_0000_0000_0000_0000_0000 + low) / (d as int),
{
    let mut q: u128 = 0;
    let mut r: u128 = high;
    let mut rest: u128 = low;
    let mut p: u128 = 0x8000_0000_0000_0000_0000_0000_0000_0000u128;
    let mut i: u32 = 0;
    let ghost mut top: nat = 0;
    proof {
        lemma2_to64();
        lemma_pow2_128();
        lemma_pow2_unfold(128);
        assert(high * pow2(0) == high) by (nonlinear_arith)
            requires
                pow2(0) == 1,
        ;
        assert(0 * pow2(128) == 0) by (nonlinear_arith);
        lemma2_to64();
    }
    while i < 128
        invariant
            i <= 128,
            high < d,
            r < d,
            top * pow2((128 - i) as nat) + rest == low,
            rest < pow2((128 - i) as nat),
            i < 128 ==> p == pow2((127 - i) as nat),
            high * pow2(i as nat) + top == q * d + r,
            q < pow2(i as nat),
            pow2(128) == 0x1_0000_0000_0000_0000_0000_0000_0000_0000,
        decreases 128 - i,
    {
        let ghost whole = pow2((128 - i) as nat);
        let ghost before = high * pow2(i as nat) + top;
        proof {
            lemma_pow2_unfold((128 - i) as nat);
            lemma_pow2_unfold((i + 1) as nat);
            if i < 127 {
                lemma_pow2_unfold((127 - i) as nat);
            } else {
                lemma2_to64();
            }
            vstd::arithmetic::power2::lemma_pow2_pos((127 - i) as nat);
            if i + 1 < 128 {
                vstd::arithmetic::power2::lemma_pow2_strictly_increases((i + 1) as nat, 128);
            }
        }
        let bit: u128 = rest / p;
        let left: u128 = rest % p;
        proof {
            assert(bit <= 1 && rest == bit * p + left) by (nonlinear_arith)
                requires
                    bit == rest / p,
                    left == rest % p,
                    p > 0,
                    rest < 2 * p,
            ;
            assert((2 * top + bit) * p + left == top * (2 * p) + rest) by (nonlinear_arith)
                requires
                    rest == bit * p + left,
            ;
            assert(high * (2 * pow2(i as nat)) + (2 * top + bit) == 2 * before + bit)
                by (nonlinear_arith)
                requires
                    before == high * pow2(i as nat) + top,
            ;
            assert(2 * (q * d + r) + bit == (2 * q) * d + (2 * r + bit)) by (nonlinear_arith);
            assert((2 * q + 1) * d + (2 * r + bit - d) == (2 * q) * d + (2 * r + bit))
                by (nonlinear_arith);
            top = (2 * top + bit) as nat;
        }
        if r >= 0x8000_0000_0000_0000_0000_0000_0000_0000u128 {
            r = (r - (d - r)) + bit;
            q = 2 * q + 1;
        } else {
            let doubled: u128 = 2 * r + bit;
            if doubled >= d {
                r = doubled - d;
                q = 2 * q + 1;
            } else {
                r = doubled;
                q = 2 * q;
            }
        }
        rest = left;
        p = p / 2;
        i = i + 1;
    }
    proof {
        lemma2_to64();
        assert(top * pow2(0) == top) by (nonlinear_arith)
            requires
                pow2(0) == 1,
        ;
        assert(high * pow2(128) + low == d * q + r) by (nonlinear_arith)
            requires
                high * pow2(128) + top == q * d + r,
                top == low,
        ;
        lemma_fundamental_div_mod_converse(
            high * pow2(128) + low,
            d as int,
            q as int,
            r as int,
        );
    }
    q
}

proof fn lemma_pow2_128()
    ensures
        pow2(128) == 0x1_0000_0000_0000_0000_0000_0000_0000_0000,
        pow2(127) == 0x8000_0000_0000_0000_0000_0000_0000_0000,
{
    lemma2_to64();
    vstd::arithmetic::power2::lemma_pow2_adds(64, 64);
    lemma_pow2_unfold(128);
    assert(pow2(64) * pow2(64) == 0x1_0000_0000_0000_0000_0000_0000_0000_0000) by (nonlinear_arith)
        requires
            pow2(64) == 0x1_0000_0000_0000_0000,
    ;
}

/// `a * b / d` rounded down, where it fits 128 bits; the product may take 256.
pub fn mul_div(a: u128, b: u128, d: u128) -> (q: u128)
    requires
        d > 0,
        a * b / (d as int) <= u128::MAX,
    ensures
        q == a * b / (d as int),
{
    let (high, low) = mul_wide(a, b);
    assert(high < d) by (nonlinear_arith)
        requires
            high * 0x1_0000_0000_0000_0000_0000_0000_0000_0000 + low == a * b,
            a * b / (d as int) <= 0xffff_ffff_ffff_ffff_ffff_ffff_ffff_ffff,
            d > 0,
            low >= 0,
            high >= 0,
    ;
    div_wide(high, low, d)
}

/// Largest balance that a pool keeps on chain: a number of 112 bits.
pub const MAX_RESERVE: u128 = 0xffff_ffff_ffff_ffff_ffff_ffff_ffff;

/// Output of a swap in raw on-chain units with the fee of 0.3% that the pools charge:
/// `amount_in * 997 * reserve_out / (reserve_in * 1000 + amount_in * 997)`, rounded
/// down; zero where one of the three is zero.
pub open spec fn amount_out(amount_in: nat, reserve_in: nat, reserve_out: nat) -> nat {
    if amount_in == 0 || reserve_in == 0 || reserve_out == 0 {
        0
    } else {
        amount_in * 997 * reserve_out / (reserve_in * 1000 + amount_in * 997)
    }
}

/// A swap never hands out more than the pool holds of the output token.
pub proof fn lemma_amount_out_le_reserve(amount_in: nat, reserve_in: nat, reserve_out: nat)
    ensures
        amount_out(amount_in, reserve_in, reserve_out) <= reserve_out,
{
    if amount_in != 0 && reserve_in != 0 && reserve_out != 0 {
        let a = amount_in * 997;
        assert(a * reserve_out / (reserve_in * 1000 + a) <= reserve_out) by (nonlinear_arith)
            requires
                reserve_in > 0,
                a >= 0,
                reserve_out >= 0,
        ;
    }
}

/// Calculate output amount using the formula of the pools on chain, in raw units.
pub fn get_amount_out(amount_in: u128, reserve_in: u128, reserve_out: u128) -> (out: u128)
    requires
        amount_in <= MAX_RESERVE,
        reserve_in <= MAX_RESERVE,
    ensures
        out == amount_out(amount_in as nat, reserve_in as nat, reserve_out as nat),
        out <= reserve_out,
{
    if amount_in == 0 || reserve_in == 0 || reserve_out == 0 {
        return 0;
    }
    let amount_in_with_fee: u128 = amount_in * 997;
    let denominator: u128 = reserve_in * 1000 + amount_in_with_fee;
    proof {
        lemma_amount_out_le_reserve(amount_in as nat, reserve_in as nat, reserve_out as nat);
    }
    mul_div(amount_in_with_fee, reserve_out, denominator)
}

/// Whether `a * b >= c * d`, without leaving 128 bits.
pub fn product_at_least(a: u128, b: u128, c: u128, d: u128) -> (holds: bool)
    ensures
        holds == (a * b >= c * d),
{
    let left = mul_wide(a, b);
    let right = mul_wide(c, d);
    left.0 > right.0 || (left.0 == right.0 && left.1 >= right.1)
}

} // verus!
