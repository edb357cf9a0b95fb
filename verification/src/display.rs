//! Text for the console and the log.

use crate::arbitrage::{oriented_by_symbol, reserves_by_symbol, Symbol};
use crate::cache::held_for;
use crate::math::{token_units, u256_to_f64};
use crate::text::{decimal, fixed, push_decimal, push_fixed};
use crate::types::{join_symbols, joined_tickers, Address, PoolReserves, Token};
use std::time::Duration;
use vstd::prelude::*;

verus! {

/// Length of a span of time in nanoseconds.
pub uninterp spec fn duration_nanos(d: Duration) -> nat;

/// `Duration::as_nanos`: the whole span in nanoseconds.
#[verifier::external_body]
fn nanos_of(duration: &Duration) -> (nanos: u128)
    ensures
        nanos == duration_nanos(*duration),
{
    duration.as_nanos()
}

/// A span of `nanos` nanoseconds as text: whole milliseconds below one second, else
/// seconds with two digits behind the point.
pub open spec fn duration_text(nanos: nat) -> Seq<char> {
    if nanos / 1_000_000 < 1000 {
        decimal(nanos / 1_000_000) + "ms"@
    } else {
        fixed(nanos, 10_000_000, 100, 2) + "s"@
    }
}

/// Format duration in human-readable format
pub fn format_duration(duration: Duration) -> (text: String)
    ensures
        text@ == duration_text(duration_nanos(duration)),
{
    let nanos = nanos_of(&duration);
    let millis = nanos / 1_000_000;
    let mut text = String::new();
    if millis < 1000 {
        push_decimal(&mut text, millis);
        text.append("ms");
    } else {
        push_fixed(&mut text, nanos, 10_000_000, 100, 2);
        text.append("s");
    }
    text
}

/// Format error message with emoji
pub fn format_error(message: &str) -> (text: String)
    ensures
        text@ == "❌ "@ + message@,
{
    String::from_str("❌ ").concat(message)
}

/// Format success message with emoji
pub fn format_success(message: &str) -> (text: String)
    ensures
        text@ == "✅ "@ + message@,
{
    String::from_str("✅ ").concat(message)
}

/// Format warning message with emoji
pub fn format_warning(message: &str) -> (text: String)
    ensures
        text@ == "⚠️ "@ + message@,
{
    String::from_str("⚠️ ").concat(message)
}

/// Format info message with emoji
pub fn format_info(message: &str) -> (text: String)
    ensures
        text@ == "ℹ️ "@ + message@,
{
    String::from_str("ℹ️ ").concat(message)
}

/// Format arbitrage path for display
pub fn format_arbitrage_path(tokens: &[Token]) -> (text: String)
    ensures
        text@ == joined_tickers(tokens@, " → "@),
{
    join_symbols(tokens, " → ")
}

/// An amount in millionths as text with six digits behind the point.
pub open spec fn amount_text(amount: nat) -> Seq<char> {
    fixed(amount, 1, 1_000_000, 6)
}

/// An amount in millionths as text with two digits behind the point, rounded.
pub open spec fn short_amount_text(amount: nat) -> Seq<char> {
    fixed(amount, 10_000, 100, 2)
}

/// Format token amount with symbol
pub fn format_token_amount(amount: u64, token: &Token) -> (text: String)
    ensures
        text@ == amount_text(amount as nat) + " "@ + token.ticker(),
{
    let mut text = String::new();
    push_fixed(&mut text, amount as u128, 1, 1_000_000, 6);
    text.append(" ");
    text.append(token.symbol());
    text
}

/// A percentage in millionths of a percent as text with two digits behind the point
/// and its sign in front: `+` above zero, `-` below.
pub open spec fn percentage_text(percentage: int) -> Seq<char> {
    if percentage > 0 {
        "+"@ + short_amount_text(percentage as nat) + "%"@
    } else if percentage < 0 {
        "-"@ + short_amount_text((-percentage) as nat) + "%"@
    } else {
        short_amount_text(0) + "%"@
    }
}

/// Format percentage with its sign
pub fn format_percentage(percentage: i128) -> (text: String)
    ensures
        text@ == percentage_text(percentage as int),
{
    let mut text = String::new();
    if percentage > 0 {
        text.append("+");
        push_fixed(&mut text, percentage as u128, 10_000, 100, 2);
    } else if percentage < 0 {
        text.append("-");
        let size: u128 = if percentage == i128::MIN {
            0x8000_0000_0000_0000_0000_0000_0000_0000u128
        } else {
            (-percentage) as u128
        };
        push_fixed(&mut text, size, 10_000, 100, 2);
    } else {
        push_fixed(&mut text, 0, 10_000, 100, 2);
    }
    text.append("%");
    text
}

/// The reserves of a pool as text: each in token units with two digits behind the
/// point and the symbol of its token.
pub open spec fn reserves_text(reserves: PoolReserves) -> Seq<char> {
    short_amount_text(token_units(reserves.reserve_a as nat)) + " "@ + reserves.token_a.ticker()
        + " / "@ + short_amount_text(token_units(reserves.reserve_b as nat)) + " "@
        + reserves.token_b.ticker()
}

/// Format a single pool's reserves in a readable way
pub fn format_single_pool_reserves(reserves: &PoolReserves) -> (text: String)
    ensures
        text@ == reserves_text(*reserves),
{
    let reserve_a = u256_to_f64(reserves.reserve_a);
    let reserve_b = u256_to_f64(reserves.reserve_b);
    let mut text = String::new();
    push_fixed(&mut text, reserve_a as u128, 10_000, 100, 2);
    text.append(" ");
    text.append(reserves.token_a.symbol());
    text.append(" / ");
    push_fixed(&mut text, reserve_b as u128, 10_000, 100, 2);
    text.append(" ");
    text.append(reserves.token_b.symbol());
    text
}

/// One line of the three-pool report: the name of the pool and its two reserves in
/// token units, that of the token `first` first; where the pool is not one of these
/// two tokens, both reserves read zero and the name carries a question mark.
pub open spec fn triangle_line(
    reserves: PoolReserves,
    name: Seq<char>,
    first: Symbol,
    second: Symbol,
    first_ticker: Seq<char>,
    second_ticker: Seq<char>,
) -> Seq<char> {
    match reserves_by_symbol(reserves, first, second) {
        Some(pair) => "   📊 "@ + name + ": "@ + short_amount_text(pair.0 as nat) + " "@
            + first_ticker + " / "@ + short_amount_text(pair.1 as nat) + " "@ + second_ticker,
        None => "   📊 "@ + name + "(?): "@ + short_amount_text(0) + " "@ + first_ticker + " / "@
            + short_amount_text(0) + " "@ + second_ticker,
    }
}

/// The line of a pool of the report, if reserves are held for its address, with a
/// line break behind it where `broken` says so.
pub open spec fn report_part(
    entries: Seq<(Address, PoolReserves)>,
    address: Address,
    name: Seq<char>,
    first: Symbol,
    second: Symbol,
    first_ticker: Seq<char>,
    second_ticker: Seq<char>,
    broken: bool,
) -> Seq<char> {
    match held_for(entries, address) {
        Some(reserves) => triangle_line(reserves, name, first, second, first_ticker, second_ticker)
            + if broken {
            "\n"@
        } else {
            Seq::<char>::empty()
        },
        None => Seq::empty(),
    }
}

/// The reserves held for `address`: those of the first entry with this address.
fn find_reserves(entries: &[(Address, PoolReserves)], address: Address) -> (found: Option<
    PoolReserves,
>)
    ensures
        found == held_for(entries@, address),
{
    let mut i: usize = 0;
    assert(entries@.skip(0) == entries@);
    while i < entries.len()
        invariant
            i <= entries@.len(),
            held_for(entries@, address) == held_for(entries@.skip(i as int), address),
        decreases entries@.len() - i,
    {
        assert(entries@.skip(i as int).drop_first() == entries@.skip(i + 1));
        assert(entries@.skip(i as int)[0] == entries@[i as int]);
        if entries[i].0 == address {
            return Some(entries[i].1);
        }
        i = i + 1;
    }
    None
}

fn push_triangle_line(
    text: &mut String,
    reserves: &PoolReserves,
    name: &str,
    first: Symbol,
    second: Symbol,
    first_ticker: &str,
    second_ticker: &str,
)
    ensures
        final(text)@ == old(text)@ + triangle_line(
            *reserves,
            name@,
            first,
            second,
            first_ticker@,
            second_ticker@,
        ),
{
    text.append("   📊 ");
    text.append(name);
    let pair = match oriented_by_symbol(reserves, first, second) {
        Some(pair) => {
            text.append(": ");
            pair
        },
        None => {
            text.append("(?): ");
            (0, 0)
        },
    };
    push_fixed(text, pair.0 as u128, 10_000, 100, 2);
    text.append(" ");
    text.append(first_ticker);
    text.append(" / ");
    push_fixed(text, pair.1 as u128, 10_000, 100, 2);
    text.append(" ");
    text.append(second_ticker);
    assert(text@ =~= old(text)@ + triangle_line(
        *reserves,
        name@,
        first,
        second,
        first_ticker@,
        second_ticker@,
    ));
}

/// Format pool reserves information for logging: one line for each of the three
/// pools of the triangle for which reserves are held.
pub fn format_pool_reserves(
    moe_wmnt_addr: Address,
    joe_moe_addr: Address,
    joe_wmnt_addr: Address,
    reserves: &[(Address, PoolReserves)],
) -> (text: String)
    ensures
        text@ == report_part(
            reserves@,
            moe_wmnt_addr,
            "MOE-WMNT"@,
            Symbol::Wmnt,
            Symbol::Moe,
            "WMNT"@,
            "MOE"@,
            true,
        ) + report_part(
            reserves@,
            joe_moe_addr,
            "JOE-MOE"@,
            Symbol::Moe,
            Symbol::Joe,
            "MOE"@,
            "JOE"@,
            true,
        ) + report_part(
            reserves@,
            joe_wmnt_addr,
            "JOE-WMNT"@,
            Symbol::Joe,
            Symbol::Wmnt,
            "JOE"@,
            "WMNT"@,
            false,
        ),
{
    let mut text = String::new();
    if let Some(found) = find_reserves(reserves, moe_wmnt_addr) {
        push_triangle_line(&mut text, &found, "MOE-WMNT", Symbol::Wmnt, Symbol::Moe, "WMNT", "MOE");
        text.append("\n");
    }
    if let Some(found) = find_reserves(reserves, joe_moe_addr) {
        push_triangle_line(&mut text, &found, "JOE-MOE", Symbol::Moe, Symbol::Joe, "MOE", "JOE");
        text.append("\n");
    }
    if let Some(found) = find_reserves(reserves, joe_wmnt_addr) {
        push_triangle_line(&mut text, &found, "JOE-WMNT", Symbol::Joe, Symbol::Wmnt, "JOE", "WMNT");
    }
    text
}

/// Name under which a pool is known, `Unknown Pool` where it is not: the name of the
/// first entry of `known_pools` with its address.
pub open spec fn pool_name(known_pools: Seq<(Address, String)>, address: Address) -> Seq<char>
    decreases known_pools.len(),
{
    if known_pools.len() == 0 {
        "Unknown Pool"@
    } else if known_pools[0].0 == address {
        known_pools[0].1@
    } else {
        pool_name(known_pools.drop_first(), address)
    }
}

/// Generic formatter trait for extensibility
pub trait ReservesFormatter {
    fn format_reserves(&self, entries: &[(Address, PoolReserves)]) -> String;

    fn format_pool(&self, address: Address, reserves: &PoolReserves) -> String;
}

/// Default reserves formatter
pub struct DefaultReservesFormatter {
    /// (address, name) pairs
    pub known_pools: Vec<(Address, String)>,
}

impl DefaultReservesFormatter {
    pub fn new() -> (formatter: DefaultReservesFormatter)
        ensures
            formatter.known_pools@.len() == 0,
    {
        DefaultReservesFormatter { known_pools: Vec::new() }
    }

    pub fn with_pools(pools: Vec<(Address, String)>) -> (formatter: DefaultReservesFormatter)
        ensures
            formatter.known_pools == pools,
    {
        DefaultReservesFormatter { known_pools: pools }
    }

    /// Appends the name under which the pool at `address` is known.
    fn push_pool_name(&self, text: &mut String, address: Address)
        ensures
            final(text)@ == old(text)@ + pool_name(self.known_pools@, address),
    {
        let mut i: usize = 0;
        assert(self.known_pools@.skip(0) == self.known_pools@);
        while i < self.known_pools.len()
            invariant
                i <= self.known_pools@.len(),
                *text == *old(text),
                pool_name(self.known_pools@, address) == pool_name(
                    self.known_pools@.skip(i as int),
                    address,
                ),
            decreases self.known_pools@.len() - i,
        {
            assert(self.known_pools@.skip(i as int).drop_first() == self.known_pools@.skip(i + 1));
            assert(self.known_pools@.skip(i as int)[0] == self.known_pools@[i as int]);
            if self.known_pools[i].0 == address {
                text.append(self.known_pools[i].1.as_str());
                return ;
            }
            i = i + 1;
        }
        text.append("Unknown Pool");
    }

    /// The pools as lines, one for each entry and in the order of the entries.
    pub open spec fn lines(&self, entries: Seq<(Address, PoolReserves)>) -> Seq<char>
        decreases entries.len(),
    {
        if entries.len() == 0 {
            Seq::empty()
        } else {
            let line = "   📊 "@ + pool_name(self.known_pools@, entries.last().0) + ": "@
                + reserves_text(entries.last().1);
            if entries.len() == 1 {
                line
            } else {
                self.lines(entries.drop_last()) + "\n"@ + line
            }
        }
    }
}

impl ReservesFormatter for DefaultReservesFormatter {
    /// All pools, one line each, without a line break at the end.
    fn format_reserves(&self, entries: &[(Address, PoolReserves)]) -> (text: String)
        ensures
            text@ == self.lines(entries@),
    {
        let mut text = String::new();
        let mut i: usize = 0;
        while i < entries.len()
            invariant
                i <= entries@.len(),
                text@ == self.lines(entries@.take(i as int)),
            decreases entries@.len() - i,
        {
            assert(entries@.take(i + 1).drop_last() == entries@.take(i as int));
            if i > 0 {
                text.append("\n");
            }
            text.append("   📊 ");
            self.push_pool_name(&mut text, entries[i].0);
            text.append(": ");
            let reserves_part = format_single_pool_reserves(&entries[i].1);
            text.append(reserves_part.as_str());
            i = i + 1;
        }
        assert(entries@.take(i as int) == entries@);
        text
    }

    /// One pool as a line: its name and its reserves.
    fn format_pool(&self, address: Address, reserves: &PoolReserves) -> (text: String)
        ensures
            text@ == "📊 "@ + pool_name(self.known_pools@, address) + ": "@ + reserves_text(
                *reserves,
            ),
    {
        let mut text = String::from_str("📊 ");
        self.push_pool_name(&mut text, address);
        text.append(": ");
        let reserves_part = format_single_pool_reserves(reserves);
        text.append(reserves_part.as_str());
        text
    }
}

impl Default for DefaultReservesFormatter {
    fn default() -> (formatter: DefaultReservesFormatter)
        ensures
            formatter.known_pools@.len() == 0,
    {
        DefaultReservesFormatter::new()
    }
}

} // verus!
