//! Numbers as decimal text.

use vstd::prelude::*;

verus! {

/// The character of a decimal digit.
pub open spec fn digit(d: nat) -> char {
    if d == 0 {
        '0'
    } else if d == 1 {
        '1'
    } else if d == 2 {
        '2'
    } else if d == 3 {
        '3'
    } else if d == 4 {
        '4'
    } else if d == 5 {
        '5'
    } else if d == 6 {
        '6'
    } else if d == 7 {
        '7'
    } else if d == 8 {
        '8'
    } else {
        '9'
    }
}

/// `n` in decimal digits, without leading zeros.
pub open spec fn decimal(n: nat) -> Seq<char>
    decreases n,
{
    if n < 10 {
        seq![digit(n)]
    } else {
        decimal(n / 10).push(digit(n % 10))
    }
}

/// The last `width` decimal digits of `n`, with leading zeros.
pub open spec fn padded(n: nat, width: nat) -> Seq<char>
    decreases width,
{
    if width == 0 {
        Seq::empty()
    } else {
        padded(n / 10, (width - 1) as nat).push(digit(n % 10))
    }
}

/// A fixed-point number as text with `places` digits behind the point: `value` counts
/// units of which `cut * unit` make one whole, it is rounded to the nearest multiple
/// of `cut`, halves up, and `unit` is ten to the power of `places`.
pub open spec fn fixed(value: nat, cut: nat, unit: nat, places: nat) -> Seq<char> {
    let rounded = (value + cut / 2) / cut;
    decimal(rounded / unit) + seq!['.'] + padded(rounded % unit, places)
}

fn digit_text(d: u8) -> (text: &'static str)
    requires
        d < 10,
    ensures
        text@ == seq![digit(d as nat)],
{
    proof {
        reveal_strlit("0");
        reveal_strlit("1");
        reveal_strlit("2");
        reveal_strlit("3");
        reveal_strlit("4");
        reveal_strlit("5");
        reveal_strlit("6");
        reveal_strlit("7");
        reveal_strlit("8");
        reveal_strlit("9");
    }
    let text = if d == 0 {
        "0"
    } else if d == 1 {
        "1"
    } else if d == 2 {
        "2"
    } else if d == 3 {
        "3"
    } else if d == 4 {
        "4"
    } else if d == 5 {
        "5"
    } else if d == 6 {
        "6"
    } else if d == 7 {
        "7"
    } else if d == 8 {
        "8"
    } else {
        "9"
    };
    assert(text@ =~= seq![digit(d as nat)]);
    text
}

/// Appends `n` in decimal digits.
pub fn push_decimal(text: &mut String, n: u128)
    ensures
        final(text)@ == old(text)@ + decimal(n as nat),
    decreases n,
{
    if n >= 10 {
        push_decimal(text, n / 10);
    }
    text.append(digit_text((n % 10) as u8));
    assert(text@ =~= old(text)@ + decimal(n as nat));
}

/// Appends the last `width` decimal digits of `n`.
pub fn push_padded(text: &mut String, n: u128, width: usize)
    ensures
        final(text)@ == old(text)@ + padded(n as nat, width as nat),
    decreases width,
{
    if width > 0 {
        push_padded(text, n / 10, width - 1);
        text.append(digit_text((n % 10) as u8));
    }
    assert(text@ =~= old(text)@ + padded(n as nat, width as nat));
}

/// Appends `fixed(value, cut, unit, places)`.
pub fn push_fixed(text: &mut String, value: u128, cut: u128, unit: u128, places: usize)
    requires
        cut > 0,
        unit > 0,
    ensures
        final(text)@ == old(text)@ + fixed(value as nat, cut as nat, unit as nat, places as nat),
{
    let whole: u128 = value / cut;
    let rest: u128 = value % cut;
    let half: u128 = cut / 2;
    let up: bool = rest >= cut - half;
    assert((value + half) / (cut as int) == whole + if up {
        1int
    } else {
        0int
    }) by (nonlinear_arith)
        requires
            cut > 0,
            whole == value / cut,
            rest == value % cut,
            0 <= half <= cut,
            up == (rest >= cut - half),
    ;
    assert(up ==> whole < u128::MAX) by (nonlinear_arith)
        requires
            whole == value / cut,
            rest == value % cut,
            half == cut / 2,
            up == (rest >= cut - half),
            cut > 0,
            value <= u128::MAX,
    ;
    let rounded: u128 = if up {
        whole + 1
    } else {
        whole
    };
    push_decimal(text, rounded / unit);
    text.append(".");
    proof {
        reveal_strlit(".");
        assert("."@ =~= seq!['.']);
    }
    push_padded(text, rounded % unit, places);
    assert(text@ =~= old(text)@ + fixed(value as nat, cut as nat, unit as nat, places as nat));
}

} // verus!
