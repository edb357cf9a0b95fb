//! Addresses written as hexadecimal text.

use crate::constants::{
    JOE_ADDRESS, JOE_MOE_POOL, JOE_WMNT_POOL, MOE_ADDRESS, MOE_WMNT_POOL, WMNT_ADDRESS,
};
use crate::types::{Address, Token};
use vstd::prelude::*;
use vstd::string::StringSliceAdditionalSpecFns;

verus! {

/// Value of one hexadecimal digit, upper or lower case.
pub open spec fn hex_digit(c: u8) -> Option<u8> {
    if 48 <= c <= 57 {
        Some((c - 48) as u8)
    } else if 97 <= c <= 102 {
        Some((c - 87) as u8)
    } else if 65 <= c <= 70 {
        Some((c - 55) as u8)
    } else {
        None
    }
}

/// The bytes that a hexadecimal text stands for, two digits a byte, the high digit
/// first; nothing for a text of odd length or with another character in it.
pub open spec fn hex_bytes(text: Seq<u8>) -> Option<Seq<u8>>
    decreases text.len(),
{
    if text.len() % 2 != 0 {
        None
    } else if text.len() == 0 {
        Some(Seq::empty())
    } else {
        match (
            hex_bytes(text.take(text.len() - 2)),
            hex_digit(text[text.len() - 2]),
            hex_digit(text[text.len() - 1]),
        ) {
            (Some(front), Some(high), Some(low)) => Some(front.push((high * 16 + low) as u8)),
            _ => None,
        }
    }
}

/// `hex::decode`: decodes a text of hexadecimal digits, both cases taken, into bytes;
/// a text of odd length or with another character in it is an error, here `None`.
#[verifier::external_body]
pub(crate) fn hex_decode(data: &[u8]) -> (bytes: Option<Vec<u8>>)
    ensures
        match bytes {
            Some(b) => hex_bytes(data@) == Some(b@),
            None => hex_bytes(data@) is None,
        },
{
    hex::decode(data).ok()
}

/// The text without every `0x` that it starts with.
pub open spec fn without_prefix(text: Seq<u8>) -> Seq<u8>
    decreases text.len(),
{
    if text.len() >= 2 && text[0] == 48 && text[1] == 120 {
        without_prefix(text.skip(2))
    } else {
        text
    }
}

/// The address that a text of 40 hexadecimal digits stands for, after any `0x` in
/// front of it.
pub open spec fn is_address_of(address: Address, text: Seq<u8>) -> bool {
    hex_bytes(without_prefix(text)) == Some(address.bytes@)
}

/// The text stands for an address: 20 bytes in hexadecimal digits.
pub open spec fn names_address(text: Seq<u8>) -> bool {
    hex_bytes(without_prefix(text)) matches Some(bytes) && bytes.len() == 20
}

/// Reads an address from hexadecimal text, with or without `0x` in front.
pub fn parse_address(text: &str) -> (address: Option<Address>)
    ensures
        match address {
            Some(a) => is_address_of(a, text.spec_bytes()),
            None => !names_address(text.spec_bytes()),
        },
{
    let data = text.as_bytes();
    let mut start: usize = 0;
    assert(data@.skip(0) == data@);
    while data.len() - start >= 2 && data[start] == 48 && data[start + 1] == 120
        invariant
            start <= data@.len(),
            without_prefix(data@) == without_prefix(data@.skip(start as int)),
        decreases data@.len() - start,
    {
        assert(data@.skip(start as int).skip(2) == data@.skip(start + 2));
        assert(data@.skip(start as int)[0] == data@[start as int]);
        assert(data@.skip(start as int)[1] == data@[start + 1]);
        start = start + 2;
    }
    proof {
        if data@.len() - start >= 2 {
            assert(data@.skip(start as int)[0] == data@[start as int]);
            assert(data@.skip(start as int)[1] == data@[start + 1]);
        }
    }
    let mut digits: Vec<u8> = Vec::new();
    let mut i: usize = start;
    while i < data.len()
        invariant
            start <= i <= data@.len(),
            digits@ == data@.subrange(start as int, i as int),
        decreases data@.len() - i,
    {
        digits.push(data[i]);
        assert(digits@ =~= data@.subrange(start as int, i + 1));
        i = i + 1;
    }
    assert(digits@ =~= data@.skip(start as int));
    match hex_decode(digits.as_slice()) {
        Some(bytes) => Address::from_slice(bytes.as_slice()),
        None => None,
    }
}

/// The text in which the address of the token with this symbol is written, if the
/// symbol is one of the three that the engine knows.
pub open spec fn address_text(symbol: Seq<char>) -> Option<Seq<u8>> {
    if symbol == "WMNT"@ {
        Some(WMNT_ADDRESS.spec_bytes())
    } else if symbol == "MOE"@ {
        Some(MOE_ADDRESS.spec_bytes())
    } else if symbol == "JOE"@ {
        Some(JOE_ADDRESS.spec_bytes())
    } else {
        None
    }
}

/// `token` is the token that `symbol` names: it carries the symbol and the address
/// written in the symbol's address text.
pub open spec fn names_token(symbol: Seq<char>, token: Token) -> bool {
    address_text(symbol) matches Some(text) && token.ticker() == symbol && is_address_of(
        token.addr(),
        text,
    )
}

/// A text of an even number of hexadecimal digits stands for half as many bytes.
pub proof fn lemma_hex_text(text: Seq<u8>)
    requires
        text.len() % 2 == 0,
        forall|i: int| 0 <= i < text.len() ==> hex_digit(#[trigger] text[i]) is Some,
    ensures
        hex_bytes(text) matches Some(bytes) && bytes.len() == text.len() / 2,
    decreases text.len(),
{
    if text.len() > 0 {
        let front = text.take(text.len() - 2);
        assert forall|i: int| 0 <= i < front.len() implies hex_digit(#[trigger] front[i]) is Some by {
            assert(front[i] == text[i]);
        }
        lemma_hex_text(front);
        assert(hex_digit(text[text.len() - 2]) is Some);
        assert(hex_digit(text[text.len() - 1]) is Some);
    }
}

/// The address text of the base token names an address.
pub proof fn lemma_wmnt_text()
    ensures
        names_address(WMNT_ADDRESS.spec_bytes()),
{
    reveal_strlit("0x78c1b0c915c4faa5fffa6cabf0219da63d7f4cb8");
    let text = WMNT_ADDRESS;
    assert(text@.len() == 42);
    assert(vstd::string::is_ascii(text)) by {
        assert forall|i: int| 0 <= i < text@.len() implies (text@[i] as u32) < 128 by {}
    }
    broadcast use vstd::string::is_ascii_spec_bytes;
    let bytes = text.spec_bytes();
    assert(bytes.len() == 42);
    assert(bytes[0] == 48 && bytes[1] == 120);
    let digits = bytes.skip(2);
    assert(digits[0] != 48);
    assert(without_prefix(digits) == digits);
    assert(without_prefix(bytes) == digits);
    assert forall|i: int| 0 <= i < digits.len() implies hex_digit(#[trigger] digits[i]) is Some by {
        assert(digits[i] == bytes[i + 2]);
    }
    lemma_hex_text(digits);
}

/// The address text of the MOE token names an address.
pub proof fn lemma_moe_text()
    ensures
        names_address(MOE_ADDRESS.spec_bytes()),
{
    reveal_strlit("0x4515a45337f461a11ff0fe8abf3c606ae5dc00c9");
    let text = MOE_ADDRESS;
    assert(text@.len() == 42);
    assert(vstd::string::is_ascii(text)) by {
        assert forall|i: int| 0 <= i < text@.len() implies (text@[i] as u32) < 128 by {}
    }
    broadcast use vstd::string::is_ascii_spec_bytes;
    let bytes = text.spec_bytes();
    assert(bytes.len() == 42);
    assert(bytes[0] == 48 && bytes[1] == 120);
    let digits = bytes.skip(2);
    assert(digits[0] != 48);
    assert(without_prefix(digits) == digits);
    assert(without_prefix(bytes) == digits);
    assert forall|i: int| 0 <= i < digits.len() implies hex_digit(#[trigger] digits[i]) is Some by {
        assert(digits[i] == bytes[i + 2]);
    }
    lemma_hex_text(digits);
}

/// The address text of the JOE token names an address.
pub proof fn lemma_joe_text()
    ensures
        names_address(JOE_ADDRESS.spec_bytes()),
{
    reveal_strlit("0x371c7ec6d8039ff7933a2aa28eb827ffe1f52f07");
    let text = JOE_ADDRESS;
    assert(text@.len() == 42);
    assert(vstd::string::is_ascii(text)) by {
        assert forall|i: int| 0 <= i < text@.len() implies (text@[i] as u32) < 128 by {}
    }
    broadcast use vstd::string::is_ascii_spec_bytes;
    let bytes = text.spec_bytes();
    assert(bytes.len() == 42);
    assert(bytes[0] == 48 && bytes[1] == 120);
    let digits = bytes.skip(2);
    assert(digits[0] != 48);
    assert(without_prefix(digits) == digits);
    assert(without_prefix(bytes) == digits);
    assert forall|i: int| 0 <= i < digits.len() implies hex_digit(#[trigger] digits[i]) is Some by {
        assert(digits[i] == bytes[i + 2]);
    }
    lemma_hex_text(digits);
}

/// The address text of the MOE-WMNT pool names an address.
pub proof fn lemma_moe_wmnt_pool_text()
    ensures
        names_address(MOE_WMNT_POOL.spec_bytes()),
{
    reveal_strlit("0x763868612858358f62b05691dB82Ad35a9b3E110");
    let text = MOE_WMNT_POOL;
    assert(text@.len() == 42);
    assert(vstd::string::is_ascii(text)) by {
        assert forall|i: int| 0 <= i < text@.len() implies (text@[i] as u32) < 128 by {}
    }
    broadcast use vstd::string::is_ascii_spec_bytes;
    let bytes = text.spec_bytes();
    assert(bytes.len() == 42);
    assert(bytes[0] == 48 && bytes[1] == 120);
    let digits = bytes.skip(2);
    assert(digits[0] != 48);
    assert(without_prefix(digits) == digits);
    assert(without_prefix(bytes) == digits);
    assert forall|i: int| 0 <= i < digits.len() implies hex_digit(#[trigger] digits[i]) is Some by {
        assert(digits[i] == bytes[i + 2]);
    }
    lemma_hex_text(digits);
}

/// The address text of the JOE-MOE pool names an address.
pub proof fn lemma_joe_moe_pool_text()
    ensures
        names_address(JOE_MOE_POOL.spec_bytes()),
{
    reveal_strlit("0xb670D2B452D0Ecc468cccFD532482d45dDdDe2a1");
    let text = JOE_MOE_POOL;
    assert(text@.len() == 42);
    assert(vstd::string::is_ascii(text)) by {
        assert forall|i: int| 0 <= i < text@.len() implies (text@[i] as u32) < 128 by {}
    }
    broadcast use vstd::string::is_ascii_spec_bytes;
    let bytes = text.spec_bytes();
    assert(bytes.len() == 42);
    assert(bytes[0] == 48 && bytes[1] == 120);
    let digits = bytes.skip(2);
    assert(digits[0] != 48);
    assert(without_prefix(digits) == digits);
    assert(without_prefix(bytes) == digits);
    assert forall|i: int| 0 <= i < digits.len() implies hex_digit(#[trigger] digits[i]) is Some by {
        assert(digits[i] == bytes[i + 2]);
    }
    lemma_hex_text(digits);
}

/// The address text of the JOE-WMNT pool names an address.
pub proof fn lemma_joe_wmnt_pool_text()
    ensures
        names_address(JOE_WMNT_POOL.spec_bytes()),
{
    reveal_strlit("0xEFC38C1B0d60725B824EBeE8D431aBFBF12BC953");
    let text = JOE_WMNT_POOL;
    assert(text@.len() == 42);
    assert(vstd::string::is_ascii(text)) by {
        assert forall|i: int| 0 <= i < text@.len() implies (text@[i] as u32) < 128 by {}
    }
    broadcast use vstd::string::is_ascii_spec_bytes;
    let bytes = text.spec_bytes();
    assert(bytes.len() == 42);
    assert(bytes[0] == 48 && bytes[1] == 120);
    let digits = bytes.skip(2);
    assert(digits[0] != 48);
    assert(without_prefix(digits) == digits);
    assert(without_prefix(bytes) == digits);
    assert forall|i: int| 0 <= i < digits.len() implies hex_digit(#[trigger] digits[i]) is Some by {
        assert(digits[i] == bytes[i + 2]);
    }
    lemma_hex_text(digits);
}

/// Reads an address from a text that names one.
pub fn parse_known(text: &str) -> (address: Address)
    requires
        names_address(text.spec_bytes()),
    ensures
        is_address_of(address, text.spec_bytes()),
{
    parse_address(text).unwrap()
}

/// Address of the base token.
pub fn wmnt_address() -> (address: Address)
    ensures
        is_address_of(address, WMNT_ADDRESS.spec_bytes()),
{
    proof {
        lemma_wmnt_text();
    }
    parse_known(WMNT_ADDRESS)
}

/// Address of the MOE token.
pub fn moe_address() -> (address: Address)
    ensures
        is_address_of(address, MOE_ADDRESS.spec_bytes()),
{
    proof {
        lemma_moe_text();
    }
    parse_known(MOE_ADDRESS)
}

/// Address of the JOE token.
pub fn joe_address() -> (address: Address)
    ensures
        is_address_of(address, JOE_ADDRESS.spec_bytes()),
{
    proof {
        lemma_joe_text();
    }
    parse_known(JOE_ADDRESS)
}

} // verus!
