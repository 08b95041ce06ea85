//! Detection of finalized-chain reorganizations.
//!
//! The Index task persists each finalized block's ID, and every later fetch
//! of a block is held against that record. Finalized blocks are assumed
//! immutable, so a mismatch is unrecoverable: the caller must halt with the
//! message built here, which names both IDs in hexadecimal and the block
//! number.

use vstd::prelude::*;
use vstd::string::StringExecFns;
use crate::output::bytes_eq;

verus! {

/// The lowercase hexadecimal digit for `n`, which is below sixteen.
pub open spec fn hex_digit(n: u8) -> char {
    if n == 0 {
        '0'
    } else if n == 1 {
        '1'
    } else if n == 2 {
        '2'
    } else if n == 3 {
        '3'
    } else if n == 4 {
        '4'
    } else if n == 5 {
        '5'
    } else if n == 6 {
        '6'
    } else if n == 7 {
        '7'
    } else if n == 8 {
        '8'
    } else if n == 9 {
        '9'
    } else if n == 10 {
        'a'
    } else if n == 11 {
        'b'
    } else if n == 12 {
        'c'
    } else if n == 13 {
        'd'
    } else if n == 14 {
        'e'
    } else {
        'f'
    }
}

/// The lowercase hexadecimal rendering of `b`: two digits per byte, high
/// nibble first.
pub open spec fn hex_of(b: Seq<u8>) -> Seq<char>
    decreases b.len(),
{
    if b.len() == 0 {
        Seq::empty()
    } else {
        hex_of(b.drop_last()) + seq![hex_digit(b.last() / 16), hex_digit(b.last() % 16)]
    }
}

/// Relies on `hex::encode`: each byte becomes two lowercase hexadecimal
/// digits, high nibble first, in byte order.
#[verifier::external_body]
fn encode_hex(b: &Vec<u8>) -> (r: String)
    ensures
        r@ == hex_of(b@),
{
    hex::encode(b.as_slice())
}

/// The decimal digit for `n`, which is below ten.
pub open spec fn dec_digit(n: int) -> char {
    if n == 0 {
        '0'
    } else if n == 1 {
        '1'
    } else if n == 2 {
        '2'
    } else if n == 3 {
        '3'
    } else if n == 4 {
        '4'
    } else if n == 5 {
        '5'
    } else if n == 6 {
        '6'
    } else if n == 7 {
        '7'
    } else if n == 8 {
        '8'
    } else {
        '9'
    }
}

/// The decimal rendering of `n`, most significant digit first, with no
/// leading zeroes (zero itself is the single digit `0`).
pub open spec fn decimal_of(n: int) -> Seq<char>
    decreases n,
{
    if n < 10 {
        seq![dec_digit(n)]
    } else {
        decimal_of(n / 10) + seq![dec_digit(n % 10)]
    }
}

fn digit_str(d: u64) -> (r: &'static str)
    requires
        d < 10,
    ensures
        r@ == seq![dec_digit(d as int)],
{
    proof {
        reveal_strlit("0");
        reveal_strlit("1");
        reveal_strlit("2");
        reveal_strlit("3");
        reveal_strlit("4");
        reveal_strlit("5");
        reveal_strlit("6");
        reveal_strlit("7");
        reveal_strlit("8");
        reveal_strlit("9");
    }
    let r = match d {
        0u64 => "0",
        1u64 => "1",
        2u64 => "2",
        3u64 => "3",
        4u64 => "4",
        5u64 => "5",
        6u64 => "6",
        7u64 => "7",
        8u64 => "8",
        _ => "9",
    };
    proof {
        assert(r@ =~= seq![dec_digit(d as int)]);
    }
    r
}

/// Render `n` in decimal.
pub fn u64_to_decimal(n: u64) -> (r: String)
    ensures
        r@ == decimal_of(n as int),
    decreases n,
{
    if n < 10 {
        digit_str(n).to_owned()
    } else {
        let mut high = u64_to_decimal(n / 10);
        high.append(digit_str(n % 10));
        high
    }
}

/// Whether a fetched block's ID matches the ID the Index task persisted.
///
/// A mismatch means the finalized chain reorganized, which violates the
/// scanner's trust assumption; the caller must halt with `reorg_message`.
pub fn block_id_matches(expected: &Vec<u8>, got: &Vec<u8>) -> (r: bool)
    ensures
        r == (expected@ == got@),
{
    bytes_eq(expected, got)
}

/// The text `reorg_message` produces.
pub open spec fn spec_reorg_message(expected: Seq<u8>, got: Seq<u8>, number: int) -> Seq<char> {
    "finalized chain reorganized from "@ + hex_of(expected) + " to "@ + hex_of(got) + " at "@
        + decimal_of(number)
}

/// The message a finalized-chain reorganization halts with: both IDs in
/// hexadecimal, and the block number in decimal.
pub fn reorg_message(expected: &Vec<u8>, got: &Vec<u8>, number: u64) -> (r: String)
    ensures
        r@ == spec_reorg_message(expected@, got@, number as int),
{
    let mut msg = "finalized chain reorganized from ".to_owned();
    let expected_hex = encode_hex(expected);
    msg.append(expected_hex.as_str());
    msg.append(" to ");
    let got_hex = encode_hex(got);
    msg.append(got_hex.as_str());
    msg.append(" at ");
    let number_dec = u64_to_decimal(number);
    msg.append(number_dec.as_str());
    msg
}

} // verus!
