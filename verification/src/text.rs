//! Decimal and hexadecimal renderings of numbers in messages and summaries.
use vstd::prelude::*;
use vstd::string::*;

verus! {

/// The ASCII digit for `d` (`0..16`), lower case for `10..16`.
pub open spec fn spec_digit(d: nat) -> char {
    if d < 10 {
        (48 + d) as char
    } else {
        (87 + d) as char
    }
}

/// The decimal rendering of `n`, without leading zeros.
pub open spec fn spec_decimal(n: nat) -> Seq<char>
    decreases n,
{
    if n < 10 {
        seq![spec_digit(n)]
    } else {
        spec_decimal(n / 10).push(spec_digit(n % 10))
    }
}

/// The last `k` hexadecimal digits of `v`, most significant first.
pub open spec fn spec_hex_digits(v: nat, k: nat) -> Seq<char>
    decreases k,
{
    if k == 0 {
        Seq::empty()
    } else {
        spec_hex_digits(v / 16, (k - 1) as nat).push(spec_digit(v % 16))
    }
}

/// The one-character text of the digit `d`.
fn digit_text(d: u64) -> (text: &'static str)
    requires
        d < 16,
    ensures
        text@ == seq![spec_digit(d as nat)],
{
    proof {
        reveal_strlit("0");
        reveal_strlit("1");
        reveal_strlit("2");
        reveal_strlit("3");
        reveal_strlit("4");
        reveal_strlit("5");
        reveal_strlit("6");
        reveal_strlit("7");
        reveal_strlit("8");
        reveal_strlit("9");
        reveal_strlit("a");
        reveal_strlit("b");
        reveal_strlit("c");
        reveal_strlit("d");
        reveal_strlit("e");
        reveal_strlit("f");
    }
    match d {
        0 => "0",
        1 => "1",
        2 => "2",
        3 => "3",
        4 => "4",
        5 => "5",
        6 => "6",
        7 => "7",
        8 => "8",
        9 => "9",
        10 => "a",
        11 => "b",
        12 => "c",
        13 => "d",
        14 => "e",
        _ => "f",
    }
}

/// Append the decimal rendering of `n` to `out`.
fn append_decimal(n: u64, out: &mut String)
    ensures
        final(out)@ == old(out)@ + spec_decimal(n as nat),
    decreases n,
{
    if n >= 10 {
        append_decimal(n / 10, out);
    }
    out.append(digit_text(n % 10));
}

/// Append the last `k` hexadecimal digits of `v` to `out`.
fn append_hex_digits(v: u64, k: u64, out: &mut String)
    ensures
        final(out)@ == old(out)@ + spec_hex_digits(v as nat, k as nat),
    decreases k,
{
    if k > 0 {
        append_hex_digits(v / 16, k - 1, out);
        out.append(digit_text(v % 16));
    }
}

/// The decimal rendering of `n`, without leading zeros.
pub fn decimal_text(n: usize) -> (text: String)
    ensures
        text@ == spec_decimal(n as nat),
{
    let mut out = String::new();
    append_decimal(n as u64, &mut out);
    out
}

/// The 16 lower-case hexadecimal digits of `v`, zero-padded.
pub fn hex16_text(v: u64) -> (text: String)
    ensures
        text@ == spec_hex_digits(v as nat, 16),
{
    let mut out = String::new();
    append_hex_digits(v, 16, &mut out);
    out
}

} // verus!
