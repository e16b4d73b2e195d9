//! Decimal rendering of byte counts: whole numbers, and megabytes with one
//! decimal digit for the oversized-file placeholder.

use vstd::prelude::*;

verus! {

/// The character for the decimal digit `d`.
pub open spec fn digit_char(d: int) -> char {
    (48 + d) as char
}

/// The decimal digit string of `n`, most significant digit first.
pub open spec fn spec_decimal(n: nat) -> Seq<char>
    decreases n,
{
    if n < 10 {
        seq![digit_char(n as int)]
    } else {
        spec_decimal(n / 10) + seq![digit_char((n % 10) as int)]
    }
}

fn digit_str(d: u64) -> (r: &'static str)
    requires
        d < 10,
    ensures
        r@ == seq![digit_char(d as int)],
{
    proof {
        reveal_strlit("0");
        reveal_strlit("1");
        reveal_strlit("2");
        reveal_strlit("3");
        reveal_strlit("4");
        reveal_strlit("5");
        reveal_strlit("6");
        reveal_strlit("7");
        reveal_strlit("8");
        reveal_strlit("9");
    }
    if d == 0 {
        "0"
    } else if d == 1 {
        "1"
    } else if d == 2 {
        "2"
    } else if d == 3 {
        "3"
    } else if d == 4 {
        "4"
    } else if d == 5 {
        "5"
    } else if d == 6 {
        "6"
    } else if d == 7 {
        "7"
    } else if d == 8 {
        "8"
    } else {
        "9"
    }
}

/// Renders `n` as its decimal digit string.
pub fn u64_to_string(n: u64) -> (r: String)
    ensures
        r@ == spec_decimal(n as nat),
    decreases n,
{
    if n < 10 {
        String::from_str(digit_str(n))
    } else {
        let mut r = u64_to_string(n / 10);
        r.append(digit_str(n % 10));
        r
    }
}

/// `bytes` expressed in tenths of a megabyte, rounded to the nearest tenth
/// (half upward).
pub open spec fn spec_mb_tenths(bytes: u64) -> int {
    (bytes + 50_000) / 100_000
}

/// `bytes` expressed in megabytes with exactly one decimal digit.
pub open spec fn spec_mb(bytes: u64) -> Seq<char> {
    spec_decimal((spec_mb_tenths(bytes) / 10) as nat) + seq!['.'] + seq![
        digit_char(spec_mb_tenths(bytes) % 10),
    ]
}

/// Renders `bytes` in megabytes with one decimal digit, e.g. `2.3`.
pub fn mb_string(bytes: u64) -> (r: String)
    ensures
        r@ == spec_mb(bytes),
{
    let tenths: u128 = ((bytes as u128) + 50_000) / 100_000;
    assert(tenths == spec_mb_tenths(bytes));
    assert(tenths < 0x8000_0000_0000_0000);
    let whole: u64 = (tenths / 10) as u64;
    let frac: u64 = (tenths % 10) as u64;
    let mut r = u64_to_string(whole);
    r.append(".");
    r.append(digit_str(frac));
    proof {
        reveal_strlit(".");
    }
    r
}

} // verus!
