//! Byte counts for people.
//!
//! A size below 1024 bytes is written as a whole number of bytes. A larger
//! one is written in the largest of the units KB, MB and GB that it reaches,
//! each 1024 times the one before, with two decimal places.
//!
//! The value that is written is the one that double-precision arithmetic
//! gives: the byte count is first held to 53 significant binary digits, then
//! divided by the unit and rounded to hundredths. Both roundings go to the
//! nearest value, and to the even one of two that are equally near.

use vstd::arithmetic::div_mod::lemma_fundamental_div_mod;
use vstd::prelude::*;
use vstd::string::StringExecFns;

verus! {

/// Bytes in a KB.
pub const KB: u64 = 1024;

/// Bytes in a MB.
pub const MB: u64 = 1048576;

/// Bytes in a GB.
pub const GB: u64 = 1073741824;

/// The least natural number that needs more than 53 binary digits.
pub const DOUBLE_LIMIT: u64 = 0x20_0000_0000_0000;

/// The decimal digit `d`, for `d` below ten.
pub open spec fn digit_char(d: nat) -> char {
    if d == 0 {
        '0'
    } else if d == 1 {
        '1'
    } else if d == 2 {
        '2'
    } else if d == 3 {
        '3'
    } else if d == 4 {
        '4'
    } else if d == 5 {
        '5'
    } else if d == 6 {
        '6'
    } else if d == 7 {
        '7'
    } else if d == 8 {
        '8'
    } else {
        '9'
    }
}

/// The decimal numeral of `n`, without leading zeros.
pub open spec fn decimal(n: nat) -> Seq<char>
    decreases n,
{
    if n < 10 {
        seq![digit_char(n)]
    } else {
        decimal(n / 10).push(digit_char(n % 10))
    }
}

/// The quotient of `numerator` by `denominator`, rounded to the nearest
/// natural number, and to the even one where two are equally near.
pub open spec fn round_half_even(numerator: nat, denominator: nat) -> nat {
    let quotient = numerator / denominator;
    let twice_rest = 2 * (numerator % denominator);
    if twice_rest < denominator {
        quotient
    } else if twice_rest > denominator {
        quotient + 1
    } else if quotient % 2 == 0 {
        quotient
    } else {
        quotient + 1
    }
}

/// The distance between neighbouring doubles at `n`: 1 below 2^53, and
/// twice as much each time `n` doubles from there.
pub open spec fn double_step(n: nat) -> nat
    decreases n,
{
    if n < DOUBLE_LIMIT {
        1
    } else {
        2 * double_step(n / 2)
    }
}

/// The double that is nearest to `n`: `n` held to 53 significant binary
/// digits.
pub open spec fn nearest_double(n: nat) -> nat {
    round_half_even(n, double_step(n)) * double_step(n)
}

/// The number of hundredths of `unit` in `bytes`, as it is written.
pub open spec fn hundredths(bytes: nat, unit: nat) -> nat {
    round_half_even(nearest_double(bytes) * 100, unit)
}

/// A number of hundredths as a numeral with two decimal places.
pub open spec fn two_places(hundredths: nat) -> Seq<char> {
    decimal(hundredths / 100) + seq!['.', digit_char(hundredths / 10 % 10), digit_char(hundredths % 10)]
}

/// The text for a size of `bytes` bytes.
pub open spec fn size_text(bytes: nat) -> Seq<char> {
    if bytes >= GB {
        two_places(hundredths(bytes, GB as nat)) + seq![' ', 'G', 'B']
    } else if bytes >= MB {
        two_places(hundredths(bytes, MB as nat)) + seq![' ', 'M', 'B']
    } else if bytes >= KB {
        two_places(hundredths(bytes, KB as nat)) + seq![' ', 'K', 'B']
    } else {
        decimal(bytes) + seq![' ', 'B']
    }
}

/// The rounded quotient is the nearest natural number: it is off by half at
/// most.
pub proof fn lemma_round_half_even_is_nearest(numerator: nat, denominator: nat)
    requires
        denominator > 0,
    ensures
        2 * (round_half_even(numerator, denominator) * denominator - numerator) <= denominator,
        2 * (numerator - round_half_even(numerator, denominator) * denominator) <= denominator,
{
    let quotient = numerator / denominator;
    let rest = numerator % denominator;
    lemma_fundamental_div_mod(numerator as int, denominator as int);
    assert((quotient + 1) * denominator == quotient * denominator + denominator) by (nonlinear_arith);
    assert(denominator * quotient == quotient * denominator) by (nonlinear_arith);
}

/// A natural number below 2^53 is a double: it is written as it is.
pub proof fn lemma_exact_below_limit(n: nat)
    requires
        n < DOUBLE_LIMIT,
    ensures
        nearest_double(n) == n,
{
    assert(double_step(n) == 1);
    assert(round_half_even(n, 1) == n);
}

/// The numeral of one decimal digit.
fn digit_text(d: u8) -> (text: &'static str)
    requires
        d < 10,
    ensures
        text@ == seq![digit_char(d as nat)],
{
    proof {
        reveal_strlit("0");
        reveal_strlit("1");
        reveal_strlit("2");
        reveal_strlit("3");
        reveal_strlit("4");
        reveal_strlit("5");
        reveal_strlit("6");
        reveal_strlit("7");
        reveal_strlit("8");
        reveal_strlit("9");
    }
    let text = if d == 0 {
        "0"
    } else if d == 1 {
        "1"
    } else if d == 2 {
        "2"
    } else if d == 3 {
        "3"
    } else if d == 4 {
        "4"
    } else if d == 5 {
        "5"
    } else if d == 6 {
        "6"
    } else if d == 7 {
        "7"
    } else if d == 8 {
        "8"
    } else {
        "9"
    };
    assert(text@ =~= seq![digit_char(d as nat)]);
    text
}

/// Appends the decimal numeral of `n` to `text`.
fn push_decimal(text: &mut String, n: u128)
    ensures
        final(text)@ == old(text)@ + decimal(n as nat),
    decreases n,
{
    if n >= 10 {
        push_decimal(text, n / 10);
    }
    text.append(digit_text((n % 10) as u8));
}

/// Computes [`round_half_even`].
fn rounded_quotient(numerator: u128, denominator: u128) -> (rounded: u128)
    requires
        0 < denominator <= u64::MAX,
    ensures
        rounded == round_half_even(numerator as nat, denominator as nat),
{
    let quotient = numerator / denominator;
    let twice_rest = 2 * (numerator % denominator);
    proof {
        // Where the quotient is rounded up, the denominator is 2 at least, and
        // the quotient is half the numerator at most: adding one stays in range.
        lemma_fundamental_div_mod(numerator as int, denominator as int);
        assert(twice_rest >= denominator ==> 2 * quotient <= numerator) by (nonlinear_arith)
            requires
                numerator == denominator * quotient + (numerator % denominator),
                twice_rest == 2 * (numerator % denominator),
                numerator % denominator < denominator,
                0 <= quotient,
        ;
    }
    if twice_rest < denominator {
        quotient
    } else if twice_rest > denominator {
        quotient + 1
    } else if quotient % 2 == 0 {
        quotient
    } else {
        quotient + 1
    }
}

/// Computes [`double_step`].
fn step_at(bytes: u64) -> (step: u64)
    ensures
        step == double_step(bytes as nat),
        0 < step,
        step == 1 || step <= bytes,
{
    let mut step: u64 = 1;
    let mut top: u64 = bytes;
    while top >= DOUBLE_LIMIT
        invariant
            0 < step,
            step * top <= bytes,
            step == 1 || step <= bytes,
            double_step(bytes as nat) == step * double_step(top as nat),
        decreases top,
    {
        proof {
            let half = (top / 2) as nat;
            assert(step < 2048 && (step * 2) * half <= bytes && step * 2 <= bytes)
                by (nonlinear_arith)
                requires
                    step * top <= bytes,
                    bytes < 0x1_0000_0000_0000_0000,
                    top >= 0x20_0000_0000_0000,
                    2 * half <= top,
                    half >= 1,
                    0 < step,
            ;
            assert(double_step(top as nat) == 2 * double_step(half));
            assert(step * (2 * double_step(half)) == (step * 2) * double_step(half))
                by (nonlinear_arith);
        }
        top = top / 2;
        step = step * 2;
    }
    assert(double_step(bytes as nat) == step) by {
        assert(double_step(top as nat) == 1);
        assert(step * 1 == step);
    }
    step
}

/// Computes [`nearest_double`].
fn to_double(bytes: u64) -> (nearest: u128)
    ensures
        nearest == nearest_double(bytes as nat),
        nearest <= 2 * bytes + 1,
{
    let step = step_at(bytes);
    let rounded = rounded_quotient(bytes as u128, step as u128);
    proof {
        lemma_fundamental_div_mod(bytes as int, step as int);
        assert(rounded * step <= bytes + step) by (nonlinear_arith)
            requires
                rounded <= bytes as int / step as int + 1,
                bytes == step * (bytes as int / step as int) + (bytes as int % step as int),
                0 <= bytes as int % step as int,
                0 < step,
        ;
    }
    rounded * (step as u128)
}

/// The text for `bytes` in a unit of `unit` bytes, named by `suffix`.
fn scaled_text(bytes: u64, unit: u64, suffix: &str) -> (text: String)
    requires
        unit >= KB,
    ensures
        text@ == two_places(hundredths(bytes as nat, unit as nat)) + suffix@,
{
    let scaled = rounded_quotient(to_double(bytes) * 100, unit as u128);
    let mut text = String::new();
    push_decimal(&mut text, scaled / 100);
    text.append(".");
    text.append(digit_text((scaled / 10 % 10) as u8));
    text.append(digit_text((scaled % 10) as u8));
    text.append(suffix);
    proof {
        reveal_strlit(".");
        let h = scaled as nat;
        assert(seq!['.'] + seq![digit_char(h / 10 % 10)] + seq![digit_char(h % 10)] == seq![
            '.',
            digit_char(h / 10 % 10),
            digit_char(h % 10),
        ]);
        assert("."@ == seq!['.']);
    }
    text
}

/// Formats a size in bytes for people: `"512 B"`, `"1.50 KB"`, `"1.00 GB"`.
///
/// Below 1024 the bytes are written as they are. From there the size is
/// written in KB, in MB from 1024 KB and in GB from 1024 MB, with two
/// decimal places. There is no larger unit: a size of many thousands of GB
/// is written in GB.
pub fn format_size(bytes: u64) -> (text: String)
    ensures
        text@ == size_text(bytes as nat),
{
    proof {
        reveal_strlit(" GB");
        reveal_strlit(" MB");
        reveal_strlit(" KB");
        reveal_strlit(" B");
        assert(" GB"@ == seq![' ', 'G', 'B']);
        assert(" MB"@ == seq![' ', 'M', 'B']);
        assert(" KB"@ == seq![' ', 'K', 'B']);
        assert(" B"@ == seq![' ', 'B']);
    }
    if bytes >= GB {
        scaled_text(bytes, GB, " GB")
    } else if bytes >= MB {
        scaled_text(bytes, MB, " MB")
    } else if bytes >= KB {
        scaled_text(bytes, KB, " KB")
    } else {
        let mut text = String::new();
        push_decimal(&mut text, bytes as u128);
        text.append(" B");
        text
    }
}

} // verus!
