use vstd::prelude::*;

verus! {

/// The character for one decimal digit value (0 through 9).
pub open spec fn digit_char(d: int) -> char {
    if d == 0 {
        '0'
    } else if d == 1 {
        '1'
    } else if d == 2 {
        '2'
    } else if d == 3 {
        '3'
    } else if d == 4 {
        '4'
    } else if d == 5 {
        '5'
    } else if d == 6 {
        '6'
    } else if d == 7 {
        '7'
    } else if d == 8 {
        '8'
    } else {
        '9'
    }
}

pub open spec fn is_digit(c: char) -> bool {
    '0' as u32 <= c as u32 <= '9' as u32
}

/// Numeric value of a decimal digit character.
pub open spec fn digit_val(c: char) -> int {
    c as u32 - '0' as u32
}

/// Decimal digit string of a non-negative integer, most significant digit first,
/// no separators, no leading zeros (except for 0 itself).
pub open spec fn dec_str(n: nat) -> Seq<char>
    decreases n,
{
    if n < 10 {
        seq![digit_char(n as int)]
    } else {
        dec_str(n / 10) + seq![digit_char((n % 10) as int)]
    }
}

/// Number of digits in the decimal representation of `n`.
pub open spec fn num_digits(n: nat) -> nat
    decreases n,
{
    if n < 10 {
        1
    } else {
        1 + num_digits(n / 10)
    }
}

/// Exactly three digits, zero padded; used for every comma group but the leftmost.
pub open spec fn pad3(n: nat) -> Seq<char> {
    seq![
        digit_char((n / 100) as int),
        digit_char(((n / 10) % 10) as int),
        digit_char((n % 10) as int),
    ]
}

/// Comma-grouped decimal string of a non-negative integer: a comma every
/// three digits counting from the least significant one, never before the
/// first digit.
pub open spec fn grouped(n: nat) -> Seq<char>
    decreases n,
{
    if n < 1000 {
        dec_str(n)
    } else {
        grouped(n / 1000) + seq![','] + pad3((n % 1000) as nat)
    }
}

/// A leading minus for negative amounts, nothing otherwise.
pub open spec fn sign_seq(negative: bool) -> Seq<char> {
    if negative {
        seq!['-']
    } else {
        Seq::<char>::empty()
    }
}

/// Two-digit zero-padded fraction.
pub open spec fn frac2(f: nat) -> Seq<char> {
    if f < 10 {
        seq!['0', digit_char(f as int)]
    } else {
        dec_str(f)
    }
}

/// The fixed currency symbol.
pub open spec fn naira_symbol() -> char {
    '\u{20a6}'
}

/// Magnitude of an integer.
pub open spec fn abs_val(a: int) -> nat {
    if a >= 0 {
        a as nat
    } else {
        (-a) as nat
    }
}

} // verus!
