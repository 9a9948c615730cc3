use vstd::prelude::*;
use vstd::string::StringExecFns;

use crate::model::{dec_str, digit_char, grouped, sign_seq};

verus! {

/// The one-character string for a decimal digit value.
pub(crate) fn digit_str(d: u64) -> (s: &'static str)
    requires
        d < 10,
    ensures
        s@ == seq![digit_char(d as int)],
{
    proof {
        reveal_strlit("0");
        reveal_strlit("1");
        reveal_strlit("2");
        reveal_strlit("3");
        reveal_strlit("4");
        reveal_strlit("5");
        reveal_strlit("6");
        reveal_strlit("7");
        reveal_strlit("8");
        reveal_strlit("9");
    }
    if d == 0 {
        "0"
    } else if d == 1 {
        "1"
    } else if d == 2 {
        "2"
    } else if d == 3 {
        "3"
    } else if d == 4 {
        "4"
    } else if d == 5 {
        "5"
    } else if d == 6 {
        "6"
    } else if d == 7 {
        "7"
    } else if d == 8 {
        "8"
    } else {
        "9"
    }
}

/// Plain decimal digit string of `n`, no separators.
pub fn dec_string(n: u64) -> (s: String)
    ensures
        s@ == dec_str(n as nat),
    decreases n,
{
    if n < 10 {
        String::from_str(digit_str(n))
    } else {
        let mut s = dec_string(n / 10);
        s.append(digit_str(n % 10));
        s
    }
}

/// Comma-grouped decimal string of a non-negative integer.
pub fn group_string(n: u64) -> (s: String)
    ensures
        s@ == grouped(n as nat),
    decreases n,
{
    if n < 1000 {
        dec_string(n)
    } else {
        let mut s = group_string(n / 1000);
        let r = n % 1000;
        s.append(",");
        s.append(digit_str(r / 100));
        s.append(digit_str((r / 10) % 10));
        s.append(digit_str(r % 10));
        proof {
            reveal_strlit(",");
            assert(s@ =~= grouped(n as nat));
        }
        s
    }
}

/// Magnitude of a signed amount as an unsigned integer; total, including
/// the most negative value.
pub(crate) fn magnitude(a: i64) -> (m: u64)
    ensures
        m == crate::model::abs_val(a as int),
{
    if a >= 0 {
        a as u64
    } else {
        (-(a as i128)) as u64
    }
}

/// Groups the digits of `n` with a comma every three digits from the right;
/// a negative input keeps a single leading minus before the grouped magnitude.
pub fn format_with_commas(n: i64) -> (s: String)
    ensures
        s@ == sign_seq(n < 0) + grouped(crate::model::abs_val(n as int)),
{
    let m = magnitude(n);
    if n < 0 {
        proof {
            reveal_strlit("-");
        }
        let mut s = String::from_str("-");
        let g = group_string(m);
        s.append(g.as_str());
        proof {
            assert(s@ =~= sign_seq(true) + grouped(crate::model::abs_val(n as int)));
        }
        s
    } else {
        let s = group_string(m);
        proof {
            assert(s@ =~= sign_seq(false) + grouped(crate::model::abs_val(n as int)));
        }
        s
    }
}

} // verus!
