use vstd::prelude::*;
use vstd::string::StringExecFns;

use crate::group::{dec_string, digit_str, group_string, magnitude};
use crate::model::{abs_val, dec_str, frac2, grouped, naira_symbol, sign_seq};

verus! {

/// `format_naira` output for an amount of `a` thousandths of a naira: the
/// magnitude is first rounded to a whole count of kobo (half away from
/// zero), then rendered as symbol, sign, comma-grouped whole naira, a dot,
/// and exactly two kobo digits — a fraction that rounds up to a whole naira
/// carries into the grouped part.
pub open spec fn spec_format_naira(a: int) -> Seq<char> {
    let k = (abs_val(a) + 5) / 10;
    seq![naira_symbol()] + sign_seq(a < 0) + grouped((k / 100) as nat) + seq!['.'] + frac2(
        (k % 100) as nat,
    )
}

/// `format_kobo_to_naira` output for a whole count of kobo: symbol, sign,
/// comma-grouped whole naira, a dot, and the two remaining kobo digits.
pub open spec fn spec_format_kobo_to_naira(k: int) -> Seq<char> {
    let m = abs_val(k);
    seq![naira_symbol()] + sign_seq(k < 0) + grouped(m / 100) + seq!['.'] + frac2(m % 100)
}

/// `format_naira_to_kobo` output: sign and the plain digit string of the
/// amount rounded to whole kobo (half away from zero); no symbol, no commas.
pub open spec fn spec_format_naira_to_kobo(a: int) -> Seq<char> {
    sign_seq(a < 0) + dec_str((abs_val(a) + 5) / 10)
}

/// One fractional digit after a dot, or nothing when it is zero.
pub open spec fn frac_opt(d: nat) -> Seq<char> {
    if d == 0 {
        Seq::<char>::empty()
    } else {
        seq!['.'] + dec_str(d)
    }
}

/// Two fractional digits after a dot, or nothing when they are zero.
pub open spec fn frac2_opt(d: nat) -> Seq<char> {
    if d == 0 {
        Seq::<char>::empty()
    } else {
        seq!['.'] + frac2(d)
    }
}

/// A suffixed compact tier: symbol, sign, whole part, one rounded fractional
/// digit (omitted when zero), then the tier suffix. `x` is the tier-divided
/// magnitude in tenths, already rounded half away from zero, so a fraction
/// that rounds up to the next whole carries into the whole part.
pub open spec fn compact_tier(neg: bool, x: nat, suffix: Seq<char>) -> Seq<char> {
    seq![naira_symbol()] + sign_seq(neg) + dec_str(x / 10) + frac_opt(x % 10) + suffix
}

/// `format_naira_compact` output for `a` thousandths of a naira. Magnitude
/// tiers are half-open — a boundary value belongs to the higher tier — and
/// the tier is fixed by the magnitude before rounding. Below a thousand
/// naira the amount is rounded to whole kobo and shown with up to two
/// fractional digits; the suffixed tiers keep at most one.
pub open spec fn spec_format_compact(a: int) -> Seq<char> {
    let m = abs_val(a);
    if m < 1000000 {
        let k = (m + 5) / 10;
        seq![naira_symbol()] + sign_seq(a < 0) + grouped(k / 100) + frac2_opt(k % 100)
    } else if m < 1000000000 {
        compact_tier(a < 0, (m + 50000) / 100000, seq!['K'])
    } else if m < 1000000000000 {
        compact_tier(a < 0, (m + 50000000) / 100000000, seq!['M'])
    } else {
        compact_tier(a < 0, (m + 50000000000) / 100000000000, seq!['B'])
    }
}

/// Starts an output string with the currency symbol and, for a negative
/// amount, a minus sign.
fn symbol_and_sign(neg: bool) -> (s: String)
    ensures
        s@ == seq![naira_symbol()] + sign_seq(neg),
{
    proof {
        reveal_strlit("\u{20a6}");
        reveal_strlit("-");
    }
    let mut s = String::from_str("\u{20a6}");
    if neg {
        s.append("-");
    }
    proof {
        assert(s@ =~= seq![naira_symbol()] + sign_seq(neg));
    }
    s
}

/// Appends the two-digit fraction `f`, zero padded.
fn append_frac2(s: &mut String, f: u64)
    requires
        f < 100,
    ensures
        final(s)@ == old(s)@ + frac2(f as nat),
{
    if f < 10 {
        s.append(digit_str(0));
        s.append(digit_str(f));
    } else {
        let d = dec_string(f);
        s.append(d.as_str());
    }
    proof {
        assert(s@ =~= old(s)@ + frac2(f as nat));
    }
}

/// The magnitude of `a` in thousandths, rounded to whole kobo half away
/// from zero.
fn rounded_kobo(a: i64) -> (k: u64)
    ensures
        k == (abs_val(a as int) + 5) / 10,
{
    let m = magnitude(a);
    m / 10 + if m % 10 >= 5 {
        1
    } else {
        0
    }
}

/// Formats an amount of `a` thousandths of a naira in full: the currency
/// symbol, a minus for negative amounts, the comma-grouped whole naira, and
/// exactly two fractional digits, the amount rounded to whole kobo half away
/// from zero (a fraction that rounds up to a whole naira carries).
pub fn format_naira(a: i64) -> (s: String)
    ensures
        s@ == spec_format_naira(a as int),
{
    let k = rounded_kobo(a);
    let mut s = symbol_and_sign(a < 0);
    let g = group_string(k / 100);
    s.append(g.as_str());
    proof {
        reveal_strlit(".");
    }
    s.append(".");
    append_frac2(&mut s, k % 100);
    proof {
        assert(s@ =~= spec_format_naira(a as int));
    }
    s
}

/// Formats a whole count of kobo as naira: the currency symbol, a minus for
/// negative counts, the comma-grouped whole naira, and the two remaining
/// kobo digits. No rounding happens: the count is already exact.
pub fn format_kobo_to_naira(k: i64) -> (s: String)
    ensures
        s@ == spec_format_kobo_to_naira(k as int),
{
    let m = magnitude(k);
    let mut s = symbol_and_sign(k < 0);
    let g = group_string(m / 100);
    s.append(g.as_str());
    proof {
        reveal_strlit(".");
    }
    s.append(".");
    append_frac2(&mut s, m % 100);
    proof {
        assert(s@ =~= spec_format_kobo_to_naira(k as int));
    }
    s
}

/// Converts an amount of `a` thousandths of a naira to a whole count of kobo,
/// rounded half away from zero, as a plain digit string with an optional
/// leading minus: no symbol and no grouping.
pub fn format_naira_to_kobo(a: i64) -> (s: String)
    ensures
        s@ == spec_format_naira_to_kobo(a as int),
{
    let kobo = rounded_kobo(a);
    proof {
        reveal_strlit("-");
    }
    if a < 0 {
        let mut s = String::from_str("-");
        let d = dec_string(kobo);
        s.append(d.as_str());
        proof {
            assert(s@ =~= spec_format_naira_to_kobo(a as int));
        }
        s
    } else {
        let s = dec_string(kobo);
        proof {
            assert(s@ =~= spec_format_naira_to_kobo(a as int));
        }
        s
    }
}

/// Appends one fractional digit `d` after a dot, or nothing when it is zero,
/// then the tier suffix.
fn append_frac_opt_and_suffix(s: &mut String, d: u64, suffix: &str)
    requires
        d <= 9,
    ensures
        final(s)@ == old(s)@ + frac_opt(d as nat) + suffix@,
{
    if d > 0 {
        proof {
            reveal_strlit(".");
        }
        s.append(".");
        let t = dec_string(d);
        s.append(t.as_str());
    }
    s.append(suffix);
    proof {
        assert(s@ =~= old(s)@ + frac_opt(d as nat) + suffix@);
    }
}

/// Formats an amount of `a` thousandths of a naira compactly, choosing a
/// magnitude tier by absolute value: below a thousand naira the full value
/// rounded to whole kobo with up to two decimals, then thousands `K`,
/// millions `M`, and billions `B`, each with one rounded decimal. A
/// fractional part that rounds to zero is omitted entirely, and one that
/// rounds up to the next whole carries into the whole part; boundary values
/// belong to the higher tier, fixed by the magnitude before rounding.
pub fn format_naira_compact(a: i64) -> (s: String)
    ensures
        s@ == spec_format_compact(a as int),
{
    let m = magnitude(a);
    let mut s = symbol_and_sign(a < 0);
    proof {
        reveal_strlit("K");
        reveal_strlit("M");
        reveal_strlit("B");
        reveal_strlit("");
    }
    if m < 1000000 {
        let k = rounded_kobo(a);
        let g = group_string(k / 100);
        s.append(g.as_str());
        let d = k % 100;
        if d > 0 {
            proof {
                reveal_strlit(".");
            }
            s.append(".");
            append_frac2(&mut s, d);
        }
    } else if m < 1000000000 {
        let x = (m + 50000) / 100000;
        let w = dec_string(x / 10);
        s.append(w.as_str());
        append_frac_opt_and_suffix(&mut s, x % 10, "K");
    } else if m < 1000000000000 {
        let x = (m + 50000000) / 100000000;
        let w = dec_string(x / 10);
        s.append(w.as_str());
        append_frac_opt_and_suffix(&mut s, x % 10, "M");
    } else {
        let x = (m + 50000000000) / 100000000000;
        let w = dec_string(x / 10);
        s.append(w.as_str());
        append_frac_opt_and_suffix(&mut s, x % 10, "B");
    }
    proof {
        assert(s@ =~= spec_format_compact(a as int));
    }
    s
}

} // verus!
