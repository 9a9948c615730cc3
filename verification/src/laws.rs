use vstd::prelude::*;

use crate::format::{
    spec_format_compact, spec_format_kobo_to_naira, spec_format_naira, spec_format_naira_to_kobo,
};
use crate::model::{
    abs_val, dec_str, digit_char, digit_val, frac2, grouped, is_digit, naira_symbol, num_digits,
    pad3, sign_seq,
};
use crate::parse::{
    all_digits, digits_val, frac_milli, fraction_part, is_space, keep_char,
    lemma_first_dot_at, num_parts_valid, num_value, spec_number, spec_parse, spec_trim, stripped,
    trim_end, trim_start, whole_part, ParseError,
};

verus! {

/// The character of a digit value is a digit character with that value.
pub proof fn lemma_digit_char(d: int)
    requires
        0 <= d < 10,
    ensures
        is_digit(digit_char(d)),
        digit_val(digit_char(d)) == d,
{
}

/// A decimal digit string is made of digit characters, reads back as the
/// number it was made from, and is exactly as long as the number's digit
/// count.
pub proof fn lemma_dec_str(n: nat)
    ensures
        all_digits(dec_str(n)),
        digits_val(dec_str(n)) == n,
        dec_str(n).len() == num_digits(n),
        num_digits(n) >= 1,
    decreases n,
{
    if n < 10 {
        lemma_digit_char(n as int);
        assert(dec_str(n).drop_last() =~= Seq::<char>::empty());
        assert(digits_val(Seq::<char>::empty()) == 0);
        assert(dec_str(n).last() == digit_char(n as int));
    } else {
        lemma_dec_str(n / 10);
        lemma_digit_char((n % 10) as int);
        let s = dec_str(n);
        assert(s.drop_last() =~= dec_str(n / 10));
        assert(s.last() == digit_char((n % 10) as int));
        assert(digits_val(s) == digits_val(dec_str(n / 10)) * 10 + (n % 10));
        assert(forall|i: int|
            0 <= i < s.len() - 1 ==> #[trigger] s[i] == dec_str(n / 10)[i]);
    }
}

/// A number below a thousand has at most three digits.
pub proof fn lemma_num_digits_small(n: nat)
    ensures
        n < 10 ==> num_digits(n) == 1,
        n < 100 ==> num_digits(n) <= 2,
        n < 1000 ==> num_digits(n) <= 3,
{
    if 10 <= n < 100 {
        assert(num_digits(n) == 1 + num_digits(n / 10));
    } else if 100 <= n < 1000 {
        assert(num_digits(n) == 1 + num_digits(n / 10));
        assert(num_digits(n / 10) == 1 + num_digits(n / 10 / 10));
    }
}

/// Splitting the last three digits off a number splits its digit string.
pub proof fn lemma_dec_str_split(n: nat)
    requires
        n >= 1000,
    ensures
        dec_str(n) == dec_str(n / 1000) + pad3((n % 1000) as nat),
        num_digits(n) == num_digits(n / 1000) + 3,
{
    let a = n / 1000;
    let m = (n % 1000) as nat;
    assert(n / 10 / 10 == n / 100 && n / 100 / 10 == n / 1000 && n / 10 >= 100 && n / 100 >= 10)
        by (nonlinear_arith)
        requires
            n >= 1000,
    ;
    assert(dec_str(n) == dec_str(n / 10) + seq![digit_char((n % 10) as int)]);
    assert(dec_str(n / 10) == dec_str(n / 100) + seq![digit_char(((n / 10) % 10) as int)]);
    assert(dec_str(n / 100) == dec_str(n / 1000) + seq![digit_char(((n / 100) % 10) as int)]);
    assert((n / 100) % 10 == m / 100) by (nonlinear_arith)
        requires
            n >= 1000 && m == n % 1000,
    ;
    assert((n / 10) % 10 == (m / 10) % 10) by (nonlinear_arith)
        requires
            n >= 1000 && m == n % 1000,
    ;
    assert(n % 10 == m % 10) by (nonlinear_arith)
        requires
            n >= 1000 && m == n % 1000,
    ;
    assert(dec_str(n) =~= dec_str(n / 1000) + pad3(m));
    lemma_dec_str(n);
    lemma_dec_str(a);
    assert(pad3(m).len() == 3);
}

/// A sequence whose characters are all kept passes through the filter whole.
pub proof fn lemma_filter_all_kept(s: Seq<char>)
    requires
        forall|i: int| 0 <= i < s.len() ==> !stripped(#[trigger] s[i]),
    ensures
        s.filter(keep_char()) == s,
    decreases s.len(),
{
    reveal(Seq::filter);
    if s.len() > 0 {
        assert(forall|i: int|
            0 <= i < s.len() - 1 ==> #[trigger] s.drop_last()[i] == s[i]);
        lemma_filter_all_kept(s.drop_last());
        assert(s.filter(keep_char()) =~= s);
    }
}

/// A single stripped character disappears in the filter.
pub proof fn lemma_filter_dropped(c: char)
    requires
        stripped(c),
    ensures
        seq![c].filter(keep_char()) == Seq::<char>::empty(),
{
    reveal(Seq::filter);
    assert(seq![c].drop_last() =~= Seq::<char>::empty());
    assert(Seq::<char>::empty().filter(keep_char()) =~= Seq::<char>::empty());
    assert(!keep_char()(c));
    assert(seq![c].filter(keep_char()) =~= Seq::<char>::empty());
}

/// Digit characters are not stripped, not spaces, and not signs or dots.
pub proof fn lemma_digit_not_special(c: char)
    requires
        is_digit(c),
    ensures
        !stripped(c),
        !is_space(c),
        c != '-',
        c != '.',
{
}

/// Stripping the commas out of a grouped number leaves its plain digits.
pub proof fn lemma_grouped_filter(n: nat)
    ensures
        grouped(n).filter(keep_char()) == dec_str(n),
    decreases n,
{
    if n < 1000 {
        lemma_dec_str(n);
        assert forall|i: int| 0 <= i < dec_str(n).len() implies !stripped(
            #[trigger] dec_str(n)[i],
        ) by {
            lemma_digit_not_special(dec_str(n)[i]);
        }
        lemma_filter_all_kept(dec_str(n));
    } else {
        let m = (n % 1000) as nat;
        lemma_grouped_filter(n / 1000);
        broadcast use Seq::filter_distributes_over_add;

        assert(grouped(n) == grouped(n / 1000) + seq![','] + pad3(m));
        lemma_filter_dropped(',');
        assert(all_digits(pad3(m))) by {
            lemma_digit_char((m / 100) as int);
            lemma_digit_char(((m / 10) % 10) as int);
            lemma_digit_char((m % 10) as int);
        }
        assert forall|i: int| 0 <= i < pad3(m).len() implies !stripped(#[trigger] pad3(m)[i]) by {
            lemma_digit_not_special(pad3(m)[i]);
        }
        lemma_filter_all_kept(pad3(m));
        lemma_dec_str_split(n);
        assert(grouped(n).filter(keep_char()) =~= dec_str(n));
    }
}

/// GROUPING LAW: the grouped form of a number with `d` digits holds exactly
/// `(d - 1) / 3` commas — none when `d <= 3` — and a comma stands exactly at
/// every fourth position counting from the right end, so every group right
/// of a comma has exactly three digits.
#[verifier::rlimit(40)]
pub proof fn lemma_grouping(n: nat)
    ensures
        grouped(n).filter(|c: char| c == ',').len() == (num_digits(n) - 1) / 3,
        forall|i: int|
            0 <= i < grouped(n).len() ==> ((grouped(n)[i] == ',') <==> (grouped(n).len() - i) % 4
                == 0),
        grouped(n).len() == num_digits(n) + (num_digits(n) - 1) / 3,
    decreases n,
{
    let commas = |c: char| c == ',';
    if n < 1000 {
        lemma_dec_str(n);
        lemma_num_digits_small(n);
        assert forall|i: int| 0 <= i < dec_str(n).len() implies !commas(
            #[trigger] dec_str(n)[i],
        ) by {
            lemma_digit_not_special(dec_str(n)[i]);
        }
        lemma_filter_none(dec_str(n), commas);
    } else {
        let g = grouped(n / 1000);
        let m = (n % 1000) as nat;
        lemma_grouping(n / 1000);
        lemma_dec_str_split(n);
        lemma_dec_str(n / 1000);
        broadcast use Seq::filter_distributes_over_add;

        assert(grouped(n) == g + seq![','] + pad3(m));
        lemma_filter_singleton_kept(',', commas);
        assert(all_digits(pad3(m))) by {
            lemma_digit_char((m / 100) as int);
            lemma_digit_char(((m / 10) % 10) as int);
            lemma_digit_char((m % 10) as int);
        }
        assert forall|i: int| 0 <= i < pad3(m).len() implies !commas(#[trigger] pad3(m)[i]) by {
            lemma_digit_not_special(pad3(m)[i]);
        }
        lemma_filter_none(pad3(m), commas);
        assert(grouped(n).filter(commas).len() == (num_digits(n) - 1) / 3);
        assert forall|i: int|
            0 <= i < grouped(n).len() implies ((grouped(n)[i] == ',') <==> (grouped(n).len() - i)
            % 4 == 0) by {
            let whole = grouped(n);
            if i < g.len() {
                assert(whole[i] == g[i]);
            } else if i == g.len() {
                assert(whole[i] == ',');
            } else {
                assert(whole[i] == pad3(m)[i - g.len() - 1]);
                lemma_digit_not_special(pad3(m)[i - g.len() - 1]);
            }
        }
    }
}

/// A sequence with no matching character filters to nothing.
pub proof fn lemma_filter_none(s: Seq<char>, pred: spec_fn(char) -> bool)
    requires
        forall|i: int| 0 <= i < s.len() ==> !pred(#[trigger] s[i]),
    ensures
        s.filter(pred) == Seq::<char>::empty(),
    decreases s.len(),
{
    reveal(Seq::filter);
    if s.len() > 0 {
        assert(forall|i: int|
            0 <= i < s.len() - 1 ==> #[trigger] s.drop_last()[i] == s[i]);
        lemma_filter_none(s.drop_last(), pred);
        assert(s.filter(pred) =~= Seq::<char>::empty());
    }
}

/// A single matching character passes the filter alone.
pub proof fn lemma_filter_singleton_kept(c: char, pred: spec_fn(char) -> bool)
    requires
        pred(c),
    ensures
        seq![c].filter(pred) == seq![c],
{
    reveal(Seq::filter);
    assert(seq![c].drop_last() =~= Seq::<char>::empty());
    assert(seq![c].filter(pred) =~= seq![c]);
}

/// SIGN LAW: for a positive amount, the formatted negative amount is the
/// formatted positive amount with a minus inserted right after the currency
/// symbol.
pub proof fn lemma_sign_symmetry(a: int)
    requires
        a > 0,
    ensures
        crate::format::spec_format_naira(-a) == crate::format::spec_format_naira(a).insert(1, '-'),
{
    assert(abs_val(-a) == abs_val(a));
    assert(crate::format::spec_format_naira(-a) =~= crate::format::spec_format_naira(a).insert(
        1,
        '-',
    ));
}

/// An amount in thousandths rounded to a whole number of hundredths (kobo),
/// half away from zero, still expressed in thousandths.
pub open spec fn round_to_kobo(a: int) -> int {
    if a >= 0 {
        ((a + 5) / 10) * 10
    } else {
        -(((-a + 5) / 10) * 10)
    }
}

/// The two fraction characters of a two-decimal fraction below one hundred.
proof fn lemma_frac2_digits(fk: nat)
    requires
        fk < 100,
    ensures
        frac2(fk).len() == 2,
        all_digits(frac2(fk)),
        frac_milli(frac2(fk)) == fk * 10,
{
    if fk < 10 {
        lemma_digit_char(fk as int);
        assert(is_digit('0') && digit_val('0') == 0);
        assert(frac_milli(frac2(fk)) == fk * 10);
    } else {
        lemma_digit_char((fk / 10) as int);
        lemma_digit_char((fk % 10) as int);
        assert(dec_str(fk) == dec_str(fk / 10) + seq![digit_char((fk % 10) as int)]);
        assert(frac2(fk) =~= seq![digit_char((fk / 10) as int), digit_char((fk % 10) as int)]);
        assert(frac_milli(frac2(fk)) == 100 * (fk / 10) + 10 * (fk % 10));
    }
}

/// What the full formatter wrote trims to itself and strips to the sign,
/// the plain digits, the dot and the fraction.
#[verifier::rlimit(60)]
proof fn lemma_format_strips(negf: bool, w: nat, fk: nat)
    requires
        fk < 100,
    ensures
        ({
            let f = seq![naira_symbol()] + sign_seq(negf) + grouped(w) + seq!['.'] + frac2(fk);
            &&& spec_trim(f) == f
            &&& f.len() > 0
            &&& f[0] == naira_symbol()
            &&& f.filter(keep_char()) == sign_seq(negf) + dec_str(w) + seq!['.'] + frac2(fk)
        }),
{
    let f = seq![naira_symbol()] + sign_seq(negf) + grouped(w) + seq!['.'] + frac2(fk);
    lemma_dec_str(w);
    lemma_grouping(w);
    lemma_frac2_digits(fk);
    let gl = grouped(w).len() as int;
    let sl = sign_seq(negf).len() as int;
    assert(f.len() == 1 + sl + gl + 1 + 2);
    assert(f[0] == naira_symbol());
    assert(!is_space(naira_symbol()));
    assert(trim_start(f) == f);
    assert(f.last() == frac2(fk)[1]);
    lemma_digit_not_special(frac2(fk)[1]);
    assert(trim_end(f) == f);

    broadcast use Seq::filter_distributes_over_add;

    lemma_filter_dropped(naira_symbol());
    assert(sign_seq(negf).filter(keep_char()) == sign_seq(negf)) by {
        lemma_filter_all_kept(sign_seq(negf));
    }
    lemma_grouped_filter(w);
    assert(seq!['.'].filter(keep_char()) == seq!['.']) by {
        lemma_filter_all_kept(seq!['.']);
    }
    assert(frac2(fk).filter(keep_char()) == frac2(fk)) by {
        assert forall|i: int| 0 <= i < frac2(fk).len() implies !stripped(
            #[trigger] frac2(fk)[i],
        ) by {
            lemma_digit_not_special(frac2(fk)[i]);
        }
        lemma_filter_all_kept(frac2(fk));
    }
    assert(f.filter(keep_char()) =~= sign_seq(negf) + dec_str(w) + seq!['.'] + frac2(fk));
}

/// Parsing what the full formatter wrote: the string trims to itself, the
/// symbol and the commas strip away, and what is left reads back as the
/// exact signed value in thousandths.
#[verifier::rlimit(60)]
proof fn lemma_parse_formatted(negf: bool, w: nat, fk: nat)
    requires
        fk < 100,
        w * 1000 + fk * 10 <= i64::MAX as int,
    ensures
        spec_parse(seq![naira_symbol()] + sign_seq(negf) + grouped(w) + seq!['.'] + frac2(fk))
            == Ok::<int, ParseError>(
            if negf {
                -((w * 1000 + fk * 10) as int)
            } else {
                (w * 1000 + fk * 10) as int
            },
        ),
{
    let f = seq![naira_symbol()] + sign_seq(negf) + grouped(w) + seq!['.'] + frac2(fk);
    lemma_format_strips(negf, w, fk);
    lemma_dec_str(w);
    lemma_frac2_digits(fk);
    assert(f[0] != '-');
    let cleaned = f.filter(keep_char());

    // the stripped text reads back as a plain number
    let ds0 = dec_str(w) + seq!['.'] + frac2(fk);
    let dl = dec_str(w).len() as int;
    assert forall|i: int| 0 <= i < dl implies ds0[i] != '.' by {
        assert(ds0[i] == dec_str(w)[i]);
        lemma_digit_not_special(dec_str(w)[i]);
    }
    assert(ds0[dl] == '.');
    lemma_first_dot_at(ds0, dl);
    assert(whole_part(ds0) =~= dec_str(w));
    assert(fraction_part(ds0) =~= frac2(fk));
    assert(num_parts_valid(ds0));
    assert(num_value(ds0) == w * 1000 + fk * 10);
    if negf {
        assert(cleaned[0] == '-');
        assert(cleaned.drop_first() =~= ds0);
        assert(spec_number(cleaned) == Some(-((w * 1000 + fk * 10) as int)));
    } else {
        assert(cleaned == ds0);
        assert(cleaned[0] == dec_str(w)[0]);
        lemma_digit_not_special(dec_str(w)[0]);
        assert(spec_number(cleaned) == Some((w * 1000 + fk * 10) as int));
    }
}

/// ROUND-TRIP LAW for the full formatter: parsing a formatted amount gives
/// back exactly the amount rounded to a whole number of kobo, for every
/// amount within a quintillion thousandths.
pub proof fn lemma_parse_format_naira(a: int)
    requires
        -1000000000000000000 < a < 1000000000000000000,
    ensures
        spec_parse(spec_format_naira(a)) == Ok::<int, ParseError>(round_to_kobo(a)),
{
    let m = abs_val(a);
    let k = (m + 5) / 10;
    let w = k / 100;
    let fk = (k % 100) as nat;
    assert(k == w * 100 + fk);
    assert(w * 1000 + fk * 10 == k * 10);
    assert(k * 10 <= m + 5);
    lemma_parse_formatted(a < 0, w, fk);
    assert(spec_format_naira(a) == seq![naira_symbol()] + sign_seq(a < 0) + grouped(w) + seq!['.']
        + frac2(fk));
}

/// ROUND-TRIP LAW for the minor unit: a whole kobo count formatted as naira
/// parses back to exactly that count (in thousandths), and converting that
/// value back to kobo recovers the count's digit string, sign and all.
pub proof fn lemma_minor_unit_round_trip(k: int)
    requires
        -922337203685477580 <= k <= 922337203685477580,
    ensures
        spec_parse(spec_format_kobo_to_naira(k)) == Ok::<int, ParseError>(k * 10),
        spec_format_naira_to_kobo(k * 10) == sign_seq(k < 0) + dec_str(abs_val(k)),
{
    let m = abs_val(k);
    let w = m / 100;
    let r = (m % 100) as nat;
    assert(w * 1000 + r * 10 == m * 10) by (nonlinear_arith)
        requires
            w == m / 100 && r == m % 100 && m >= 0,
    ;
    lemma_parse_formatted(k < 0, w, r);
    assert(spec_format_kobo_to_naira(k) == seq![naira_symbol()] + sign_seq(k < 0) + grouped(w)
        + seq!['.'] + frac2(r));
    if k < 0 {
        assert(-((m * 10) as int) == k * 10);
    }
    assert(abs_val(k * 10) == m * 10);
    assert((m * 10 + 5) / 10 == m);
    assert(k * 10 < 0 <==> k < 0);
}

/// The grouped form of a number ends in a digit.
pub proof fn lemma_grouped_last_digit(n: nat)
    ensures
        grouped(n).len() > 0,
        is_digit(grouped(n).last()),
{
    if n < 1000 {
        lemma_dec_str(n);
        assert(grouped(n).last() == dec_str(n).last());
    } else {
        let m = (n % 1000) as nat;
        lemma_digit_char((m % 10) as int);
        assert(grouped(n).last() == pad3(m)[2]);
    }
}

/// COMPACT TIER LAW: which suffix the compact formatter picks is decided by
/// magnitude alone, with half-open boundaries that belong to the higher
/// tier: below a thousand naira the output ends in a digit (no suffix), then
/// `K` up to a million, `M` up to a billion, and `B` beyond.
pub proof fn lemma_compact_tiers(a: int)
    ensures
        abs_val(a) < 1000000 ==> is_digit(spec_format_compact(a).last()),
        1000000 <= abs_val(a) < 1000000000 ==> spec_format_compact(a).last() == 'K',
        1000000000 <= abs_val(a) < 1000000000000 ==> spec_format_compact(a).last() == 'M',
        1000000000000 <= abs_val(a) ==> spec_format_compact(a).last() == 'B',
{
    let m = abs_val(a);
    if m < 1000000 {
        let k = (m + 5) / 10;
        let d = k % 100;
        lemma_grouped_last_digit(k / 100);
        let body = spec_format_compact(a);
        if d == 0 {
            assert(body.last() == grouped(k / 100).last());
        } else if d < 10 {
            lemma_digit_char(d as int);
            assert(body.last() == frac2(d)[1]);
        } else {
            lemma_dec_str(d);
            assert(body.last() == dec_str(d).last());
        }
    }
}

} // verus!
