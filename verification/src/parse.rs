use vstd::prelude::*;

use crate::model::{digit_val, is_digit, naira_symbol};

verus! {

/// Why parsing failed: the input held nothing at all, or what was left after
/// stripping the sign, the currency symbol and the commas was not a decimal
/// number (or was out of the representable fixed-point range).
#[derive(Debug, PartialEq, Eq, Structural)]
pub enum ParseError {
    EmptyInput,
    InvalidFormat,
}

/// The characters trimmed from either end of the input: everything with the
/// Unicode white-space property.
pub open spec fn is_space(c: char) -> bool {
    ||| c == ' ' || c == '\t' || c == '\n' || c == '\r' || c == '\u{0b}' || c == '\u{0c}'
    ||| c == '\u{85}' || c == '\u{a0}' || c == '\u{1680}'
    ||| '\u{2000}' as u32 <= c as u32 <= '\u{200a}' as u32
    ||| c == '\u{2028}' || c == '\u{2029}' || c == '\u{202f}' || c == '\u{205f}'
    ||| c == '\u{3000}'
}

/// The characters stripped before numeric parsing: the currency symbol and
/// the grouping comma, wherever and however often they appear.
pub open spec fn stripped(c: char) -> bool {
    c == naira_symbol() || c == ','
}

/// The predicate that keeps a character through stripping.
pub open spec fn keep_char() -> spec_fn(char) -> bool {
    |c: char| !stripped(c)
}

pub open spec fn trim_start(s: Seq<char>) -> Seq<char>
    decreases s.len(),
{
    if s.len() > 0 && is_space(s[0]) {
        trim_start(s.drop_first())
    } else {
        s
    }
}

pub open spec fn trim_end(s: Seq<char>) -> Seq<char>
    decreases s.len(),
{
    if s.len() > 0 && is_space(s.last()) {
        trim_end(s.drop_last())
    } else {
        s
    }
}

pub open spec fn spec_trim(s: Seq<char>) -> Seq<char> {
    trim_end(trim_start(s))
}

pub open spec fn all_digits(s: Seq<char>) -> bool {
    forall|i: int| 0 <= i < s.len() ==> is_digit(#[trigger] s[i])
}

/// Index of the first dot, or the length when there is none.
pub open spec fn first_dot(s: Seq<char>) -> int
    decreases s.len(),
{
    if s.len() == 0 {
        0
    } else if s[0] == '.' {
        0
    } else {
        1 + first_dot(s.drop_first())
    }
}

/// Value of a digit string read as a decimal integer.
pub open spec fn digits_val(s: Seq<char>) -> int
    decreases s.len(),
{
    if s.len() == 0 {
        0
    } else {
        digits_val(s.drop_last()) * 10 + digit_val(s.last())
    }
}

/// The digit value at position `i` of the fraction, zero when absent.
pub open spec fn frac_digit(f: Seq<char>, i: int) -> int {
    if 0 <= i < f.len() {
        digit_val(f[i])
    } else {
        0
    }
}

/// The fraction digits read as thousandths, rounded half away from zero at
/// the fourth digit.
pub open spec fn frac_milli(f: Seq<char>) -> int {
    100 * frac_digit(f, 0) + 10 * frac_digit(f, 1) + frac_digit(f, 2) + if f.len() > 3
        && digit_val(f[3]) >= 5 {
        1int
    } else {
        0int
    }
}

/// The whole digits of an unsigned number text: everything before the first
/// dot.
pub open spec fn whole_part(ds: Seq<char>) -> Seq<char> {
    ds.take(first_dot(ds))
}

/// The fraction digits of an unsigned number text: everything after the
/// first dot, nothing when there is no dot.
pub open spec fn fraction_part(ds: Seq<char>) -> Seq<char> {
    if first_dot(ds) < ds.len() {
        ds.skip(first_dot(ds) + 1)
    } else {
        Seq::<char>::empty()
    }
}

/// Whether an unsigned number text is well formed: digits with at most one
/// dot and at least one digit in all.
pub open spec fn num_parts_valid(ds: Seq<char>) -> bool {
    &&& all_digits(whole_part(ds))
    &&& all_digits(fraction_part(ds))
    &&& whole_part(ds).len() + fraction_part(ds).len() > 0
}

/// The value of a well-formed unsigned number text, in thousandths.
pub open spec fn num_value(ds: Seq<char>) -> int {
    digits_val(whole_part(ds)) * 1000 + frac_milli(fraction_part(ds))
}

/// Reads a stripped text as a signed decimal number in thousandths: an
/// optional leading minus, then digits with at most one dot and at least one
/// digit in all. `None` when the text does not have that shape.
pub open spec fn spec_number(s: Seq<char>) -> Option<int> {
    let neg = s.len() > 0 && s[0] == '-';
    let ds = if neg {
        s.drop_first()
    } else {
        s
    };
    if num_parts_valid(ds) {
        Some(
            if neg {
                -num_value(ds)
            } else {
                num_value(ds)
            },
        )
    } else {
        None
    }
}

/// What `parse_naira` returns on the character sequence `s`: trim, detect a
/// leading minus, strip every currency symbol and comma, read the rest as a
/// decimal number in thousandths of a naira, and re-apply the sign. Empty or
/// all-whitespace input is `EmptyInput`; a value outside the signed 64-bit
/// fixed-point range is rejected as `InvalidFormat`.
pub open spec fn spec_parse(s: Seq<char>) -> Result<int, ParseError> {
    let t = spec_trim(s);
    if t.len() == 0 {
        Err(ParseError::EmptyInput)
    } else {
        let neg = t[0] == '-';
        let rest = if neg {
            t.drop_first()
        } else {
            t
        };
        let cleaned = rest.filter(keep_char());
        match spec_number(cleaned) {
            Some(v) => {
                let signed = if neg {
                    -v
                } else {
                    v
                };
                if -(i64::MAX as int) <= signed <= i64::MAX as int {
                    Ok(signed)
                } else {
                    Err(ParseError::InvalidFormat)
                }
            },
            None => Err(ParseError::InvalidFormat),
        }
    }
}

pub proof fn lemma_first_dot_bounds(s: Seq<char>)
    ensures
        0 <= first_dot(s) <= s.len(),
        first_dot(s) < s.len() ==> s[first_dot(s)] == '.',
        forall|i: int| 0 <= i < first_dot(s) ==> s[i] != '.',
    decreases s.len(),
{
    if s.len() == 0 {
    } else if s[0] == '.' {
    } else {
        let d = s.drop_first();
        lemma_first_dot_bounds(d);
        assert(first_dot(s) == 1 + first_dot(d));
        assert forall|i: int| 0 <= i < first_dot(s) implies s[i] != '.' by {
            if i > 0 {
                assert(s[i] == d[i - 1]);
            }
        }
        if first_dot(s) < s.len() {
            assert(s[first_dot(s)] == d[first_dot(d)]);
        }
    }
}

/// The first dot sits exactly where a dot-free prefix ends at a dot (or at
/// the end of the string).
pub proof fn lemma_first_dot_at(s: Seq<char>, k: int)
    requires
        0 <= k <= s.len(),
        forall|i: int| 0 <= i < k ==> s[i] != '.',
        k == s.len() || s[k] == '.',
    ensures
        first_dot(s) == k,
    decreases s.len(),
{
    if k == 0 {
    } else {
        assert(s[0] != '.');
        let d = s.drop_first();
        assert forall|i: int| 0 <= i < k - 1 implies d[i] != '.' by {
            assert(d[i] == s[i + 1]);
        }
        assert(k - 1 == d.len() || d[k - 1] == s[k]);
        lemma_first_dot_at(d, k - 1);
        assert(first_dot(s) == 1 + first_dot(d));
    }
}

/// A dot-free prefix pushes the first dot at least that far.
pub proof fn lemma_first_dot_ge(s: Seq<char>, k: int)
    requires
        0 <= k <= s.len(),
        forall|i: int| 0 <= i < k ==> s[i] != '.',
    ensures
        first_dot(s) >= k,
    decreases k,
{
    lemma_first_dot_bounds(s);
    if k > 0 {
        assert(s[0] != '.');
        let d = s.drop_first();
        assert forall|i: int| 0 <= i < k - 1 implies d[i] != '.' by {
            assert(d[i] == s[i + 1]);
        }
        lemma_first_dot_ge(d, k - 1);
        assert(first_dot(s) == 1 + first_dot(d));
    }
}

/// The value of an all-digit string only grows as digits are appended.
pub proof fn lemma_digits_val_take_le(s: Seq<char>, k: int)
    requires
        0 <= k <= s.len(),
        all_digits(s),
    ensures
        digits_val(s) >= digits_val(s.take(k)) >= 0,
    decreases s.len(),
{
    if s.len() == 0 {
        assert(s.take(k) =~= s);
    } else if k == s.len() {
        assert(s.take(k) =~= s);
        let d = s.drop_last();
        assert(all_digits(d));
        lemma_digits_val_take_le(d, d.len() as int);
        assert(d.take(d.len() as int) =~= d);
        assert(is_digit(s.last()));
    } else {
        let d = s.drop_last();
        assert(all_digits(d));
        assert(d.take(k) =~= s.take(k));
        lemma_digits_val_take_le(d, k);
        assert(is_digit(s.last()));
    }
}

/// When the whole digits alone already reach past `i64::MAX`, a well-formed
/// text's value is out of range.
proof fn lemma_too_large(ds: Seq<char>, kp: int, big: int)
    requires
        0 <= kp < ds.len(),
        is_digit(ds[kp]),
        all_digits(ds.take(kp)),
        forall|q: int| 0 <= q < kp ==> ds[q] != '.',
        digits_val(ds.take(kp)) * 10 + digit_val(ds[kp]) == big,
        big > i64::MAX as int,
    ensures
        num_parts_valid(ds) ==> num_value(ds) > i64::MAX as int,
{
    lemma_first_dot_bounds(ds);
    if num_parts_valid(ds) {
        let dot = first_dot(ds);
        let ip = whole_part(ds);
        let fp = fraction_part(ds);
        lemma_first_dot_ge(ds, kp);
        if dot == kp {
            assert(ds[kp] == '.');
            assert(!is_digit('.'));
        } else {
            assert(dot >= kp + 1);
            assert(ds.take(kp + 1).drop_last() =~= ds.take(kp));
            assert(ds.take(kp + 1).last() == ds[kp]);
            assert(digits_val(ds.take(kp + 1)) == big);
            assert(ip.take(kp + 1) =~= ds.take(kp + 1));
            lemma_digits_val_take_le(ip, kp + 1);
            assert(digits_val(ip) >= big);
            lemma_frac_milli_range(fp);
            assert(digits_val(ip) * 1000 >= big * 1000 > i64::MAX as int) by (nonlinear_arith)
                requires
                    digits_val(ip) >= big && big > i64::MAX as int,
            ;
        }
    }
}

/// The rounded fraction of an all-digit string lies between 0 and 1000.
pub proof fn lemma_frac_milli_range(f: Seq<char>)
    requires
        all_digits(f),
    ensures
        0 <= frac_milli(f) <= 1000,
{
    if f.len() > 0 {
        assert(is_digit(f[0]) && 0 <= digit_val(f[0]) <= 9);
    }
    if f.len() > 1 {
        assert(is_digit(f[1]) && 0 <= digit_val(f[1]) <= 9);
    }
    if f.len() > 2 {
        assert(is_digit(f[2]) && 0 <= digit_val(f[2]) <= 9);
    }
}

/// The characters of a string, in order.
fn chars_of(input: &str) -> (cs: Vec<char>)
    ensures
        cs@ == input@,
{
    let len = input.unicode_len();
    let mut cs: Vec<char> = Vec::new();
    let mut i: usize = 0;
    while i < len
        invariant
            i <= len,
            len == input@.len(),
            cs@ == input@.take(i as int),
        decreases len - i,
    {
        let c = input.get_char(i);
        cs.push(c);
        i = i + 1;
        proof {
            assert(cs@ =~= input@.take(i as int));
        }
    }
    proof {
        assert(cs@ =~= input@);
    }
    cs
}

/// The region of `cs` that remains when leading and trailing whitespace is
/// trimmed.
fn trim_bounds(cs: &Vec<char>) -> (b: (usize, usize))
    ensures
        b.0 <= b.1 <= cs@.len(),
        spec_trim(cs@) == cs@.subrange(b.0 as int, b.1 as int),
{
    let n = cs.len();
    let mut lo: usize = 0;
    proof {
        assert(cs@.skip(0) =~= cs@);
    }
    while lo < n && space_char(cs[lo])
        invariant
            lo <= n,
            n == cs@.len(),
            trim_start(cs@) == trim_start(cs@.skip(lo as int)),
        decreases n - lo,
    {
        proof {
            let s = cs@.skip(lo as int);
            assert(s[0] == cs@[lo as int] && is_space(s[0]));
            assert(s.drop_first() =~= cs@.skip(lo as int + 1));
        }
        lo = lo + 1;
    }
    proof {
        let s = cs@.skip(lo as int);
        if s.len() > 0 {
            assert(s[0] == cs@[lo as int]);
        }
        assert(trim_start(cs@) == s);
    }
    let mut hi: usize = n;
    while hi > lo && space_char(cs[hi - 1])
        invariant
            lo <= hi <= n,
            n == cs@.len(),
            trim_start(cs@) == trim_start(cs@.skip(lo as int)),
            trim_end(cs@.skip(lo as int)) == trim_end(cs@.subrange(lo as int, hi as int)),
        decreases hi,
    {
        proof {
            let s = cs@.subrange(lo as int, hi as int);
            assert(s.last() == cs@[hi as int - 1] && is_space(s.last()));
            assert(s.drop_last() =~= cs@.subrange(lo as int, hi as int - 1));
        }
        hi = hi - 1;
    }
    proof {
        assert(cs@.subrange(lo as int, cs@.len() as int) =~= cs@.skip(lo as int));
        let s = cs@.subrange(lo as int, hi as int);
        if s.len() > 0 {
            assert(s.last() == cs@[hi as int - 1]);
        }
    }
    (lo, hi)
}

/// Whether `c` has the Unicode white-space property.
fn space_char(c: char) -> (b: bool)
    ensures
        b == is_space(c),
{
    c == ' ' || c == '\t' || c == '\n' || c == '\r' || c == '\u{0b}' || c == '\u{0c}' || c
        == '\u{85}' || c == '\u{a0}' || c == '\u{1680}' || ('\u{2000}' as u32 <= c as u32 && c
        as u32 <= '\u{200a}' as u32) || c == '\u{2028}' || c == '\u{2029}' || c == '\u{202f}' || c
        == '\u{205f}' || c == '\u{3000}'
}

/// The characters of `cs[lo..hi]` with every currency symbol and comma
/// dropped.
fn strip_kept(cs: &Vec<char>, lo: usize, hi: usize) -> (out: Vec<char>)
    requires
        lo <= hi <= cs@.len(),
    ensures
        out@ == cs@.subrange(lo as int, hi as int).filter(keep_char()),
{
    let mut out: Vec<char> = Vec::new();
    let mut j = lo;
    while j < hi
        invariant
            lo <= j <= hi <= cs@.len(),
            out@ == cs@.subrange(lo as int, j as int).filter(keep_char()),
        decreases hi - j,
    {
        let c = cs[j];
        proof {
            let pre = cs@.subrange(lo as int, j as int);
            assert(cs@.subrange(lo as int, j as int + 1) =~= pre.push(cs@[j as int]));
            pre.lemma_filter_push(cs@[j as int], keep_char());
        }
        if !(c == '\u{20a6}' || c == ',') {
            out.push(c);
        }
        j = j + 1;
    }
    out
}

/// How `spec_number` reads a text whose optional leading minus has been
/// stepped over.
proof fn lemma_spec_number_ds(cleaned: Seq<char>, p: int, ds: Seq<char>)
    requires
        p == 1 <==> (cleaned.len() > 0 && cleaned[0] == '-'),
        p == 0 || p == 1,
        ds == cleaned.skip(p),
    ensures
        spec_number(cleaned) == (if num_parts_valid(ds) {
            Some(
                if p == 1 {
                    -num_value(ds)
                } else {
                    num_value(ds)
                },
            )
        } else {
            None::<int>
        }),
{
    if p == 1 {
        assert(cleaned.drop_first() =~= ds);
    } else {
        assert(cleaned.skip(0) =~= cleaned);
    }
}

/// Reads the stripped text as a signed number in thousandths: `Some` exactly
/// when the text is well formed and the value representable.
fn read_number(cleaned: &Vec<char>) -> (r: Option<i64>)
    ensures
        match spec_number(cleaned@) {
            Some(v) => {
                if -(i64::MAX as int) <= v <= i64::MAX as int {
                    r is Some && r->0 as int == v
                } else {
                    r is None
                }
            },
            None => r is None,
        },
{
    let m = cleaned.len();
    let neg2 = m > 0 && cleaned[0] == '-';
    let p: usize = if neg2 {
        1
    } else {
        0
    };
    let ghost ds = cleaned@.skip(p as int);
    proof {
        if neg2 {
            assert(cleaned@.drop_first() =~= ds);
        } else {
            assert(cleaned@.skip(0) =~= cleaned@);
        }
    }

    let mut k = p;
    let mut acc: u64 = 0;
    let mut dot = false;
    let ghost mut dpos: int = 0;
    let mut fcount: usize = 0;
    let mut f3: u64 = 0;
    let mut roundup = false;
    while k < m
        invariant
            p <= k <= m,
            m == cleaned@.len(),
            p == 1 <==> (m > 0 && cleaned@[0] == '-'),
            p <= 1,
            ds == cleaned@.skip(p as int),
            acc <= i64::MAX as u64,
            f3 <= 999,
            !dot ==> {
                &&& all_digits(ds.take(k - p))
                &&& (forall|q: int| 0 <= q < k - p ==> ds[q] != '.')
                &&& acc == digits_val(ds.take(k - p))
                &&& fcount == 0 && f3 == 0 && !roundup
            },
            dot ==> {
                &&& 0 <= dpos <= k - p - 1
                &&& first_dot(ds) == dpos
                &&& all_digits(ds.take(dpos))
                &&& acc == digits_val(ds.take(dpos))
                &&& fcount == k - p - dpos - 1
                &&& all_digits(ds.subrange(dpos + 1, k - p))
                &&& f3 == 100 * frac_digit(ds.subrange(dpos + 1, k - p), 0) + 10 * frac_digit(
                    ds.subrange(dpos + 1, k - p),
                    1,
                ) + frac_digit(ds.subrange(dpos + 1, k - p), 2)
                &&& roundup == (fcount > 3 && digit_val(ds.subrange(dpos + 1, k - p)[3]) >= 5)
            },
        decreases m - k,
    {
        let c = cleaned[k];
        let u = c as u32;
        proof {
            assert(ds[k - p] == cleaned@[k as int]);
        }
        if u >= '0' as u32 && u <= '9' as u32 {
            let d = (u - '0' as u32) as u64;
            proof {
                assert(is_digit(c) && digit_val(c) == d);
            }
            if !dot {
                if acc > (i64::MAX as u64 - d) / 10 {
                    proof {
                        lemma_too_large(ds, k - p, acc as int * 10 + d);
                        lemma_spec_number_ds(cleaned@, p as int, ds);
                        assert(spec_number(cleaned@) matches Some(v) ==> !(-(i64::MAX as int) <= v
                            <= i64::MAX as int));
                    }
                    return None;
                }
                proof {
                    let pre = ds.take(k - p);
                    assert(ds.take(k - p + 1).drop_last() =~= pre);
                    assert(ds.take(k - p + 1).last() == ds[k - p]);
                }
                acc = acc * 10 + d;
            } else {
                proof {
                    let fpre = ds.subrange(dpos + 1, k - p);
                    let fnow = ds.subrange(dpos + 1, k - p + 1);
                    assert(fnow =~= fpre.push(ds[k - p]));
                    assert(forall|q: int| 0 <= q < fpre.len() ==> fnow[q] == fpre[q]);
                    assert(fnow[k - p - dpos - 1] == ds[k - p]);
                }
                if fcount == 0 {
                    f3 = f3 + 100 * d;
                } else if fcount == 1 {
                    f3 = f3 + 10 * d;
                } else if fcount == 2 {
                    f3 = f3 + d;
                } else if fcount == 3 {
                    roundup = d >= 5;
                }
                fcount = fcount + 1;
            }
        } else if c == '.' {
            if dot {
                proof {
                    let fp = fraction_part(ds);
                    assert(fp[k - p - dpos - 1] == ds[k - p]);
                    assert(!is_digit('.'));
                    assert(!all_digits(fp));
                    lemma_first_dot_bounds(ds);
                    lemma_spec_number_ds(cleaned@, p as int, ds);
                    assert(spec_number(cleaned@) is None);
                }
                return None;
            }
            proof {
                lemma_first_dot_at(ds, k - p);
                assert(ds.subrange(k - p + 1, k - p + 1) =~= Seq::<char>::empty());
            }
            dot = true;
            proof {
                dpos = k - p;
            }
            fcount = 0;
        } else {
            proof {
                assert(!is_digit(ds[k - p]) && ds[k - p] != '.');
                if dot {
                    let fp = fraction_part(ds);
                    assert(fp[k - p - dpos - 1] == ds[k - p]);
                    assert(!all_digits(fp));
                } else {
                    lemma_first_dot_ge(ds, k - p);
                    lemma_first_dot_bounds(ds);
                    if first_dot(ds) == k - p {
                        assert(ds[first_dot(ds)] == '.');
                    }
                    assert(first_dot(ds) > k - p);
                    assert(whole_part(ds)[k - p] == ds[k - p]);
                    assert(!all_digits(whole_part(ds)));
                }
                lemma_first_dot_bounds(ds);
                lemma_spec_number_ds(cleaned@, p as int, ds);
                assert(spec_number(cleaned@) is None);
            }
            return None;
        }
        k = k + 1;
    }

    proof {
        if !dot {
            assert(ds.take(m - p) =~= ds);
            lemma_first_dot_ge(ds, m - p);
            lemma_first_dot_bounds(ds);
            assert(first_dot(ds) == ds.len());
            assert(whole_part(ds) =~= ds);
            assert(fraction_part(ds) =~= Seq::<char>::empty());
        } else {
            assert(whole_part(ds) =~= ds.take(dpos));
            assert(fraction_part(ds) =~= ds.subrange(dpos + 1, m - p));
        }
    }

    let digit_total = if dot {
        m - p - 1
    } else {
        m - p
    };
    if digit_total == 0 {
        proof {
            assert(whole_part(ds).len() + fraction_part(ds).len() == 0);
            lemma_spec_number_ds(cleaned@, p as int, ds);
            assert(spec_number(cleaned@) is None);
        }
        return None;
    }
    let fm: u64 = f3 + if roundup {
        1
    } else {
        0
    };
    proof {
        let fp = fraction_part(ds);
        assert(frac_milli(fp) == fm);
        assert(num_parts_valid(ds));
        assert(num_value(ds) == acc * 1000 + fm);
        lemma_spec_number_ds(cleaned@, p as int, ds);
    }
    let mag: u128 = (acc as u128) * 1000 + fm as u128;
    if mag > i64::MAX as u128 {
        return None;
    }
    let v = mag as i64;
    if neg2 {
        Some(-v)
    } else {
        Some(v)
    }
}

/// Parses a currency string back to an amount in thousandths of a naira.
/// Whitespace is trimmed; one leading minus, the currency symbol and commas
/// anywhere are accepted; the rest must be a plain decimal number (digits
/// with at most one dot, no exponent), read half away from zero at the third
/// decimal place. Fails with `EmptyInput` on blank input and with
/// `InvalidFormat` on any other shape or on a value out of range.
pub fn parse_naira(input: &str) -> (r: Result<i64, ParseError>)
    ensures
        spec_parse(input@) is Ok ==> r is Ok && r->Ok_0 as int == spec_parse(input@)->Ok_0,
        spec_parse(input@) is Err ==> r is Err && r->Err_0 == spec_parse(input@)->Err_0,
{
    let cs = chars_of(input);
    let (mut lo, hi) = trim_bounds(&cs);
    let ghost t = spec_trim(input@);

    if lo == hi {
        return Err(ParseError::EmptyInput);
    }

    let neg = cs[lo] == '-';
    if neg {
        lo = lo + 1;
    }
    proof {
        if neg {
            assert(t.drop_first() =~= cs@.subrange(lo as int, hi as int));
        }
    }
    let cleaned = strip_kept(&cs, lo, hi);
    match read_number(&cleaned) {
        Some(v) => {
            if neg {
                Ok(-v)
            } else {
                Ok(v)
            }
        },
        None => Err(ParseError::InvalidFormat),
    }
}

} // verus!
