use vstd::pervasive::unreached;
use vstd::prelude::*;
use vstd::string::StringExecFns;

verus! {

/// Failure of the word renderer: the word-spelling collaborator could not
/// convert one of the two integer parts.
#[derive(Debug, PartialEq, Eq, Structural)]
pub enum WordsError {
    Unspellable,
}

#[verifier::external_type_specification]
#[verifier::external_body]
pub struct ExNum2Err(num2words::Num2Err);

/// The English cardinal spelling of an integer, as the word renderer
/// produces it.
pub uninterp spec fn spelled(n: int) -> Seq<char>;

/// Relies on num2words::Num2Words: `new(n).to_words()` yields the English
/// cardinal words for `n`, a function of `n` alone. It succeeds on every
/// 64-bit integer: the renderer's only conversion failure needs a number of
/// twenty-two three-digit groups or more.
#[verifier::external_body]
fn spell_int(n: i64) -> (r: Result<String, num2words::Num2Err>)
    ensures
        r is Ok,
        r->Ok_0@ == spelled(n as int),
{
    num2words::Num2Words::new(n).to_words()
}

/// The whole-naira part of `a` thousandths of a naira: the floor, plus one
/// when the remainder above it rounds up to a whole naira.
pub open spec fn naira_part(a: int) -> int {
    if (a % 1000 + 5) / 10 == 100 {
        a / 1000 + 1
    } else {
        a / 1000
    }
}

/// The kobo remainder of `a` thousandths of a naira above its whole-naira
/// part, rounded to a whole kobo count half away from zero; a remainder that
/// rounds up to a whole naira carries, leaving zero kobo.
pub open spec fn kobo_part(a: int) -> nat {
    if (a % 1000 + 5) / 10 == 100 {
        0
    } else {
        ((a % 1000 + 5) / 10) as nat
    }
}

/// The full phrase built from the spelled naira part, the kobo count and the
/// spelled kobo part: the kobo clause appears exactly when the count is
/// non-zero.
pub open spec fn spec_phrase(naira_words: Seq<char>, kobo: nat, kobo_words: Seq<char>) -> Seq<
    char,
> {
    if kobo > 0 {
        naira_words + seq![' ', 'N', 'a', 'i', 'r', 'a', ',', ' '] + kobo_words + seq![
            ' ',
            'K',
            'o',
            'b',
            'o',
            ' ',
            'O',
            'n',
            'l',
            'y',
        ]
    } else {
        naira_words + seq![' ', 'N', 'a', 'i', 'r', 'a', ' ', 'O', 'n', 'l', 'y']
    }
}

/// Composes the amount-in-words phrase from already spelled parts:
/// `<naira words> Naira, <kobo words> Kobo Only`, with the kobo clause
/// omitted when the kobo count is zero.
pub fn compose_phrase(naira_words: &str, kobo: u64, kobo_words: &str) -> (s: String)
    ensures
        s@ == spec_phrase(naira_words@, kobo as nat, kobo_words@),
{
    proof {
        reveal_strlit(" Naira, ");
        reveal_strlit(" Kobo Only");
        reveal_strlit(" Naira Only");
    }
    let mut s = String::from_str(naira_words);
    if kobo > 0 {
        s.append(" Naira, ");
        s.append(kobo_words);
        s.append(" Kobo Only");
    } else {
        s.append(" Naira Only");
    }
    proof {
        assert(s@ =~= spec_phrase(naira_words@, kobo as nat, kobo_words@));
    }
    s
}

/// Splits `a` thousandths of a naira into its whole-naira part and the
/// rounded kobo remainder above it, carrying a remainder that rounds up to a
/// whole naira.
fn split_parts(a: i64) -> (p: (i64, u64))
    ensures
        p.0 == naira_part(a as int),
        p.1 == kobo_part(a as int),
{
    let m = crate::group::magnitude(a);
    if a >= 0 {
        let kobo = (m % 1000 + 5) / 10;
        if kobo == 100 {
            ((m / 1000) as i64 + 1, 0)
        } else {
            ((m / 1000) as i64, kobo)
        }
    } else if m % 1000 == 0 {
        proof {
            assert((a as int) % 1000 == 0 && (a as int) / 1000 == -((m / 1000) as int)) by (
            nonlinear_arith)
                requires
                    a < 0 && m == -(a as int) && m % 1000 == 0,
            ;
        }
        (-((m / 1000) as i64), 0)
    } else {
        let frac = 1000 - m % 1000;
        proof {
            assert((a as int) % 1000 == 1000 - (m as int) % 1000 && (a as int) / 1000 == -((m
                / 1000) as int) - 1) by (nonlinear_arith)
                requires
                    a < 0 && m == -(a as int) && m % 1000 != 0,
            ;
        }
        let kobo = (frac + 5) / 10;
        if kobo == 100 {
            (-((m / 1000) as i64), 0)
        } else {
            (-((m / 1000) as i64) - 1, kobo)
        }
    }
}

/// Renders an amount of `a` thousandths of a naira in words: the whole-naira
/// part (floor) and the rounded kobo remainder are each spelled by the word
/// renderer and composed into `<naira> Naira, <kobo> Kobo Only`, the kobo
/// clause omitted when the remainder is zero. The renderer spells every
/// 64-bit integer, so this always succeeds; the error type records the one
/// failure kind the collaborator interface admits.
pub fn format_to_word(a: i64) -> (r: Result<String, WordsError>)
    ensures
        r is Ok,
        r->Ok_0@ == spec_phrase(
            spelled(naira_part(a as int)),
            kobo_part(a as int),
            spelled(kobo_part(a as int) as int),
        ),
{
    let (naira, kobo) = split_parts(a);
    let naira_words = match spell_int(naira) {
        Ok(w) => w,
        Err(_) => unreached(),
    };
    if kobo > 0 {
        let kobo_words = match spell_int(kobo as i64) {
            Ok(w) => w,
            Err(_) => unreached(),
        };
        Ok(compose_phrase(naira_words.as_str(), kobo, kobo_words.as_str()))
    } else {
        proof {
            reveal_strlit("");
        }
        Ok(compose_phrase(naira_words.as_str(), 0, ""))
    }
}

} // verus!
