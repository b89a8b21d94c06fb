//! Parsing version strings.
//!
//! The accepted grammar is `major.minor.patch` optionally followed by
//! `-id.num`: three decimal numbers, then a prerelease identifier (letters,
//! digits and `-`) and a decimal counter. Numbers carry no leading zeros and
//! must fit in a `u64`. [`parse_view`] is the authoritative definition;
//! [`parse_version`] returns `Ok` exactly on the strings that definition
//! accepts, and `Err(InvalidSemverError)` on every other string.

use vstd::prelude::*;
use vstd::string::StrSliceExecFns;
use crate::semver::{PreView, Prerelease, Version, VersionView};

verus! {

/// A version string that does not follow the accepted grammar.
#[derive(Clone, Copy, Debug, PartialEq, Eq, Structural)]
pub struct InvalidSemverError {}

/// `c` is a decimal digit.
pub open spec fn is_digit(c: char) -> bool {
    '0' <= c && c <= '9'
}

/// `c` may appear in a prerelease identifier: a letter, a digit or `-`.
pub open spec fn is_ident_char(c: char) -> bool {
    ('a' <= c && c <= 'z') || ('A' <= c && c <= 'Z') || is_digit(c) || c == '-'
}

/// Numeric value of the digit `c`.
pub open spec fn digit_val(c: char) -> int {
    c as int - '0' as int
}

/// Value of a run of decimal digits, most significant first.
pub open spec fn dec_val(s: Seq<char>) -> int
    decreases s.len(),
{
    if s.len() == 0 {
        0
    } else {
        dec_val(s.drop_last()) * 10 + digit_val(s.last())
    }
}

/// Index of the first non-digit at or after `i`, or the length of `s`.
pub open spec fn digits_end(s: Seq<char>, i: int) -> int
    decreases s.len() - i,
{
    if i < 0 || i >= s.len() {
        i
    } else if !is_digit(s[i]) {
        i
    } else {
        digits_end(s, i + 1)
    }
}

/// Index of the first non-identifier character at or after `i`, or the
/// length of `s`.
pub open spec fn ident_end(s: Seq<char>, i: int) -> int
    decreases s.len() - i,
{
    if i < 0 || i >= s.len() {
        i
    } else if !is_ident_char(s[i]) {
        i
    } else {
        ident_end(s, i + 1)
    }
}

/// A well-formed number starts at `i`: at least one digit, no leading zero,
/// and a value that fits in a `u64`.
pub open spec fn num_ok(s: Seq<char>, i: int) -> bool {
    let e = digits_end(s, i);
    e > i && (s[i] == '0' ==> e == i + 1) && dec_val(s.subrange(i, e)) <= u64::MAX
}

/// The parse of a version string: `Some` with the parsed value exactly when
/// the string matches `major.minor.patch[-id.num]`, `None` otherwise.
pub open spec fn parse_view(s: Seq<char>) -> Option<VersionView> {
    let e1 = digits_end(s, 0);
    if !num_ok(s, 0) || e1 == s.len() || s[e1] != '.' {
        None
    } else {
        let e2 = digits_end(s, e1 + 1);
        if !num_ok(s, e1 + 1) || e2 == s.len() || s[e2] != '.' {
            None
        } else {
            let e3 = digits_end(s, e2 + 1);
            if !num_ok(s, e2 + 1) {
                None
            } else if e3 == s.len() {
                Some(VersionView {
                    major: dec_val(s.subrange(0, e1)),
                    minor: dec_val(s.subrange(e1 + 1, e2)),
                    patch: dec_val(s.subrange(e2 + 1, e3)),
                    pre: None,
                })
            } else if s[e3] != '-' {
                None
            } else {
                let e4 = ident_end(s, e3 + 1);
                if e4 == e3 + 1 || e4 == s.len() || s[e4] != '.' {
                    None
                } else if !num_ok(s, e4 + 1) || digits_end(s, e4 + 1) != s.len() {
                    None
                } else {
                    Some(VersionView {
                        major: dec_val(s.subrange(0, e1)),
                        minor: dec_val(s.subrange(e1 + 1, e2)),
                        patch: dec_val(s.subrange(e2 + 1, e3)),
                        pre: Some(PreView {
                            id: s.subrange(e3 + 1, e4),
                            num: dec_val(s.subrange(e4 + 1, s.len() as int)),
                        }),
                    })
                }
            }
        }
    }
}

/// The digit run starting at `i` ends no earlier than `i`, no later than the
/// end of `s`, consists of digits, and stops at a non-digit.
proof fn lemma_digits_end(s: Seq<char>, i: int)
    requires
        0 <= i <= s.len(),
    ensures
        i <= digits_end(s, i) <= s.len(),
        forall|k: int| i <= k < digits_end(s, i) ==> is_digit(s[k]),
        digits_end(s, i) < s.len() ==> !is_digit(s[digits_end(s, i)]),
    decreases s.len() - i,
{
    if i < s.len() && is_digit(s[i]) {
        lemma_digits_end(s, i + 1);
    }
}

/// Counterpart of [`lemma_digits_end`] for identifier runs.
proof fn lemma_ident_end(s: Seq<char>, i: int)
    requires
        0 <= i <= s.len(),
    ensures
        i <= ident_end(s, i) <= s.len(),
        forall|k: int| i <= k < ident_end(s, i) ==> is_ident_char(s[k]),
        ident_end(s, i) < s.len() ==> !is_ident_char(s[ident_end(s, i)]),
    decreases s.len() - i,
{
    if i < s.len() && is_ident_char(s[i]) {
        lemma_ident_end(s, i + 1);
    }
}

/// A run of digits is worth at least 0.
proof fn lemma_dec_val_nonneg(s: Seq<char>)
    requires
        forall|k: int| 0 <= k < s.len() ==> is_digit(s[k]),
    ensures
        dec_val(s) >= 0,
    decreases s.len(),
{
    if s.len() > 0 {
        lemma_dec_val_nonneg(s.drop_last());
    }
}

/// Extending a digit run by one digit multiplies its value by ten and adds
/// the digit.
proof fn lemma_dec_val_step(s: Seq<char>, i: int, j: int)
    requires
        0 <= i <= j < s.len(),
    ensures
        dec_val(s.subrange(i, j + 1)) == dec_val(s.subrange(i, j)) * 10 + digit_val(s[j]),
{
    assert(s.subrange(i, j + 1).drop_last() =~= s.subrange(i, j));
    assert(s.subrange(i, j + 1).last() == s[j]);
}

/// The value of a digit run grows (weakly) as the run extends right.
proof fn lemma_dec_val_grows(s: Seq<char>, i: int, j: int, e: int)
    requires
        0 <= i <= j <= e <= s.len(),
        forall|k: int| i <= k < e ==> is_digit(s[k]),
    ensures
        dec_val(s.subrange(i, j)) <= dec_val(s.subrange(i, e)),
    decreases e - j,
{
    if j < e {
        lemma_dec_val_step(s, i, j);
        lemma_dec_val_nonneg(s.subrange(i, j));
        lemma_dec_val_grows(s, i, j + 1, e);
    }
}

/// Scan the decimal number starting at `start`: its value and the index just
/// past it, or `None` when no well-formed number starts there.
fn scan_num(s: &str, start: usize) -> (r: Option<(u64, usize)>)
    requires
        start <= s@.len(),
        s@.len() <= usize::MAX,
    ensures
        r is Some <==> num_ok(s@, start as int),
        r matches Some((v, e)) ==> {
            &&& e as int == digits_end(s@, start as int)
            &&& start < e <= s@.len()
            &&& v as int == dec_val(s@.subrange(start as int, e as int))
        },
{
    proof {
        lemma_digits_end(s@, start as int);
    }
    let n = s.unicode_len();
    let ghost fin: int = digits_end(s@, start as int);
    let mut j = start;
    let mut val: u64 = 0;
    loop
        invariant
            start <= j <= n,
            n == s@.len(),
            fin == digits_end(s@, start as int),
            digits_end(s@, j as int) == fin,
            forall|k: int| start <= k < j ==> is_digit(s@[k]),
            val as int == dec_val(s@.subrange(start as int, j as int)),
        ensures
            start <= j <= n,
            n == s@.len(),
            fin == digits_end(s@, start as int),
            j as int == fin,
            forall|k: int| start <= k < j ==> is_digit(s@[k]),
            val as int == dec_val(s@.subrange(start as int, j as int)),
        decreases n - j,
    {
        if j >= n {
            break;
        }
        let c = s.get_char(j);
        if !('0' <= c && c <= '9') {
            break;
        }
        let d = (c as u32 as u64) - 48;
        proof {
            lemma_dec_val_step(s@, start as int, j as int);
            lemma_digits_end(s@, start as int);
            vstd::arithmetic::div_mod::lemma_fundamental_div_mod((u64::MAX - d) as int, 10);
        }
        if val > (u64::MAX - d) / 10 {
            // The run's full value already exceeds `u64`, so no well-formed
            // number starts at `start`.
            proof {
                assert(dec_val(s@.subrange(start as int, j + 1)) > u64::MAX);
                lemma_dec_val_grows(s@, start as int, j + 1, fin);
            }
            return None;
        }
        val = val * 10 + d;
        j = j + 1;
    }
    if j == start {
        return None;
    }
    if j > start + 1 && s.get_char(start) == '0' {
        return None;
    }
    Some((val, j))
}

/// Scan the prerelease identifier starting at `start`: the index just past
/// the run of identifier characters (possibly `start` itself).
fn scan_ident(s: &str, start: usize) -> (e: usize)
    requires
        start <= s@.len(),
        s@.len() <= usize::MAX,
    ensures
        e as int == ident_end(s@, start as int),
        start <= e <= s@.len(),
{
    let n = s.unicode_len();
    let mut j = start;
    loop
        invariant
            start <= j <= n,
            n == s@.len(),
            ident_end(s@, j as int) == ident_end(s@, start as int),
        ensures
            start <= j <= n,
            n == s@.len(),
            j as int == ident_end(s@, start as int),
        decreases n - j,
    {
        if j >= n {
            break;
        }
        let c = s.get_char(j);
        if !(('a' <= c && c <= 'z') || ('A' <= c && c <= 'Z') || ('0' <= c && c <= '9') || c
            == '-') {
            break;
        }
        j = j + 1;
    }
    j
}

/// Parse a version string, succeeding exactly on the strings that
/// [`parse_view`] accepts; every other string is an [`InvalidSemverError`].
pub fn parse_version(s: &str) -> (r: Result<Version, InvalidSemverError>)
    ensures
        match r {
            Ok(v) => parse_view(s@) == Some(v@),
            Err(_) => parse_view(s@) is None,
        },
{
    let n = s.unicode_len();
    let (major, e1) = match scan_num(s, 0) {
        Some(p) => p,
        None => {
            return Err(InvalidSemverError {});
        },
    };
    if e1 == n || s.get_char(e1) != '.' {
        return Err(InvalidSemverError {});
    }
    let (minor, e2) = match scan_num(s, e1 + 1) {
        Some(p) => p,
        None => {
            return Err(InvalidSemverError {});
        },
    };
    if e2 == n || s.get_char(e2) != '.' {
        return Err(InvalidSemverError {});
    }
    let (patch, e3) = match scan_num(s, e2 + 1) {
        Some(p) => p,
        None => {
            return Err(InvalidSemverError {});
        },
    };
    if e3 == n {
        return Ok(Version { major, minor, patch, pre: None });
    }
    if s.get_char(e3) != '-' {
        return Err(InvalidSemverError {});
    }
    let e4 = scan_ident(s, e3 + 1);
    if e4 == e3 + 1 || e4 == n || s.get_char(e4) != '.' {
        return Err(InvalidSemverError {});
    }
    let (num, e5) = match scan_num(s, e4 + 1) {
        Some(p) => p,
        None => {
            return Err(InvalidSemverError {});
        },
    };
    if e5 != n {
        return Err(InvalidSemverError {});
    }
    let id = s.substring_char(e3 + 1, e4).to_owned();
    Ok(Version { major, minor, patch, pre: Some(Prerelease { id, num }) })
}

} // verus!
