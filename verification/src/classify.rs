//! Classifying conventional-commit messages into bump kinds.
//!
//! The header of a message is its first line, `type(scope)!: subject`. The
//! rules, in priority order: a `!` immediately before the header's first
//! colon, or a `BREAKING CHANGE:` marker anywhere in the full text, is a
//! major bump; a `feat` type is minor; a `fix` or `perf` type is patch;
//! anything else — `chore`, `docs`, an unparseable header — is no bump.
//! Only the type token and the breaking markers are inspected; a malformed
//! scope does not change the classification.

use vstd::prelude::*;
use vstd::string::StrSliceExecFns;
use crate::kind::BumpKind;

verus! {

/// The needle `s` occurs in `hay` starting at index `i`.
pub open spec fn contains_at(hay: Seq<char>, i: int, needle: Seq<char>) -> bool {
    0 <= i && i + needle.len() <= hay.len() && hay.subrange(i, i + needle.len()) == needle
}

/// The needle occurs somewhere in `hay`.
pub open spec fn contains_seq(hay: Seq<char>, needle: Seq<char>) -> bool {
    exists|i: int| contains_at(hay, i, needle)
}

/// Index of the first occurrence of `c` at or after `i`, or the length of
/// `s` when there is none.
pub open spec fn find_from(s: Seq<char>, i: int, c: char) -> int
    decreases s.len() - i,
{
    if i < 0 || i >= s.len() {
        s.len() as int
    } else if s[i] == c {
        i
    } else {
        find_from(s, i + 1, c)
    }
}

/// Index just past the type token of the header: the first `(`, `!` or `:`,
/// or the length of `s` when none occurs.
pub open spec fn type_end(s: Seq<char>) -> int
    decreases s.len(),
{
    type_end_from(s, 0)
}

/// Helper for [`type_end`]: the scan from index `i`.
pub open spec fn type_end_from(s: Seq<char>, i: int) -> int
    decreases s.len() - i,
{
    if i < 0 || i >= s.len() {
        s.len() as int
    } else if s[i] == '(' || s[i] == '!' || s[i] == ':' {
        i
    } else {
        type_end_from(s, i + 1)
    }
}

/// The message announces a breaking change: a `BREAKING CHANGE:` marker
/// anywhere in the text, or a `!` immediately before the first colon of the
/// header (the first line).
pub open spec fn is_breaking(msg: Seq<char>) -> bool {
    let he = find_from(msg, 0, '\n');
    let co = find_from(msg, 0, ':');
    contains_seq(msg, "BREAKING CHANGE:"@) || (co < he && co > 0 && msg[co - 1] == '!')
}

/// The bump kind of one commit message under the conventional-commit rules.
pub open spec fn classify_spec(msg: Seq<char>) -> BumpKind {
    let he = find_from(msg, 0, '\n');
    let co = find_from(msg, 0, ':');
    let ty = msg.subrange(0, type_end(msg));
    if is_breaking(msg) {
        BumpKind::Major
    } else if co < he && ty == "feat"@ {
        BumpKind::Minor
    } else if co < he && (ty == "fix"@ || ty == "perf"@) {
        BumpKind::Patch
    } else {
        BumpKind::NoBump
    }
}

/// The per-package signal of a list of commit messages: the maximum bump
/// kind over all of them.
pub open spec fn max_kind(msgs: Seq<String>) -> BumpKind
    decreases msgs.len(),
{
    if msgs.len() == 0 {
        BumpKind::NoBump
    } else {
        max_kind(msgs.drop_last()).spec_merge(classify_spec(msgs.last()@))
    }
}

/// Index of the first occurrence of `c` in `s` at or after `start`, or the
/// length of `s`.
fn find_char(s: &str, start: usize, c: char) -> (r: usize)
    requires
        start <= s@.len(),
    ensures
        r as int == find_from(s@, start as int, c),
        start <= r <= s@.len(),
{
    let n = s.unicode_len();
    let mut j = start;
    loop
        invariant
            start <= j <= n,
            n == s@.len(),
            find_from(s@, j as int, c) == find_from(s@, start as int, c),
        ensures
            start <= j <= n,
            j as int == find_from(s@, start as int, c),
        decreases n - j,
    {
        if j >= n {
            break;
        }
        if s.get_char(j) == c {
            break;
        }
        j = j + 1;
    }
    j
}

/// Whether `s` contains `needle` as a contiguous run of characters.
fn contains_str(s: &str, needle: &str) -> (r: bool)
    ensures
        r == contains_seq(s@, needle@),
{
    let n = s.unicode_len();
    let m = needle.unicode_len();
    if m == 0 {
        proof {
            assert(s@.subrange(0, 0) =~= needle@);
            assert(contains_at(s@, 0, needle@));
        }
        return true;
    }
    if m > n {
        assert(forall|i: int| !contains_at(s@, i, needle@));
        return false;
    }
    let mut i: usize = 0;
    loop
        invariant
            0 <= i <= n - m + 1,
            1 <= m <= n,
            n == s@.len(),
            m == needle@.len(),
            forall|k: int| 0 <= k < i ==> !contains_at(s@, k, needle@),
        ensures
            forall|k: int| !contains_at(s@, k, needle@),
        decreases n - m + 1 - i,
    {
        if i > n - m {
            assert(forall|k: int| k >= i ==> !contains_at(s@, k, needle@));
            break;
        }
        let mut j: usize = 0;
        let mut all_eq = true;
        loop
            invariant_except_break
                all_eq,
            invariant
                0 <= j <= m,
                i + m <= n,
                n == s@.len(),
                m == needle@.len(),
                forall|t: int| 0 <= t < j ==> s@[i + t] == needle@[t],
            ensures
                all_eq ==> forall|t: int| 0 <= t < m ==> s@[i + t] == needle@[t],
                !all_eq ==> !contains_at(s@, i as int, needle@),
            decreases m - j,
        {
            if j >= m {
                break;
            }
            if s.get_char(i + j) != needle.get_char(j) {
                proof {
                    if contains_at(s@, i as int, needle@) {
                        assert(s@.subrange(i as int, i + m)[j as int] == needle@[j as int]);
                    }
                }
                all_eq = false;
                break;
            }
            j = j + 1;
        }
        if all_eq {
            proof {
                assert(s@.subrange(i as int, i + m) =~= needle@);
                assert(contains_at(s@, i as int, needle@));
            }
            return true;
        }
        i = i + 1;
    }
    false
}

/// Whether the characters of `s` in `[start, end)` equal the characters of
/// `lit`.
fn seg_eq(s: &str, start: usize, end: usize, lit: &str) -> (r: bool)
    requires
        start <= end <= s@.len(),
    ensures
        r == (s@.subrange(start as int, end as int) == lit@),
{
    let m = lit.unicode_len();
    if end - start != m {
        return false;
    }
    let mut j: usize = 0;
    loop
        invariant
            0 <= j <= m,
            start + m == end,
            end <= s@.len(),
            m == lit@.len(),
            forall|t: int| 0 <= t < j ==> s@[start + t] == lit@[t],
        ensures
            j < m ==> s@[start + j] != lit@[j as int],
            j == m ==> forall|t: int| 0 <= t < m ==> s@[start + t] == lit@[t],
        decreases m - j,
    {
        if j >= m {
            break;
        }
        if s.get_char(start + j) != lit.get_char(j) {
            break;
        }
        j = j + 1;
    }
    if j == m {
        proof {
            assert(s@.subrange(start as int, end as int) =~= lit@);
        }
        true
    } else {
        proof {
            if s@.subrange(start as int, end as int) == lit@ {
                assert(s@.subrange(start as int, end as int)[j as int] == lit@[j as int]);
            }
        }
        false
    }
}

/// Index just past the header's type token in `s`.
fn find_type_end(s: &str) -> (r: usize)
    ensures
        r as int == type_end(s@),
        r <= s@.len(),
{
    let n = s.unicode_len();
    let mut j: usize = 0;
    loop
        invariant
            0 <= j <= n,
            n == s@.len(),
            type_end_from(s@, j as int) == type_end_from(s@, 0),
        ensures
            0 <= j <= n,
            j as int == type_end_from(s@, 0),
        decreases n - j,
    {
        if j >= n {
            break;
        }
        let c = s.get_char(j);
        if c == '(' || c == '!' || c == ':' {
            break;
        }
        j = j + 1;
    }
    j
}

/// Classify one commit message under the conventional-commit rules.
pub fn classify(message: &str) -> (k: BumpKind)
    ensures
        k == classify_spec(message@),
{
    let he = find_char(message, 0, '\n');
    let co = find_char(message, 0, ':');
    let footer = contains_str(message, "BREAKING CHANGE:");
    let bang = co < he && co > 0 && message.get_char(co - 1) == '!';
    if footer || bang {
        return BumpKind::Major;
    }
    if co < he {
        let te = find_type_end(message);
        if seg_eq(message, 0, te, "feat") {
            return BumpKind::Minor;
        }
        if seg_eq(message, 0, te, "fix") || seg_eq(message, 0, te, "perf") {
            return BumpKind::Patch;
        }
    }
    BumpKind::NoBump
}

/// The maximum bump kind over a list of commit messages.
pub fn classify_all(msgs: &Vec<String>) -> (k: BumpKind)
    ensures
        k == max_kind(msgs@),
{
    let mut acc = BumpKind::NoBump;
    let mut i: usize = 0;
    while i < msgs.len()
        invariant
            0 <= i <= msgs@.len(),
            acc == max_kind(msgs@.subrange(0, i as int)),
        decreases msgs@.len() - i,
    {
        let k = classify(&msgs[i]);
        acc = acc.merge(k);
        proof {
            assert(msgs@.subrange(0, i + 1).drop_last() =~= msgs@.subrange(0, i as int));
            assert(msgs@.subrange(0, i + 1).last() == msgs@[i as int]);
        }
        i = i + 1;
    }
    proof {
        assert(msgs@.subrange(0, msgs@.len() as int) =~= msgs@);
    }
    acc
}

} // verus!
