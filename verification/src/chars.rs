//! Character-sequence utilities: conversion between strings and character
//! vectors, substring search, equality and lexicographic order on names.

use vstd::prelude::*;

verus! {

/// The characters of a string, in order, as a vector.
pub fn str_chars(s: &str) -> (r: Vec<char>)
    ensures
        r@ == s@,
{
    let n = s.unicode_len();
    let mut r: Vec<char> = Vec::new();
    let mut i: usize = 0;
    while i < n
        invariant
            n == s@.len(),
            i <= n,
            r@ == s@.subrange(0, i as int),
        decreases n - i,
    {
        r.push(s.get_char(i));
        i += 1;
        proof {
            assert(r@ =~= s@.subrange(0, i as int));
        }
    }
    proof {
        assert(r@ =~= s@);
    }
    r
}

/// Relies on `String`'s `FromIterator<char>` implementation: collecting an
/// iterator of characters yields the string of exactly those characters in
/// order.
#[verifier::external_body]
pub(crate) fn chars_to_string(v: &Vec<char>) -> (r: String)
    ensures
        r@ == v@,
{
    v.iter().collect()
}

/// Whether the two strings hold the same characters.
pub fn str_eq(a: &str, b: &str) -> (r: bool)
    ensures
        r == (a@ == b@),
{
    let na = a.unicode_len();
    let nb = b.unicode_len();
    if na != nb {
        proof {
            assert(a@ != b@);
        }
        return false;
    }
    let mut i: usize = 0;
    while i < na
        invariant
            na == a@.len(),
            na == b@.len(),
            i <= na,
            forall|j: int| 0 <= j < i ==> a@[j] == b@[j],
        decreases na - i,
    {
        if a.get_char(i) != b.get_char(i) {
            return false;
        }
        i += 1;
    }
    proof {
        assert(a@ =~= b@);
    }
    true
}

/// Whether the two character vectors hold the same characters.
pub fn chars_eq(a: &Vec<char>, b: &Vec<char>) -> (r: bool)
    ensures
        r == (a@ == b@),
{
    let na = a.len();
    let nb = b.len();
    if na != nb {
        proof {
            assert(a@ != b@);
        }
        return false;
    }
    let mut i: usize = 0;
    while i < na
        invariant
            na == a@.len(),
            na == b@.len(),
            i <= na,
            forall|j: int| 0 <= j < i ==> a@[j] == b@[j],
        decreases na - i,
    {
        if a[i] != b[i] {
            return false;
        }
        i += 1;
    }
    proof {
        assert(a@ =~= b@);
    }
    true
}

/// Lexicographic order on character sequences, by character code,
/// ascending; a prefix comes before every continuation of it.
pub open spec fn lex_le(a: Seq<char>, b: Seq<char>) -> bool
    decreases a.len(),
{
    if a.len() == 0 {
        true
    } else if b.len() == 0 {
        false
    } else if a[0] < b[0] {
        true
    } else if a[0] > b[0] {
        false
    } else {
        lex_le(a.drop_first(), b.drop_first())
    }
}

/// `lex_le` holds in at least one direction: the order is total.
pub proof fn lemma_lex_le_total(a: Seq<char>, b: Seq<char>)
    ensures
        lex_le(a, b) || lex_le(b, a),
    decreases a.len(),
{
    if a.len() != 0 && b.len() != 0 && a[0] == b[0] {
        lemma_lex_le_total(a.drop_first(), b.drop_first());
    }
}

/// `lex_le` is transitive.
pub proof fn lemma_lex_le_transitive(a: Seq<char>, b: Seq<char>, c: Seq<char>)
    requires
        lex_le(a, b),
        lex_le(b, c),
    ensures
        lex_le(a, c),
    decreases a.len(),
{
    if a.len() != 0 && !(a[0] < c[0]) {
        assert(a[0] == b[0]);
        assert(b[0] == c[0]);
        lemma_lex_le_transitive(a.drop_first(), b.drop_first(), c.drop_first());
    }
}

/// Whether `a` comes no later than `b` in lexicographic name order.
pub fn str_le(a: &str, b: &str) -> (r: bool)
    ensures
        r == lex_le(a@, b@),
{
    let na = a.unicode_len();
    let nb = b.unicode_len();
    let mut i: usize = 0;
    proof {
        assert(a@.skip(0) =~= a@);
        assert(b@.skip(0) =~= b@);
    }
    loop
        invariant
            na == a@.len(),
            nb == b@.len(),
            i <= na,
            i <= nb,
            a@.subrange(0, i as int) == b@.subrange(0, i as int),
            lex_le(a@, b@) == lex_le(a@.skip(i as int), b@.skip(i as int)),
        decreases na - i,
    {
        if i >= na {
            return true;
        }
        if i >= nb {
            return false;
        }
        let ca = a.get_char(i);
        let cb = b.get_char(i);
        if ca < cb {
            return true;
        }
        if ca > cb {
            return false;
        }
        i += 1;
        proof {
            assert(a@.subrange(0, i as int) =~= b@.subrange(0, i as int));
            assert(a@.skip(i - 1).drop_first() =~= a@.skip(i as int));
            assert(b@.skip(i - 1).drop_first() =~= b@.skip(i as int));
        }
    }
}

/// Whether `p` occurs in `h` starting at position `i`.
pub open spec fn matches_at(h: Seq<char>, p: Seq<char>, i: int) -> bool {
    0 <= i && i + p.len() <= h.len() && h.subrange(i, i + p.len() as int) == p
}

/// Whether `p` occurs anywhere in `h` as a contiguous run.
pub open spec fn contains_seq(h: Seq<char>, p: Seq<char>) -> bool {
    exists|i: int| matches_at(h, p, i)
}

/// Whether `p` occurs in `h` at position `i`; `false` when `p` does not fit
/// there.
pub fn match_at(h: &Vec<char>, p: &Vec<char>, i: usize) -> (r: bool)
    requires
        i + p@.len() <= h@.len(),
    ensures
        r == matches_at(h@, p@, i as int),
{
    let n = h.len();
    let m = p.len();
    let mut j: usize = 0;
    while j < m
        invariant
            n == h@.len(),
            m == p@.len(),
            i + m <= n,
            j <= m,
            forall|k: int| 0 <= k < j ==> h@[i + k] == p@[k],
        decreases m - j,
    {
        if h[i + j] != p[j] {
            proof {
                assert(h@.subrange(i as int, i + p@.len() as int)[j as int] != p@[j as int]);
            }
            return false;
        }
        j += 1;
    }
    proof {
        assert(h@.subrange(i as int, i + p@.len() as int) =~= p@);
    }
    true
}

/// Whether `p` occurs anywhere in `h`.
pub fn contains_chars(h: &Vec<char>, p: &Vec<char>) -> (r: bool)
    ensures
        r == contains_seq(h@, p@),
{
    let n = h.len();
    let m = p.len();
    if m > n {
        proof {
            assert(forall|i: int| !matches_at(h@, p@, i));
        }
        return false;
    }
    if m == 0 {
        proof {
            assert(h@.subrange(0, 0) =~= p@);
            assert(matches_at(h@, p@, 0));
        }
        return true;
    }
    let mut i: usize = 0;
    loop
        invariant
            n == h@.len(),
            m == p@.len(),
            1 <= m <= n,
            i <= n - m + 1,
            forall|k: int| 0 <= k < i ==> !matches_at(h@, p@, k),
        decreases n - m + 1 - i,
    {
        if i > n - m {
            proof {
                if contains_seq(h@, p@) {
                    let k = choose|k: int| matches_at(h@, p@, k);
                    assert(0 <= k < i);
                    assert(false);
                }
            }
            return false;
        }
        if match_at(h, p, i) {
            return true;
        }
        i += 1;
    }
}

/// `s` with every (leftmost, non-overlapping) occurrence of `p` removed.
pub open spec fn remove_all(s: Seq<char>, p: Seq<char>) -> Seq<char>
    recommends
        p.len() > 0,
    decreases s.len(),
{
    if p.len() == 0 || s.len() < p.len() {
        s
    } else if s.subrange(0, p.len() as int) == p {
        remove_all(s.skip(p.len() as int), p)
    } else {
        seq![s[0]] + remove_all(s.drop_first(), p)
    }
}

/// `h` with every occurrence of `p` removed.
pub fn remove_all_chars(h: &Vec<char>, p: &Vec<char>) -> (r: Vec<char>)
    requires
        p@.len() > 0,
    ensures
        r@ == remove_all(h@, p@),
{
    let n = h.len();
    let m = p.len();
    let mut out: Vec<char> = Vec::new();
    let mut i: usize = 0;
    proof {
        assert(h@.skip(0) =~= h@);
    }
    while i < n
        invariant
            n == h@.len(),
            m == p@.len(),
            1 <= m,
            i <= n,
            remove_all(h@, p@) == out@ + remove_all(h@.skip(i as int), p@),
        decreases n - i,
    {
        if m <= n - i && match_at(h, p, i) {
            proof {
                assert(h@.skip(i as int).subrange(0, m as int) =~= h@.subrange(
                    i as int,
                    i + m as int,
                ));
                assert(h@.skip(i as int).skip(m as int) =~= h@.skip(i + m as int));
            }
            i += m;
        } else {
            let ghost suffix = h@.skip(i as int);
            let ghost out0 = out@;
            out.push(h[i]);
            i += 1;
            proof {
                if suffix.len() >= m {
                    assert(suffix.subrange(0, m as int) =~= h@.subrange(i - 1, i - 1 + m as int));
                }
                assert(suffix.drop_first() =~= h@.skip(i as int));
                assert(remove_all(suffix, p@) == seq![suffix[0]] + remove_all(
                    h@.skip(i as int),
                    p@,
                ));
                assert(out@ + remove_all(h@.skip(i as int), p@) =~= out0 + remove_all(
                    suffix,
                    p@,
                )) by {
                    assert(out@ =~= out0.push(suffix[0]));
                }
            }
        }
    }
    proof {
        assert(h@.skip(n as int) =~= Seq::<char>::empty());
        assert(out@ + Seq::<char>::empty() =~= out@);
    }
    out
}

/// The whitespace characters that are trimmed from the ends of a cleaned
/// display name: the Unicode white-space set, the same characters that
/// `str::trim` removes (`char::is_whitespace`).
pub open spec fn is_space(c: char) -> bool {
    ||| c == '\t'
    ||| c == '\n'
    ||| c == '\u{b}'
    ||| c == '\u{c}'
    ||| c == '\r'
    ||| c == ' '
    ||| c == '\u{85}'
    ||| c == '\u{a0}'
    ||| c == '\u{1680}'
    ||| ('\u{2000}' <= c && c <= '\u{200a}')
    ||| c == '\u{2028}'
    ||| c == '\u{2029}'
    ||| c == '\u{202f}'
    ||| c == '\u{205f}'
    ||| c == '\u{3000}'
}

/// `s` without its leading whitespace.
pub open spec fn trim_start(s: Seq<char>) -> Seq<char>
    decreases s.len(),
{
    if s.len() > 0 && is_space(s[0]) {
        trim_start(s.drop_first())
    } else {
        s
    }
}

/// `s` without its trailing whitespace.
pub open spec fn trim_end(s: Seq<char>) -> Seq<char>
    decreases s.len(),
{
    if s.len() > 0 && is_space(s.last()) {
        trim_end(s.drop_last())
    } else {
        s
    }
}

/// `s` without leading or trailing whitespace.
pub open spec fn trim_spec(s: Seq<char>) -> Seq<char> {
    trim_end(trim_start(s))
}

/// Whether `c` is one of the trimmed whitespace characters.
pub fn is_space_char(c: char) -> (r: bool)
    ensures
        r == is_space(c),
{
    c == '\t' || c == '\n' || c == '\u{b}' || c == '\u{c}' || c == '\r' || c == ' ' || c == '\u{85}'
        || c == '\u{a0}' || c == '\u{1680}' || ('\u{2000}' <= c && c <= '\u{200a}') || c
        == '\u{2028}' || c == '\u{2029}' || c == '\u{202f}' || c == '\u{205f}' || c == '\u{3000}'
}

/// The characters of `h` from position `a` (inclusive) to `b` (exclusive).
pub fn subrange_chars(h: &Vec<char>, a: usize, b: usize) -> (r: Vec<char>)
    requires
        a <= b <= h@.len(),
    ensures
        r@ == h@.subrange(a as int, b as int),
{
    let mut out: Vec<char> = Vec::new();
    let mut i: usize = a;
    while i < b
        invariant
            a <= i <= b <= h@.len(),
            out@ == h@.subrange(a as int, i as int),
        decreases b - i,
    {
        out.push(h[i]);
        i += 1;
        proof {
            assert(out@ =~= h@.subrange(a as int, i as int));
        }
    }
    out
}

/// `h` without leading or trailing whitespace.
pub fn trim_chars(h: &Vec<char>) -> (r: Vec<char>)
    ensures
        r@ == trim_spec(h@),
{
    let n = h.len();
    let mut a: usize = 0;
    proof {
        assert(h@.skip(0) =~= h@);
    }
    while a < n && is_space_char(h[a])
        invariant
            n == h@.len(),
            a <= n,
            trim_start(h@) == trim_start(h@.skip(a as int)),
        decreases n - a,
    {
        a += 1;
        proof {
            assert(h@.skip(a - 1).drop_first() =~= h@.skip(a as int));
        }
    }
    proof {
        if a < n {
            assert(trim_start(h@.skip(a as int)) == h@.skip(a as int));
        } else {
            assert(h@.skip(a as int) =~= Seq::<char>::empty());
        }
        assert(trim_start(h@) == h@.skip(a as int));
        assert(h@.skip(a as int) =~= h@.subrange(a as int, n as int));
    }
    let mut b: usize = n;
    while b > a && is_space_char(h[b - 1])
        invariant
            n == h@.len(),
            a <= b <= n,
            trim_start(h@) == h@.subrange(a as int, n as int),
            trim_end(h@.subrange(a as int, n as int)) == trim_end(
                h@.subrange(a as int, b as int),
            ),
        decreases b,
    {
        b -= 1;
        proof {
            assert(h@.subrange(a as int, b + 1).drop_last() =~= h@.subrange(a as int, b as int));
        }
    }
    proof {
        if b > a {
            assert(trim_end(h@.subrange(a as int, b as int)) == h@.subrange(a as int, b as int));
        } else {
            assert(h@.subrange(a as int, b as int) =~= Seq::<char>::empty());
        }
    }
    subrange_chars(h, a, b)
}

/// `s` without any trailing run of the character `c`.
pub open spec fn strip_trailing(s: Seq<char>, c: char) -> Seq<char>
    decreases s.len(),
{
    if s.len() > 0 && s.last() == c {
        strip_trailing(s.drop_last(), c)
    } else {
        s
    }
}

/// `h` without any trailing run of the character `c`.
pub fn strip_trailing_chars(h: &Vec<char>, c: char) -> (r: Vec<char>)
    ensures
        r@ == strip_trailing(h@, c),
{
    let n = h.len();
    let mut b: usize = n;
    proof {
        assert(h@.subrange(0, n as int) =~= h@);
    }
    while b > 0 && h[b - 1] == c
        invariant
            n == h@.len(),
            b <= n,
            strip_trailing(h@, c) == strip_trailing(h@.subrange(0, b as int), c),
        decreases b,
    {
        b -= 1;
        proof {
            assert(h@.subrange(0, b + 1).drop_last() =~= h@.subrange(0, b as int));
        }
    }
    proof {
        if b > 0 {
            assert(strip_trailing(h@.subrange(0, b as int), c) == h@.subrange(0, b as int));
        } else {
            assert(h@.subrange(0, b as int) =~= Seq::<char>::empty());
        }
    }
    subrange_chars(h, 0, b)
}

} // verus!
