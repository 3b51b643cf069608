//! Character-level text utilities shared by the protocol adapter and the
//! scrollback store: conversion between `String` and `Vec<char>`,
//! whitespace handling (JSON's four whitespace characters for the
//! parser, Unicode White_Space for trimming), and splitting text into
//! lines.
use vstd::prelude::*;

verus! {

/// Relies on str::chars: iterates exactly the characters of the slice,
/// in order; collecting them yields the view of the slice.
#[verifier::external_body]
pub fn chars_of(s: &str) -> (r: Vec<char>)
    ensures
        r@ == s@,
{
    s.chars().collect()
}

/// Relies on FromIterator<char> for String: collecting characters builds
/// the string with exactly those characters, in order.
#[verifier::external_body]
pub fn string_from_chars(v: &Vec<char>) -> (r: String)
    ensures
        r@ == v@,
{
    v.iter().collect()
}

/// Relies on char::from_u32: for a value that is a Unicode scalar (at
/// most 0x10FFFF and not a surrogate) it returns the character with that
/// code.
#[verifier::external_body]
pub fn char_from_code(c: u32) -> (r: char)
    requires
        c <= 0x10FFFF,
        !(0xD800 <= c <= 0xDFFF),
    ensures
        r == (c as char),
{
    char::from_u32(c).unwrap()
}

/// JSON's own whitespace: the four characters the grammar allows
/// between tokens.  Trimming of user-facing and protocol text uses the
/// Unicode property instead, below.
pub open spec fn is_ws(c: char) -> bool {
    c == ' ' || c == '\t' || c == '\r' || c == '\n'
}

pub fn is_ws_exec(c: char) -> (r: bool)
    ensures
        r == is_ws(c),
{
    c == ' ' || c == '\t' || c == '\r' || c == '\n'
}

/// Index of the first character at or after `i` that is not JSON
/// whitespace.
pub open spec fn skip_ws(s: Seq<char>, i: int) -> int
    decreases s.len() - i,
{
    if 0 <= i < s.len() && is_ws(s[i]) {
        skip_ws(s, i + 1)
    } else {
        i
    }
}

/// When the first character is not whitespace, nothing is skipped.
pub proof fn lemma_skip_ws_none(s: Seq<char>, i: int)
    requires
        0 <= i <= s.len(),
        i < s.len() ==> !is_ws(s[i]),
    ensures
        skip_ws(s, i) == i,
{
}

pub fn skip_ws_exec(v: &Vec<char>, i: usize) -> (r: usize)
    requires
        i <= v@.len(),
    ensures
        r == skip_ws(v@, i as int),
        i <= r <= v@.len(),
    decreases v@.len() - i,
{
    if i < v.len() && is_ws_exec(v[i]) {
        skip_ws_exec(v, i + 1)
    } else {
        i
    }
}

/// The name of what `char::is_whitespace` returns: the Unicode
/// White_Space property, a function of the character alone.
pub uninterp spec fn unicode_ws(c: char) -> bool;

/// Relies on char::is_whitespace: the Unicode White_Space property.
#[verifier::external_body]
fn is_unicode_ws(c: char) -> (r: bool)
    ensures
        r == unicode_ws(c),
{
    c.is_whitespace()
}

/// Index of the first non-White_Space character at or after `i`.
pub open spec fn skip_tws(s: Seq<char>, i: int) -> int
    decreases s.len() - i,
{
    if 0 <= i < s.len() && unicode_ws(s[i]) {
        skip_tws(s, i + 1)
    } else {
        i
    }
}

proof fn lemma_skip_tws_bounds(s: Seq<char>, i: int)
    requires
        0 <= i <= s.len(),
    ensures
        i <= skip_tws(s, i) <= s.len(),
        forall|k: int| i <= k < skip_tws(s, i) ==> unicode_ws(#[trigger] s[k]),
        skip_tws(s, i) < s.len() ==> !unicode_ws(s[skip_tws(s, i)]),
    decreases s.len() - i,
{
    if i < s.len() && unicode_ws(s[i]) {
        lemma_skip_tws_bounds(s, i + 1);
    }
}

/// The sequence with Unicode whitespace removed from both ends, as
/// `str::trim` removes it.
pub open spec fn spec_trim(s: Seq<char>) -> Seq<char> {
    let a = skip_tws(s, 0);
    if a == s.len() {
        Seq::empty()
    } else {
        s.subrange(a, trim_end(s, s.len() as int))
    }
}

/// One past the last non-White_Space character at index < i.
pub open spec fn trim_end(s: Seq<char>, i: int) -> int
    decreases i,
{
    if 0 < i <= s.len() && unicode_ws(s[i - 1]) {
        trim_end(s, i - 1)
    } else {
        i
    }
}

proof fn lemma_trim_end_bounds(s: Seq<char>, i: int)
    requires
        0 <= i <= s.len(),
    ensures
        0 <= trim_end(s, i) <= i,
        forall|k: int| trim_end(s, i) <= k < i ==> unicode_ws(#[trigger] s[k]),
        trim_end(s, i) > 0 ==> !unicode_ws(s[trim_end(s, i) - 1]),
    decreases i,
{
    if 0 < i && unicode_ws(s[i - 1]) {
        lemma_trim_end_bounds(s, i - 1);
    }
}

fn trim_end_exec(v: &Vec<char>, i: usize) -> (r: usize)
    requires
        i <= v@.len(),
    ensures
        r == trim_end(v@, i as int),
        r <= i,
    decreases i,
{
    if 0 < i && is_unicode_ws(v[i - 1]) {
        trim_end_exec(v, i - 1)
    } else {
        i
    }
}

fn skip_tws_exec(v: &Vec<char>, i: usize) -> (r: usize)
    requires
        i <= v@.len(),
    ensures
        r == skip_tws(v@, i as int),
        i <= r <= v@.len(),
    decreases v@.len() - i,
{
    if i < v.len() && is_unicode_ws(v[i]) {
        skip_tws_exec(v, i + 1)
    } else {
        i
    }
}

pub fn trim_chars(v: &Vec<char>) -> (r: Vec<char>)
    ensures
        r@ == spec_trim(v@),
{
    let a = skip_tws_exec(v, 0);
    if a == v.len() {
        let r: Vec<char> = Vec::new();
        assert(r@ =~= spec_trim(v@));
        r
    } else {
        proof {
            lemma_skip_tws_bounds(v@, 0);
            lemma_trim_end_bounds(v@, v@.len() as int);
        }
        let b = trim_end_exec(v, v.len());
        assert(a < b) by {
            lemma_skip_tws_bounds(v@, 0);
            lemma_trim_end_bounds(v@, v@.len() as int);
            if b <= a {
                assert(unicode_ws(v@[a as int]));
            }
        }
        let mut r: Vec<char> = Vec::new();
        let mut k = a;
        while k < b
            invariant
                a <= k <= b <= v@.len(),
                r@ == v@.subrange(a as int, k as int),
            decreases b - k,
        {
            r.push(v[k]);
            k += 1;
            assert(r@ =~= v@.subrange(a as int, k as int));
        }
        assert(r@ =~= spec_trim(v@));
        r
    }
}

/// The pieces of `s` delimited by newline characters; one more piece than
/// there are newlines.
pub open spec fn spec_lines(s: Seq<char>) -> Seq<Seq<char>>
    decreases s.len(),
{
    if s.len() == 0 {
        seq![Seq::<char>::empty()]
    } else if s[0] == '\n' {
        seq![Seq::<char>::empty()] + spec_lines(s.drop_first())
    } else {
        let r = spec_lines(s.drop_first());
        seq![seq![s[0]] + r[0]] + r.drop_first()
    }
}

/// Splitting always yields at least one piece.
pub proof fn lemma_spec_lines_nonempty(s: Seq<char>)
    ensures
        spec_lines(s).len() > 0,
    decreases s.len(),
{
    if s.len() > 0 {
        lemma_spec_lines_nonempty(s.drop_first());
    }
}

/// Splitting text that starts with a newline-free piece followed by a
/// newline yields that piece and then the split of the remainder.
pub proof fn lemma_spec_lines_concat(a: Seq<char>, b: Seq<char>)
    requires
        forall|i: int| 0 <= i < a.len() ==> a[i] != '\n',
    ensures
        spec_lines(a + seq!['\n'] + b) == seq![a] + spec_lines(b),
    decreases a.len(),
{
    let s = a + seq!['\n'] + b;
    lemma_spec_lines_nonempty(b);
    if a.len() == 0 {
        assert(s =~= seq!['\n'] + b);
        assert(s[0] == '\n');
        assert(s.drop_first() =~= b);
        assert(spec_lines(s) =~~= seq![a] + spec_lines(b));
    } else {
        assert(s[0] == a[0]);
        assert(s[0] != '\n');
        assert(s.drop_first() =~= a.drop_first() + seq!['\n'] + b);
        lemma_spec_lines_concat(a.drop_first(), b);
        let r = spec_lines(s.drop_first());
        assert(r == seq![a.drop_first()] + spec_lines(b));
        assert(r[0] == a.drop_first());
        assert(seq![s[0]] + r[0] =~= a);
        assert(r.drop_first() =~= spec_lines(b));
        assert(spec_lines(s) =~~= seq![a] + spec_lines(b));
    }
}

/// Splitting newline-free text yields that text as the only piece.
pub proof fn lemma_spec_lines_no_nl(s: Seq<char>)
    requires
        forall|i: int| 0 <= i < s.len() ==> s[i] != '\n',
    ensures
        spec_lines(s) == seq![s],
    decreases s.len(),
{
    if s.len() > 0 {
        lemma_spec_lines_no_nl(s.drop_first());
        let r = spec_lines(s.drop_first());
        assert(seq![s[0]] + r[0] =~= s);
        assert(spec_lines(s) =~~= seq![s]);
    } else {
        assert(spec_lines(s) =~~= seq![s]);
    }
}

/// Index of the first newline at or after `i`, or the length if none.
pub open spec fn first_nl(s: Seq<char>, i: int) -> int
    decreases s.len() - i,
{
    if 0 <= i < s.len() {
        if s[i] == '\n' {
            i
        } else {
            first_nl(s, i + 1)
        }
    } else {
        i
    }
}

pub proof fn lemma_first_nl(s: Seq<char>, i: int)
    requires
        0 <= i <= s.len(),
    ensures
        i <= first_nl(s, i) <= s.len(),
        forall|k: int| i <= k < first_nl(s, i) ==> s[k] != '\n',
        first_nl(s, i) < s.len() ==> s[first_nl(s, i)] == '\n',
        (exists|k: int| i <= k < s.len() && s[k] == '\n') ==> first_nl(s, i) < s.len(),
    decreases s.len() - i,
{
    if i < s.len() && s[i] != '\n' {
        lemma_first_nl(s, i + 1);
    }
}

fn first_nl_exec(v: &Vec<char>, i: usize) -> (r: usize)
    requires
        i <= v@.len(),
    ensures
        r == first_nl(v@, i as int),
        i <= r <= v@.len(),
    decreases v@.len() - i,
{
    if i < v.len() {
        if v[i] == '\n' {
            i
        } else {
            first_nl_exec(v, i + 1)
        }
    } else {
        i
    }
}

pub fn split_lines(v: &Vec<char>) -> (r: Vec<Vec<char>>)
    ensures
        r@.len() == spec_lines(v@).len(),
        forall|i: int| 0 <= i < r@.len() ==> r@[i]@ == spec_lines(v@)[i],
    decreases v@.len(),
{
    let n = first_nl_exec(v, 0);
    proof {
        lemma_first_nl(v@, 0);
    }
    if n == v.len() {
        proof {
            lemma_spec_lines_no_nl(v@);
        }
        let mut r: Vec<Vec<char>> = Vec::new();
        let mut piece: Vec<char> = Vec::new();
        let mut k: usize = 0;
        while k < v.len()
            invariant
                k <= v@.len(),
                piece@ == v@.subrange(0, k as int),
            decreases v@.len() - k,
        {
            piece.push(v[k]);
            k += 1;
            assert(piece@ =~= v@.subrange(0, k as int));
        }
        assert(piece@ =~= v@);
        r.push(piece);
        r
    } else {
        proof {
            assert(v@[first_nl(v@, 0)] == '\n');
            lemma_spec_lines_concat(
                v@.subrange(0, first_nl(v@, 0)),
                v@.subrange(first_nl(v@, 0) + 1, v@.len() as int),
            );
            assert(v@ =~= v@.subrange(0, first_nl(v@, 0)) + seq!['\n'] + v@.subrange(
                first_nl(v@, 0) + 1,
                v@.len() as int,
            ));
        }
        let mut head: Vec<char> = Vec::new();
        let mut k: usize = 0;
        while k < n
            invariant
                k <= n <= v@.len(),
                head@ == v@.subrange(0, k as int),
            decreases n - k,
        {
            head.push(v[k]);
            k += 1;
            assert(head@ =~= v@.subrange(0, k as int));
        }
        let mut rest: Vec<char> = Vec::new();
        let mut k2: usize = n + 1;
        while k2 < v.len()
            invariant
                n + 1 <= k2 <= v@.len(),
                rest@ == v@.subrange(n + 1, k2 as int),
            decreases v@.len() - k2,
        {
            rest.push(v[k2]);
            k2 += 1;
            assert(rest@ =~= v@.subrange(n + 1, k2 as int));
        }
        assert(rest@ =~= v@.subrange(n + 1, v@.len() as int));
        let tail = split_lines(&rest);
        let mut r: Vec<Vec<char>> = Vec::new();
        r.push(head);
        let mut k3: usize = 0;
        while k3 < tail.len()
            invariant
                k3 <= tail@.len(),
                r@.len() == 1 + k3,
                r@[0]@ == v@.subrange(0, n as int),
                forall|i: int| 0 <= i < k3 ==> r@[i + 1]@ == tail@[i]@,
            decreases tail@.len() - k3,
        {
            let piece = copy_chars(&tail[k3]);
            r.push(piece);
            k3 += 1;
        }
        assert forall|i: int| 0 <= i < r@.len() implies r@[i]@ == spec_lines(v@)[i] by {
            if i > 0 {
                assert(r@[i]@ == tail@[i - 1]@);
            }
        }
        r
    }
}

pub fn copy_chars(v: &Vec<char>) -> (r: Vec<char>)
    ensures
        r@ == v@,
{
    let mut r: Vec<char> = Vec::new();
    let mut k: usize = 0;
    while k < v.len()
        invariant
            k <= v@.len(),
            r@ == v@.subrange(0, k as int),
        decreases v@.len() - k,
    {
        r.push(v[k]);
        k += 1;
        assert(r@ =~= v@.subrange(0, k as int));
    }
    assert(r@ =~= v@);
    r
}

/// Character-for-character equality of two string slices.
pub fn str_eq(a: &str, b: &str) -> (r: bool)
    ensures
        r == (a@ == b@),
{
    let av = chars_of(a);
    let bv = chars_of(b);
    chars_eq(&av, &bv)
}

pub fn chars_eq(a: &Vec<char>, b: &Vec<char>) -> (r: bool)
    ensures
        r == (a@ == b@),
{
    if a.len() != b.len() {
        assert(a@ != b@) by {
            if a@ == b@ {
                assert(a@.len() == b@.len());
            }
        }
        return false;
    }
    let mut k: usize = 0;
    while k < a.len()
        invariant
            k <= a@.len(),
            a@.len() == b@.len(),
            forall|i: int| 0 <= i < k ==> a@[i] == b@[i],
        decreases a@.len() - k,
    {
        if a[k] != b[k] {
            assert(a@ != b@) by {
                if a@ == b@ {
                    assert(a@[k as int] == b@[k as int]);
                }
            }
            return false;
        }
        k += 1;
    }
    assert(a@ =~= b@);
    true
}

/// Whether `p` is a prefix of `s`; if so the remainder after `p`.
pub fn strip_prefix(s: &str, p: &str) -> (r: Option<String>)
    ensures
        match r {
            Some(rest) => p@.is_prefix_of(s@) && rest@ == s@.skip(p@.len() as int),
            None => !p@.is_prefix_of(s@),
        },
{
    let sv = chars_of(s);
    let pv = chars_of(p);
    if pv.len() > sv.len() {
        assert(!p@.is_prefix_of(s@));
        return None;
    }
    let mut k: usize = 0;
    while k < pv.len()
        invariant
            k <= pv@.len() <= sv@.len(),
            sv@ == s@,
            pv@ == p@,
            forall|i: int| 0 <= i < k ==> pv@[i] == sv@[i],
        decreases pv@.len() - k,
    {
        if pv[k] != sv[k] {
            assert(!p@.is_prefix_of(s@)) by {
                if p@.is_prefix_of(s@) {
                    assert(p@ =~= s@.subrange(0, p@.len() as int));
                    assert(p@[k as int] == s@[k as int]);
                }
            }
            return None;
        }
        k += 1;
    }
    assert(p@.is_prefix_of(s@)) by {
        assert(p@ =~= s@.subrange(0, p@.len() as int));
    }
    let mut rest: Vec<char> = Vec::new();
    let mut j: usize = pv.len();
    while j < sv.len()
        invariant
            pv@.len() <= j <= sv@.len(),
            sv@ == s@,
            pv@ == p@,
            rest@ == s@.subrange(p@.len() as int, j as int),
        decreases sv@.len() - j,
    {
        rest.push(sv[j]);
        j += 1;
        assert(rest@ =~= s@.subrange(p@.len() as int, j as int));
    }
    assert(rest@ =~= s@.skip(p@.len() as int));
    Some(string_from_chars(&rest))
}

/// Lexicographic order on character sequences, by code point.
pub open spec fn lex_le(a: Seq<char>, b: Seq<char>) -> bool
    decreases a.len(),
{
    if a.len() == 0 {
        true
    } else if b.len() == 0 {
        false
    } else if a[0] == b[0] {
        lex_le(a.drop_first(), b.drop_first())
    } else {
        a[0] < b[0]
    }
}

pub fn lex_le_exec(a: &Vec<char>, b: &Vec<char>) -> (r: bool)
    ensures
        r == lex_le(a@, b@),
{
    assert(a@.skip(0) =~= a@);
    assert(b@.skip(0) =~= b@);
    lex_le_from(a, b, 0)
}

fn lex_le_from(a: &Vec<char>, b: &Vec<char>, k: usize) -> (r: bool)
    requires
        k <= a@.len(),
        k <= b@.len(),
    ensures
        r == lex_le(a@.skip(k as int), b@.skip(k as int)),
    decreases a@.len() - k,
{
    if k == a.len() {
        assert(a@.skip(k as int).len() == 0);
        true
    } else if k == b.len() {
        assert(b@.skip(k as int).len() == 0);
        assert(a@.skip(k as int).len() > 0);
        false
    } else {
        let ghost sa = a@.skip(k as int);
        let ghost sb = b@.skip(k as int);
        assert(sa[0] == a@[k as int] && sb[0] == b@[k as int]);
        if a[k] == b[k] {
            let r = lex_le_from(a, b, k + 1);
            assert(sa.drop_first() =~= a@.skip(k + 1));
            assert(sb.drop_first() =~= b@.skip(k + 1));
            r
        } else {
            a[k] < b[k]
        }
    }
}

/// `lex_le` totally (pre)orders sequences: it is total and transitive.
pub proof fn lemma_lex_le_total(a: Seq<char>, b: Seq<char>)
    ensures
        lex_le(a, b) || lex_le(b, a),
    decreases a.len(),
{
    if a.len() > 0 && b.len() > 0 && a[0] == b[0] {
        lemma_lex_le_total(a.drop_first(), b.drop_first());
    }
}

pub proof fn lemma_lex_le_trans(a: Seq<char>, b: Seq<char>, c: Seq<char>)
    requires
        lex_le(a, b),
        lex_le(b, c),
    ensures
        lex_le(a, c),
    decreases a.len(),
{
    if a.len() > 0 && b.len() > 0 && c.len() > 0 {
        if a[0] == b[0] && b[0] == c[0] {
            lemma_lex_le_trans(a.drop_first(), b.drop_first(), c.drop_first());
        }
    }
}

} // verus!
