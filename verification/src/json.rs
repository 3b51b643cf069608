//! A small JSON value model.
//!
//! The scrollback store's line format is JSON, one object per line, and
//! the external tool's protocol is JSON as well.  This module holds the
//! value model shared by both: an executable tree type, its mathematical
//! view, rendering of the subset this client writes (null, integers,
//! strings), and a tolerant parser for whole values used when scrollback
//! lines are read back.
use vstd::prelude::*;

use crate::text::{is_ws, skip_ws};

verus! {

/// An executable JSON tree.  `Other` stands for a number this client has
/// no use for (not representable as `i64`): such a value is carried only
/// so that documents containing one can still be walked.
pub enum Json {
    Null,
    Bool(bool),
    Int(i64),
    Str(String),
    Arr(Vec<Json>),
    Obj(Vec<(String, Json)>),
    Other,
}

/// The mathematical view of a JSON tree.
pub enum JsonV {
    Null,
    Bool(bool),
    Int(i64),
    Str(Seq<char>),
    Arr(Seq<JsonV>),
    Obj(Seq<(Seq<char>, JsonV)>),
    Other,
}

/// The view of an executable JSON tree.
pub open spec fn jv(j: Json) -> JsonV
    decreases j,
{
    match j {
        Json::Null => JsonV::Null,
        Json::Bool(b) => JsonV::Bool(b),
        Json::Int(n) => JsonV::Int(n),
        Json::Str(s) => JsonV::Str(s@),
        Json::Arr(v) => JsonV::Arr(jv_seq(v@)),
        Json::Obj(v) => JsonV::Obj(jv_fields(v@)),
        Json::Other => JsonV::Other,
    }
}

/// Views of a sequence of JSON trees.
pub open spec fn jv_seq(s: Seq<Json>) -> Seq<JsonV>
    decreases s,
{
    if s.len() == 0 {
        Seq::empty()
    } else {
        seq![jv(s[0])] + jv_seq(s.drop_first())
    }
}

/// Views of a sequence of object fields.
pub open spec fn jv_fields(s: Seq<(String, Json)>) -> Seq<(Seq<char>, JsonV)>
    decreases s,
{
    if s.len() == 0 {
        Seq::empty()
    } else {
        seq![(s[0].0@, jv(s[0].1))] + jv_fields(s.drop_first())
    }
}

pub proof fn lemma_jv_seq(s: Seq<Json>)
    ensures
        jv_seq(s).len() == s.len(),
        forall|i: int| 0 <= i < s.len() ==> jv_seq(s)[i] == jv(s[i]),
    decreases s.len(),
{
    if s.len() > 0 {
        lemma_jv_seq(s.drop_first());
    }
}

pub proof fn lemma_jv_fields(s: Seq<(String, Json)>)
    ensures
        jv_fields(s).len() == s.len(),
        forall|i: int| 0 <= i < s.len() ==> jv_fields(s)[i] == (s[i].0@, jv(s[i].1)),
    decreases s.len(),
{
    if s.len() > 0 {
        lemma_jv_fields(s.drop_first());
    }
}

/// The value bound to the first occurrence of `k` among object fields.
pub open spec fn lookup(fs: Seq<(Seq<char>, JsonV)>, k: Seq<char>) -> Option<JsonV>
    decreases fs.len(),
{
    if fs.len() == 0 {
        None
    } else if fs[0].0 == k {
        Some(fs[0].1)
    } else {
        lookup(fs.drop_first(), k)
    }
}

/// First-match lookup on an executable object's fields.
pub fn obj_get<'a>(fields: &'a Vec<(String, Json)>, key: &str) -> (r: Option<&'a Json>)
    ensures
        match r {
            Some(j) => lookup(jv(Json::Obj(*fields))->Obj_0, key@) == Some(jv(*j)),
            None => lookup(jv(Json::Obj(*fields))->Obj_0, key@) is None,
        },
{
    let ghost fs = jv(Json::Obj(*fields))->Obj_0;
    proof {
        lemma_jv_fields(fields@);
        assert(fs.skip(0) =~= fs);
    }
    let mut k: usize = 0;
    while k < fields.len()
        invariant
            k <= fields@.len(),
            fs == jv(Json::Obj(*fields))->Obj_0,
            fs.len() == fields@.len(),
            forall|i: int| 0 <= i < fs.len() ==> fs[i] == (fields@[i].0@, jv(fields@[i].1)),
            lookup(fs, key@) == lookup(fs.skip(k as int), key@),
        decreases fields@.len() - k,
    {
        proof {
            assert(fs.skip(k as int)[0] == fs[k as int]);
        }
        if crate::text::str_eq(fields[k].0.as_str(), key) {
            return Some(&fields[k].1);
        }
        proof {
            assert(fs.skip(k as int).drop_first() =~= fs.skip(k + 1));
        }
        k += 1;
    }
    assert(fs.skip(k as int) =~= Seq::empty());
    None
}

// ------------------------------------------------------------------
// decimal digits
// ------------------------------------------------------------------
pub open spec fn is_digit(c: char) -> bool {
    48 <= (c as int) <= 57
}

pub open spec fn digit_char(d: int) -> char {
    ((48 + d) as u8) as char
}

/// The decimal digit characters of a non-negative integer, most
/// significant first.
pub open spec fn dec_digits(n: int) -> Seq<char>
    decreases n,
{
    if n < 10 {
        seq![digit_char(if n >= 0 { n } else { 0 })]
    } else {
        dec_digits(n / 10).push(digit_char(n % 10))
    }
}

/// The value of a run of decimal digit characters.
pub open spec fn digits_val(s: Seq<char>) -> int
    decreases s.len(),
{
    if s.len() == 0 {
        0
    } else {
        digits_val(s.drop_last()) * 10 + ((s.last() as int) - 48)
    }
}

pub proof fn lemma_dec_digits(n: int)
    requires
        n >= 0,
    ensures
        dec_digits(n).len() >= 1,
        forall|i: int| 0 <= i < dec_digits(n).len() ==> is_digit(#[trigger] dec_digits(n)[i]),
        digits_val(dec_digits(n)) == n,
    decreases n,
{
    if n < 10 {
        lemma_digit_char_val(n);
        let s = dec_digits(n);
        assert(s =~= seq![digit_char(n)]);
        assert(s.drop_last() =~= Seq::<char>::empty());
        assert(digits_val(s.drop_last()) == 0);
        assert(digits_val(s) == digits_val(s.drop_last()) * 10 + ((s.last() as int) - 48));
    } else {
        lemma_dec_digits(n / 10);
        let d = n % 10;
        assert(0 <= d < 10);
        lemma_digit_char_val(d);
        let s = dec_digits(n);
        assert(s == dec_digits(n / 10).push(digit_char(d)));
        assert(s.drop_last() =~= dec_digits(n / 10));
        assert(s.last() == digit_char(d));
        assert(digits_val(s) == (n / 10) * 10 + d);
        assert((n / 10) * 10 + n % 10 == n) by (nonlinear_arith);
    }
}

/// `digit_char(d)` has code `48 + d` for digits.
pub proof fn lemma_digit_char_val(d: int)
    requires
        0 <= d <= 9,
    ensures
        digit_char(d) as int == 48 + d,
        is_digit(digit_char(d)),
{
    assert(digit_char(d) as int == 48 + d);
}

/// Pushes the decimal digits of `n` onto `out`.
pub fn push_u64_dec(out: &mut Vec<char>, n: u64)
    ensures
        final(out)@ == old(out)@ + dec_digits(n as int),
    decreases n,
{
    if n < 10 {
        let c: char = ((48 + n as u8)) as char;
        proof {
            lemma_digit_char_val(n as int);
            assert(c == digit_char(n as int));
        }
        out.push(c);
        assert(out@ =~= old(out)@ + dec_digits(n as int));
    } else {
        push_u64_dec(out, n / 10);
        let d: u8 = (n % 10) as u8;
        let c: char = (48 + d) as char;
        proof {
            lemma_digit_char_val((n % 10) as int);
            assert(c == digit_char((n as int) % 10));
            assert((n as int) / 10 == (n / 10) as int);
        }
        out.push(c);
        assert(out@ =~= old(out)@ + dec_digits(n as int));
    }
}

/// The decimal rendering of a signed integer.
pub open spec fn render_i64(n: int) -> Seq<char> {
    if n >= 0 {
        dec_digits(n)
    } else {
        seq!['-'] + dec_digits(-n)
    }
}

pub fn push_i64_dec(out: &mut Vec<char>, n: i64)
    ensures
        final(out)@ == old(out)@ + render_i64(n as int),
{
    if n >= 0 {
        push_u64_dec(out, n as u64);
    } else {
        out.push('-');
        let m: u64 = ((-(n + 1)) as u64) + 1;
        assert(m as int == -(n as int));
        push_u64_dec(out, m);
        assert(out@ =~= old(out)@ + render_i64(n as int));
    }
}

// ------------------------------------------------------------------
// string escaping
// ------------------------------------------------------------------
pub open spec fn hex_digit(d: int) -> char {
    if d < 10 {
        ((48 + d) as u8) as char
    } else {
        ((87 + d) as u8) as char
    }
}

/// The escape sequence this client writes for one character: quote and
/// backslash get a backslash escape, control characters a `\u00XX`
/// escape, and everything else stands for itself.
pub open spec fn esc_char(c: char) -> Seq<char> {
    if c == '"' {
        seq!['\\', '"']
    } else if c == '\\' {
        seq!['\\', '\\']
    } else if (c as int) < 32 {
        seq!['\\', 'u', '0', '0', hex_digit((c as int) / 16), hex_digit((c as int) % 16)]
    } else {
        seq![c]
    }
}

pub open spec fn esc_seq(s: Seq<char>) -> Seq<char>
    decreases s.len(),
{
    if s.len() == 0 {
        Seq::empty()
    } else {
        esc_char(s[0]) + esc_seq(s.drop_first())
    }
}

/// A full JSON string token: quotes around the escaped characters.
pub open spec fn render_str(s: Seq<char>) -> Seq<char> {
    seq!['"'] + esc_seq(s) + seq!['"']
}

pub proof fn lemma_esc_seq_concat(a: Seq<char>, b: Seq<char>)
    ensures
        esc_seq(a + b) == esc_seq(a) + esc_seq(b),
    decreases a.len(),
{
    if a.len() == 0 {
        assert(a + b =~= b);
        assert(esc_seq(a) =~= Seq::<char>::empty());
        assert(esc_seq(a) + esc_seq(b) =~= esc_seq(b));
    } else {
        assert((a + b).drop_first() =~= a.drop_first() + b);
        lemma_esc_seq_concat(a.drop_first(), b);
        assert((a + b)[0] == a[0]);
        assert(esc_seq(a + b) =~= esc_seq(a) + esc_seq(b));
    }
}

pub proof fn lemma_esc_seq_push(a: Seq<char>, c: char)
    ensures
        esc_seq(a.push(c)) == esc_seq(a) + esc_char(c),
{
    assert(a.push(c) =~= a + seq![c]);
    lemma_esc_seq_concat(a, seq![c]);
    assert(seq![c].drop_first() =~= Seq::<char>::empty());
    assert(esc_seq(seq![c].drop_first()) =~= Seq::<char>::empty());
    assert(esc_seq(seq![c]) == esc_char(c) + esc_seq(seq![c].drop_first()));
    assert(esc_seq(seq![c]) =~= esc_char(c));
}


/// The code of an ASCII control character, obtained by cases so that the
/// value is known exactly.
fn ctl_code(c: char) -> (r: u8)
    requires
        (c as int) < 32,
    ensures
        r as int == c as int,
{
    if c == '\u{0}' {
        0
    } else if c == '\u{1}' {
        1
    } else if c == '\u{2}' {
        2
    } else if c == '\u{3}' {
        3
    } else if c == '\u{4}' {
        4
    } else if c == '\u{5}' {
        5
    } else if c == '\u{6}' {
        6
    } else if c == '\u{7}' {
        7
    } else if c == '\u{8}' {
        8
    } else if c == '\u{9}' {
        9
    } else if c == '\u{a}' {
        10
    } else if c == '\u{b}' {
        11
    } else if c == '\u{c}' {
        12
    } else if c == '\u{d}' {
        13
    } else if c == '\u{e}' {
        14
    } else if c == '\u{f}' {
        15
    } else if c == '\u{10}' {
        16
    } else if c == '\u{11}' {
        17
    } else if c == '\u{12}' {
        18
    } else if c == '\u{13}' {
        19
    } else if c == '\u{14}' {
        20
    } else if c == '\u{15}' {
        21
    } else if c == '\u{16}' {
        22
    } else if c == '\u{17}' {
        23
    } else if c == '\u{18}' {
        24
    } else if c == '\u{19}' {
        25
    } else if c == '\u{1a}' {
        26
    } else if c == '\u{1b}' {
        27
    } else if c == '\u{1c}' {
        28
    } else if c == '\u{1d}' {
        29
    } else if c == '\u{1e}' {
        30
    } else if c == '\u{1f}' {
        31
    } else {
        assert(false);
        0
    }
}

/// Whether `c` is an ASCII control character.
fn is_ctl(c: char) -> (r: bool)
    ensures
        r == ((c as int) < 32),
{
    let sp: char = ' ';
    proof {
        assert(sp as int == 32);
    }
    c < sp
}

fn hex_digit_exec(d: u8) -> (r: char)
    requires
        d < 16,
    ensures
        r == hex_digit(d as int),
{
    if d < 10 {
        (48 + d) as char
    } else {
        (87 + d) as char
    }
}

/// Appends the escaped form of `v` to `out`.
pub fn push_escaped(out: &mut Vec<char>, v: &Vec<char>)
    ensures
        final(out)@ == old(out)@ + esc_seq(v@),
{
    let mut k: usize = 0;
    assert(out@ =~= old(out)@ + esc_seq(v@.subrange(0, 0)));
    while k < v.len()
        invariant
            k <= v@.len(),
            out@ == old(out)@ + esc_seq(v@.subrange(0, k as int)),
        decreases v@.len() - k,
    {
        let c = v[k];
        proof {
            lemma_esc_seq_push(v@.subrange(0, k as int), c);
            assert(v@.subrange(0, k as int).push(c) =~= v@.subrange(0, k + 1));
        }
        if c == '"' {
            out.push('\\');
            out.push('"');
        } else if c == '\\' {
            out.push('\\');
            out.push('\\');
        } else if is_ctl(c) {
            proof {
                assert((c as int) < 32);
            }
            let code: u8 = ctl_code(c);
            out.push('\\');
            out.push('u');
            out.push('0');
            out.push('0');
            out.push(hex_digit_exec(code / 16));
            out.push(hex_digit_exec(code % 16));
        } else {
            out.push(c);
        }
        k += 1;
        assert(out@ =~= old(out)@ + esc_seq(v@.subrange(0, k as int)));
    }
    assert(v@.subrange(0, v@.len() as int) =~= v@);
}

/// Appends a complete JSON string token for `v` to `out`.
pub fn push_json_string(out: &mut Vec<char>, v: &Vec<char>)
    ensures
        final(out)@ == old(out)@ + render_str(v@),
{
    out.push('"');
    push_escaped(out, v);
    out.push('"');
    assert(out@ =~= old(out)@ + render_str(v@));
}


// ------------------------------------------------------------------
// parsing: specification
// ------------------------------------------------------------------
pub open spec fn is_hex(c: char) -> bool {
    is_digit(c) || (97 <= (c as int) <= 102) || (65 <= (c as int) <= 70)
}

pub open spec fn hex_val(c: char) -> int {
    if is_digit(c) {
        (c as int) - 48
    } else if 97 <= (c as int) {
        (c as int) - 87
    } else {
        (c as int) - 55
    }
}

/// The character stood for by a single-character escape, if any.
pub open spec fn unesc(c: char) -> Option<char> {
    if c == '"' {
        Some('"')
    } else if c == '\\' {
        Some('\\')
    } else if c == '/' {
        Some('/')
    } else if c == 'b' {
        Some('\u{8}')
    } else if c == 'f' {
        Some('\u{c}')
    } else if c == 'n' {
        Some('\n')
    } else if c == 'r' {
        Some('\r')
    } else if c == 't' {
        Some('\t')
    } else {
        None
    }
}

/// Whether a `\uXXXX` code is accepted: anything outside the surrogate
/// range.  Surrogate pairs are not reassembled; a line using them fails
/// to parse and is skipped by the tolerant reader.
pub open spec fn ok_ucode(code: int) -> bool {
    !(0xD800 <= code <= 0xDFFF)
}

/// Parses the body of a JSON string starting just after the opening
/// quote; yields the decoded characters and the index after the closing
/// quote.
pub open spec fn sp_string(s: Seq<char>, i: int) -> Option<(Seq<char>, int)>
    decreases s.len() - i,
{
    if !(0 <= i < s.len()) {
        None
    } else if s[i] == '"' {
        Some((Seq::empty(), i + 1))
    } else if s[i] == '\\' {
        if i + 2 <= s.len() && s[i + 1] == 'u' {
            if i + 6 <= s.len() && is_hex(s[i + 2]) && is_hex(s[i + 3]) && is_hex(s[i + 4])
                && is_hex(s[i + 5]) {
                let code = hex_val(s[i + 2]) * 4096 + hex_val(s[i + 3]) * 256 + hex_val(s[i + 4])
                    * 16 + hex_val(s[i + 5]);
                if ok_ucode(code) {
                    match sp_string(s, i + 6) {
                        Some((t, j)) => Some((seq![code as char] + t, j)),
                        None => None,
                    }
                } else {
                    None
                }
            } else {
                None
            }
        } else if i + 2 <= s.len() {
            match unesc(s[i + 1]) {
                Some(c) => match sp_string(s, i + 2) {
                    Some((t, j)) => Some((seq![c] + t, j)),
                    None => None,
                },
                None => None,
            }
        } else {
            None
        }
    } else if (s[i] as int) < 32 {
        None
    } else {
        match sp_string(s, i + 1) {
            Some((t, j)) => Some((seq![s[i]] + t, j)),
            None => None,
        }
    }
}

/// End of the run of decimal digits starting at `i`.
pub open spec fn sp_digits_end(s: Seq<char>, i: int) -> int
    decreases s.len() - i,
{
    if 0 <= i < s.len() && is_digit(s[i]) {
        sp_digits_end(s, i + 1)
    } else {
        i
    }
}

pub proof fn lemma_sp_digits_end(s: Seq<char>, i: int)
    requires
        0 <= i <= s.len(),
    ensures
        i <= sp_digits_end(s, i) <= s.len(),
        forall|k: int| i <= k < sp_digits_end(s, i) ==> is_digit(s[k]),
        sp_digits_end(s, i) < s.len() ==> !is_digit(s[sp_digits_end(s, i)]),
    decreases s.len() - i,
{
    if i < s.len() && is_digit(s[i]) {
        lemma_sp_digits_end(s, i + 1);
    }
}

/// End of an exponent part at `j`, if well formed; `j` itself if absent.
pub open spec fn sp_exp_end(s: Seq<char>, j: int) -> Option<int> {
    if 0 <= j < s.len() && (s[j] == 'e' || s[j] == 'E') {
        let m = if j + 1 < s.len() && (s[j + 1] == '+' || s[j + 1] == '-') {
            j + 2
        } else {
            j + 1
        };
        let e = sp_digits_end(s, m);
        if e == m {
            None
        } else {
            Some(e)
        }
    } else {
        Some(j)
    }
}

/// End of the fraction/exponent tail of a number whose integer digits end
/// at `j`; the flag is true when the number is a plain integer.
pub open spec fn sp_num_end(s: Seq<char>, j: int) -> Option<(bool, int)> {
    if 0 <= j < s.len() && s[j] == '.' {
        let k = sp_digits_end(s, j + 1);
        if k == j + 1 {
            None
        } else {
            match sp_exp_end(s, k) {
                Some(e) => Some((false, e)),
                None => None,
            }
        }
    } else {
        match sp_exp_end(s, j) {
            Some(e) => Some((e == j, e)),
            None => None,
        }
    }
}

/// Parses a number token at `i`.  A plain integer representable as `i64`
/// becomes `Int`; any other number becomes `Other`.
pub open spec fn sp_number(s: Seq<char>, i: int) -> Option<(JsonV, int)> {
    let neg = 0 <= i < s.len() && s[i] == '-';
    let di = if neg {
        i + 1
    } else {
        i
    };
    let j = sp_digits_end(s, di);
    if j == di {
        None
    } else {
        match sp_num_end(s, j) {
            None => None,
            Some((isint, end)) => if !isint {
                Some((JsonV::Other, end))
            } else {
                let v = digits_val(s.subrange(di, j));
                if neg {
                    if v <= 0x8000000000000000 {
                        Some((JsonV::Int((-v) as i64), j))
                    } else {
                        Some((JsonV::Other, j))
                    }
                } else {
                    if v < 0x8000000000000000 {
                        Some((JsonV::Int(v as i64), j))
                    } else {
                        Some((JsonV::Other, j))
                    }
                }
            },
        }
    }
}

/// Parses one JSON value starting at `i`, whitespace allowed first.
/// `fuel` bounds recursion; the top-level entry supplies enough for any
/// document of the given length.
pub open spec fn sp_value(s: Seq<char>, i: int, fuel: nat) -> Option<(JsonV, int)>
    decreases fuel,
{
    if fuel == 0 {
        None
    } else {
        let a = skip_ws(s, i);
        if !(0 <= a < s.len()) {
            None
        } else if s[a] == 'n' {
            if a + 4 <= s.len() && s[a + 1] == 'u' && s[a + 2] == 'l' && s[a + 3] == 'l' {
                Some((JsonV::Null, a + 4))
            } else {
                None
            }
        } else if s[a] == 't' {
            if a + 4 <= s.len() && s[a + 1] == 'r' && s[a + 2] == 'u' && s[a + 3] == 'e' {
                Some((JsonV::Bool(true), a + 4))
            } else {
                None
            }
        } else if s[a] == 'f' {
            if a + 5 <= s.len() && s[a + 1] == 'a' && s[a + 2] == 'l' && s[a + 3] == 's' && s[a + 4]
                == 'e' {
                Some((JsonV::Bool(false), a + 5))
            } else {
                None
            }
        } else if s[a] == '"' {
            match sp_string(s, a + 1) {
                Some((t, j)) => Some((JsonV::Str(t), j)),
                None => None,
            }
        } else if s[a] == '[' {
            let b = skip_ws(s, a + 1);
            if 0 <= b < s.len() && s[b] == ']' {
                Some((JsonV::Arr(Seq::empty()), b + 1))
            } else {
                match sp_elems(s, a + 1, (fuel - 1) as nat) {
                    Some((vs, j)) => Some((JsonV::Arr(vs), j)),
                    None => None,
                }
            }
        } else if s[a] == '{' {
            let b = skip_ws(s, a + 1);
            if 0 <= b < s.len() && s[b] == '}' {
                Some((JsonV::Obj(Seq::empty()), b + 1))
            } else {
                match sp_members(s, a + 1, (fuel - 1) as nat) {
                    Some((fs, j)) => Some((JsonV::Obj(fs), j)),
                    None => None,
                }
            }
        } else if s[a] == '-' || is_digit(s[a]) {
            sp_number(s, a)
        } else {
            None
        }
    }
}

/// Parses the comma-separated elements of a non-empty array, up to and
/// including the closing bracket.
pub open spec fn sp_elems(s: Seq<char>, i: int, fuel: nat) -> Option<(Seq<JsonV>, int)>
    decreases fuel,
{
    if fuel == 0 {
        None
    } else {
        match sp_value(s, i, (fuel - 1) as nat) {
            None => None,
            Some((v, j)) => {
                let k = skip_ws(s, j);
                if 0 <= k < s.len() && s[k] == ',' {
                    match sp_elems(s, k + 1, (fuel - 1) as nat) {
                        Some((rest, m)) => Some((seq![v] + rest, m)),
                        None => None,
                    }
                } else if 0 <= k < s.len() && s[k] == ']' {
                    Some((seq![v], k + 1))
                } else {
                    None
                }
            },
        }
    }
}

/// Parses the members of a non-empty object, up to and including the
/// closing brace.
pub open spec fn sp_members(s: Seq<char>, i: int, fuel: nat) -> Option<
    (Seq<(Seq<char>, JsonV)>, int),
>
    decreases fuel,
{
    if fuel == 0 {
        None
    } else {
        let a = skip_ws(s, i);
        if 0 <= a < s.len() && s[a] == '"' {
            match sp_string(s, a + 1) {
                None => None,
                Some((key, j)) => {
                    let b = skip_ws(s, j);
                    if 0 <= b < s.len() && s[b] == ':' {
                        match sp_value(s, b + 1, (fuel - 1) as nat) {
                            None => None,
                            Some((v, j2)) => {
                                let k = skip_ws(s, j2);
                                if 0 <= k < s.len() && s[k] == ',' {
                                    match sp_members(s, k + 1, (fuel - 1) as nat) {
                                        Some((rest, m)) => Some((seq![(key, v)] + rest, m)),
                                        None => None,
                                    }
                                } else if 0 <= k < s.len() && s[k] == '}' {
                                    Some((seq![(key, v)], k + 1))
                                } else {
                                    None
                                }
                            },
                        }
                    } else {
                        None
                    }
                },
            }
        } else {
            None
        }
    }
}

/// Fuel that suffices for any document of length `n`.
pub open spec fn parse_fuel(n: int) -> nat {
    (2 * n + 4) as nat
}

/// A whole document: one value with nothing but whitespace after it.
pub open spec fn sp_json(s: Seq<char>) -> Option<JsonV> {
    match sp_value(s, 0, parse_fuel(s.len() as int)) {
        Some((v, j)) => if 0 <= j <= s.len() && skip_ws(s, j) == s.len() {
            Some(v)
        } else {
            None
        },
        None => None,
    }
}


// ------------------------------------------------------------------
// parsing: executable mirror
// ------------------------------------------------------------------
/// Length bound under which parsing fuel arithmetic cannot overflow.
pub open spec fn parse_len_ok(n: int) -> bool {
    n <= 0x10000000
}

fn is_digit_exec(c: char) -> (r: bool)
    ensures
        r == is_digit(c),
{
    proof {
        assert('0' as int == 48 && '9' as int == 57);
    }
    '0' <= c && c <= '9'
}

fn is_hex_exec(c: char) -> (r: bool)
    ensures
        r == is_hex(c),
{
    proof {
        assert('a' as int == 97 && 'f' as int == 102 && 'A' as int == 65 && 'F' as int == 70);
    }
    is_digit_exec(c) || ('a' <= c && c <= 'f') || ('A' <= c && c <= 'F')
}

/// The numeric value of a decimal digit character, by cases.
fn digit_val_exec(c: char) -> (r: u8)
    requires
        is_digit(c),
    ensures
        r as int == (c as int) - 48,
{
    if c == '0' {
        0
    } else if c == '1' {
        1
    } else if c == '2' {
        2
    } else if c == '3' {
        3
    } else if c == '4' {
        4
    } else if c == '5' {
        5
    } else if c == '6' {
        6
    } else if c == '7' {
        7
    } else if c == '8' {
        8
    } else if c == '9' {
        9
    } else {
        assert(false);
        0
    }
}

/// The numeric value of a hexadecimal digit character, by cases.
fn hex_val_exec(c: char) -> (r: u8)
    requires
        is_hex(c),
    ensures
        r as int == hex_val(c),
        r < 16,
{
    if c == '0' {
        0
    } else if c == '1' {
        1
    } else if c == '2' {
        2
    } else if c == '3' {
        3
    } else if c == '4' {
        4
    } else if c == '5' {
        5
    } else if c == '6' {
        6
    } else if c == '7' {
        7
    } else if c == '8' {
        8
    } else if c == '9' {
        9
    } else if c == 'a' {
        10
    } else if c == 'b' {
        11
    } else if c == 'c' {
        12
    } else if c == 'd' {
        13
    } else if c == 'e' {
        14
    } else if c == 'f' {
        15
    } else if c == 'A' {
        10
    } else if c == 'B' {
        11
    } else if c == 'C' {
        12
    } else if c == 'D' {
        13
    } else if c == 'E' {
        14
    } else if c == 'F' {
        15
    } else {
        assert(false);
        0
    }
}

fn digits_end_exec(s: &Vec<char>, i: usize) -> (r: usize)
    requires
        i <= s@.len(),
    ensures
        r == sp_digits_end(s@, i as int),
        i <= r <= s@.len(),
    decreases s@.len() - i,
{
    if i < s.len() && is_digit_exec(s[i]) {
        digits_end_exec(s, i + 1)
    } else {
        i
    }
}

/// Executable mirror of [`sp_string`].
fn p_string(s: &Vec<char>, i: usize) -> (r: Option<(Vec<char>, usize)>)
    requires
        i <= s@.len(),
        parse_len_ok(s@.len() as int),
    ensures
        match r {
            Some(p) => sp_string(s@, i as int) == Some((p.0@, p.1 as int)) && p.1 <= s@.len(),
            None => sp_string(s@, i as int) is None,
        },
    decreases s@.len() - i,
{
    if i >= s.len() {
        return None;
    }
    let c = s[i];
    if c == '"' {
        let t: Vec<char> = Vec::new();
        assert(t@ =~= Seq::<char>::empty());
        Some((t, i + 1))
    } else if c == '\\' {
        if i + 2 <= s.len() && s[i + 1] == 'u' {
            if i + 6 <= s.len() && is_hex_exec(s[i + 2]) && is_hex_exec(s[i + 3]) && is_hex_exec(
                s[i + 4],
            ) && is_hex_exec(s[i + 5]) {
                let h1 = hex_val_exec(s[i + 2]);
                let h2 = hex_val_exec(s[i + 3]);
                let h3 = hex_val_exec(s[i + 4]);
                let h4 = hex_val_exec(s[i + 5]);
                let code: u32 = (h1 as u32) * 4096 + (h2 as u32) * 256 + (h3 as u32) * 16 + (
                h4 as u32);
                if 0xD800 <= code && code <= 0xDFFF {
                    return None;
                }
                let ch = crate::text::char_from_code(code);
                proof {
                    assert(code as int == hex_val(s@[i + 2]) * 4096 + hex_val(s@[i + 3]) * 256
                        + hex_val(s@[i + 4]) * 16 + hex_val(s@[i + 5]));
                    assert(ok_ucode(code as int));
                }
                match p_string(s, i + 6) {
                    Some((mut t, j)) => {
                        t.insert(0, ch);
                        assert(ch == (code as int) as char);
                        assert(t@ =~= seq![(code as int) as char] + (sp_string(s@, i + 6)->0).0);
                        Some((t, j))
                    },
                    None => None,
                }
            } else {
                None
            }
        } else if i + 2 <= s.len() {
            let e = s[i + 1];
            let dec: Option<char> = if e == '"' {
                Some('"')
            } else if e == '\\' {
                Some('\\')
            } else if e == '/' {
                Some('/')
            } else if e == 'b' {
                Some('\u{8}')
            } else if e == 'f' {
                Some('\u{c}')
            } else if e == 'n' {
                Some('\n')
            } else if e == 'r' {
                Some('\r')
            } else if e == 't' {
                Some('\t')
            } else {
                None
            };
            assert(dec == unesc(s@[i + 1]));
            match dec {
                Some(dc) => match p_string(s, i + 2) {
                    Some((mut t, j)) => {
                        t.insert(0, dc);
                        assert(t@ =~= seq![dc] + (sp_string(s@, i + 2)->0).0);
                        Some((t, j))
                    },
                    None => None,
                },
                None => None,
            }
        } else {
            None
        }
    } else if is_ctl(c) {
        None
    } else {
        match p_string(s, i + 1) {
            Some((mut t, j)) => {
                t.insert(0, c);
                assert(t@ =~= seq![c] + (sp_string(s@, i + 1)->0).0);
                Some((t, j))
            },
            None => None,
        }
    }
}

fn p_exp_end(s: &Vec<char>, j: usize) -> (r: Option<usize>)
    requires
        j <= s@.len(),
    ensures
        match r {
            Some(e) => sp_exp_end(s@, j as int) == Some(e as int) && j <= e <= s@.len(),
            None => sp_exp_end(s@, j as int) is None,
        },
{
    if j < s.len() && (s[j] == 'e' || s[j] == 'E') {
        let m: usize = if j + 1 < s.len() && (s[j + 1] == '+' || s[j + 1] == '-') {
            j + 2
        } else {
            j + 1
        };
        if m > s.len() {
            proof {
                assert(sp_digits_end(s@, m as int) == m as int);
            }
            return None;
        }
        let e = digits_end_exec(s, m);
        if e == m {
            None
        } else {
            Some(e)
        }
    } else {
        Some(j)
    }
}

fn p_num_end(s: &Vec<char>, j: usize) -> (r: Option<(bool, usize)>)
    requires
        j <= s@.len(),
    ensures
        match r {
            Some(p) => sp_num_end(s@, j as int) == Some((p.0, p.1 as int)) && p.1 <= s@.len(),
            None => sp_num_end(s@, j as int) is None,
        },
{
    if j < s.len() && s[j] == '.' {
        let k = digits_end_exec(s, j + 1);
        if k == j + 1 {
            None
        } else {
            match p_exp_end(s, k) {
                Some(e) => Some((false, e)),
                None => None,
            }
        }
    } else {
        match p_exp_end(s, j) {
            Some(e) => Some((e == j, e)),
            None => None,
        }
    }
}

/// Executable mirror of [`sp_number`].
fn p_number(s: &Vec<char>, i: usize) -> (r: Option<(Json, usize)>)
    requires
        i <= s@.len(),
    ensures
        match r {
            Some(p) => sp_number(s@, i as int) == Some((jv(p.0), p.1 as int)) && p.1 <= s@.len(),
            None => sp_number(s@, i as int) is None,
        },
{
    let neg = i < s.len() && s[i] == '-';
    let di: usize = if neg {
        i + 1
    } else {
        i
    };
    let j = digits_end_exec(s, di);
    if j == di {
        return None;
    }
    proof {
        lemma_sp_digits_end(s@, di as int);
    }
    let mut acc: u64 = 0;
    let mut over: bool = false;
    let mut k: usize = di;
    proof {
        assert(s@.subrange(di as int, di as int) =~= Seq::<char>::empty());
    }
    while k < j
        invariant
            di <= k <= j <= s@.len(),
            forall|t: int| di <= t < j ==> is_digit(s@[t]),
            !over ==> acc as int == digits_val(s@.subrange(di as int, k as int)) && acc
                <= 0x8000000000000000,
            over ==> digits_val(s@.subrange(di as int, k as int)) > 0x8000000000000000,
        decreases j - k,
    {
        let ghost pre = s@.subrange(di as int, k as int);
        let ghost post = s@.subrange(di as int, k + 1);
        proof {
            assert(post.drop_last() =~= pre);
            assert(post.last() == s@[k as int]);
            assert(digits_val(post) == digits_val(pre) * 10 + ((s@[k as int] as int) - 48));
        }
        let d = digit_val_exec(s[k]);
        if over {
            proof {
                assert(digits_val(pre) * 10 >= digits_val(pre)) by (nonlinear_arith)
                    requires
                        digits_val(pre) > 0,
                ;
            }
        } else {
            let w: u128 = (acc as u128) * 10 + (d as u128);
            proof {
                assert(w as int == digits_val(post));
            }
            if w > 0x8000000000000000u128 {
                over = true;
            } else {
                acc = w as u64;
            }
        }
        k += 1;
    }
    let ghost digs = s@.subrange(di as int, j as int);
    match p_num_end(s, j) {
        None => None,
        Some((isint, end)) => {
            if !isint {
                Some((Json::Other, end))
            } else {
                if neg {
                    if !over {
                        let n: i64 = if acc == 0x8000000000000000u64 {
                            i64::MIN
                        } else {
                            -(acc as i64)
                        };
                        assert(n as int == -digits_val(digs));
                        Some((Json::Int(n), j))
                    } else {
                        Some((Json::Other, j))
                    }
                } else {
                    if !over && acc < 0x8000000000000000u64 {
                        let n: i64 = acc as i64;
                        Some((Json::Int(n), j))
                    } else {
                        Some((Json::Other, j))
                    }
                }
            }
        },
    }
}


/// Executable mirror of [`sp_value`].
fn p_value(s: &Vec<char>, i: usize, fuel: u64) -> (r: Option<(Json, usize)>)
    requires
        i <= s@.len(),
        parse_len_ok(s@.len() as int),
    ensures
        match r {
            Some(p) => sp_value(s@, i as int, fuel as nat) == Some((jv(p.0), p.1 as int)) && p.1
                <= s@.len(),
            None => sp_value(s@, i as int, fuel as nat) is None,
        },
    decreases fuel,
{
    if fuel == 0 {
        return None;
    }
    let a = crate::text::skip_ws_exec(s, i);
    if a >= s.len() {
        return None;
    }
    let c = s[a];
    if c == 'n' {
        if a + 4 <= s.len() && s[a + 1] == 'u' && s[a + 2] == 'l' && s[a + 3] == 'l' {
            Some((Json::Null, a + 4))
        } else {
            None
        }
    } else if c == 't' {
        if a + 4 <= s.len() && s[a + 1] == 'r' && s[a + 2] == 'u' && s[a + 3] == 'e' {
            Some((Json::Bool(true), a + 4))
        } else {
            None
        }
    } else if c == 'f' {
        if a + 5 <= s.len() && s[a + 1] == 'a' && s[a + 2] == 'l' && s[a + 3] == 's' && s[a + 4]
            == 'e' {
            Some((Json::Bool(false), a + 5))
        } else {
            None
        }
    } else if c == '"' {
        match p_string(s, a + 1) {
            Some((t, j)) => {
                let st = crate::text::string_from_chars(&t);
                assert(jv(Json::Str(st)) == JsonV::Str(t@));
                Some((Json::Str(st), j))
            },
            None => None,
        }
    } else if c == '[' {
        let b = crate::text::skip_ws_exec(s, a + 1);
        if b < s.len() && s[b] == ']' {
            let v: Vec<Json> = Vec::new();
            proof {
                assert(jv_seq(v@) =~= Seq::<JsonV>::empty());
            }
            Some((Json::Arr(v), b + 1))
        } else {
            match p_elems(s, a + 1, fuel - 1) {
                Some((vs, j)) => Some((Json::Arr(vs), j)),
                None => None,
            }
        }
    } else if c == '{' {
        let b = crate::text::skip_ws_exec(s, a + 1);
        if b < s.len() && s[b] == '}' {
            let v: Vec<(String, Json)> = Vec::new();
            proof {
                assert(jv_fields(v@) =~= Seq::<(Seq<char>, JsonV)>::empty());
            }
            Some((Json::Obj(v), b + 1))
        } else {
            match p_members(s, a + 1, fuel - 1) {
                Some((fs, j)) => Some((Json::Obj(fs), j)),
                None => None,
            }
        }
    } else if c == '-' || is_digit_exec(c) {
        p_number(s, a)
    } else {
        None
    }
}

/// Executable mirror of [`sp_elems`].
fn p_elems(s: &Vec<char>, i: usize, fuel: u64) -> (r: Option<(Vec<Json>, usize)>)
    requires
        i <= s@.len(),
        parse_len_ok(s@.len() as int),
    ensures
        match r {
            Some(p) => sp_elems(s@, i as int, fuel as nat) == Some((jv_seq(p.0@), p.1 as int))
                && p.1 <= s@.len(),
            None => sp_elems(s@, i as int, fuel as nat) is None,
        },
    decreases fuel,
{
    if fuel == 0 {
        return None;
    }
    match p_value(s, i, fuel - 1) {
        None => None,
        Some((v, j)) => {
            let k = crate::text::skip_ws_exec(s, j);
            if k < s.len() && s[k] == ',' {
                match p_elems(s, k + 1, fuel - 1) {
                    Some((mut rest, m)) => {
                        let ghost oldr = rest@;
                        rest.insert(0, v);
                        proof {
                            assert(rest@.drop_first() =~= oldr);
                            assert(rest@[0] == v);
                            assert(jv_seq(rest@) =~= seq![jv(v)] + jv_seq(oldr));
                        }
                        Some((rest, m))
                    },
                    None => None,
                }
            } else if k < s.len() && s[k] == ']' {
                let mut out: Vec<Json> = Vec::new();
                out.push(v);
                proof {
                    assert(out@.drop_first() =~= Seq::<Json>::empty());
                    assert(jv_seq(out@.drop_first()) =~= Seq::<JsonV>::empty());
                    assert(out@[0] == v);
                    assert(jv_seq(out@) == seq![jv(v)] + jv_seq(out@.drop_first()));
                    assert(jv_seq(out@) =~= seq![jv(v)]);
                }
                Some((out, k + 1))
            } else {
                None
            }
        },
    }
}

/// Executable mirror of [`sp_members`].
fn p_members(s: &Vec<char>, i: usize, fuel: u64) -> (r: Option<(Vec<(String, Json)>, usize)>)
    requires
        i <= s@.len(),
        parse_len_ok(s@.len() as int),
    ensures
        match r {
            Some(p) => sp_members(s@, i as int, fuel as nat) == Some((jv_fields(p.0@), p.1 as int))
                && p.1 <= s@.len(),
            None => sp_members(s@, i as int, fuel as nat) is None,
        },
    decreases fuel,
{
    if fuel == 0 {
        return None;
    }
    let a = crate::text::skip_ws_exec(s, i);
    if a < s.len() && s[a] == '"' {
        match p_string(s, a + 1) {
            None => None,
            Some((kt, j)) => {
                let key = crate::text::string_from_chars(&kt);
                let b = crate::text::skip_ws_exec(s, j);
                if b < s.len() && s[b] == ':' {
                    match p_value(s, b + 1, fuel - 1) {
                        None => None,
                        Some((v, j2)) => {
                            let k = crate::text::skip_ws_exec(s, j2);
                            if k < s.len() && s[k] == ',' {
                                match p_members(s, k + 1, fuel - 1) {
                                    Some((mut rest, m)) => {
                                        let ghost oldr = rest@;
                                        rest.insert(0, (key, v));
                                        proof {
                                            assert(rest@.drop_first() =~= oldr);
                                            assert(rest@[0].0@ == kt@);
                                            assert(jv_fields(rest@) =~= seq![(kt@, jv(v))]
                                                + jv_fields(oldr));
                                        }
                                        Some((rest, m))
                                    },
                                    None => None,
                                }
                            } else if k < s.len() && s[k] == '}' {
                                let mut out: Vec<(String, Json)> = Vec::new();
                                out.push((key, v));
                                proof {
                                    assert(out@.drop_first() =~= Seq::<(String, Json)>::empty());
                                    assert(jv_fields(out@.drop_first()) =~= Seq::<(Seq<char>, JsonV)>::empty());
                                    assert(out@[0] == (key, v));
                                    assert(jv_fields(out@) == seq![(out@[0].0@, jv(out@[0].1))] + jv_fields(out@.drop_first()));
                                    assert(jv_fields(out@) =~= seq![(kt@, jv(v))]);
                                }
                                Some((out, k + 1))
                            } else {
                                None
                            }
                        },
                    }
                } else {
                    None
                }
            },
        }
    } else {
        None
    }
}

/// Parses a whole JSON document held as characters.
pub fn parse_json_chars(s: &Vec<char>) -> (r: Option<Json>)
    requires
        parse_len_ok(s@.len() as int),
    ensures
        match r {
            Some(j) => sp_json(s@) == Some(jv(j)),
            None => sp_json(s@) is None,
        },
{
    let fuel: u64 = 2 * (s.len() as u64) + 4;
    proof {
        assert(fuel as nat == parse_fuel(s@.len() as int));
    }
    match p_value(s, 0, fuel) {
        Some((j, n)) => {
            let e = crate::text::skip_ws_exec(s, n);
            if e == s.len() {
                Some(j)
            } else {
                None
            }
        },
        None => None,
    }
}


// ------------------------------------------------------------------
// parsing inverts rendering
// ------------------------------------------------------------------
/// Text whose characters all carry the non-negative code every real
/// `char` has.  Views of actual strings satisfy this; the hypothesis is
/// needed because a mathematical `Seq<char>` does not carry it by
/// itself.
pub open spec fn wf_text(s: Seq<char>) -> bool {
    forall|i: int| 0 <= i < s.len() ==> (#[trigger] s[i]) as int >= 0
}

/// A character that stands for itself in a JSON string.
pub open spec fn ordinary(c: char) -> bool {
    c != '"' && c != '\\' && (c as int) >= 32
}

/// Escaping changes nothing in text made of ordinary characters.
pub proof fn lemma_esc_seq_ordinary(x: Seq<char>)
    requires
        forall|i: int| 0 <= i < x.len() ==> ordinary(x[i]),
    ensures
        esc_seq(x) == x,
    decreases x.len(),
{
    if x.len() == 0 {
        assert(esc_seq(x) =~= x);
    } else {
        lemma_esc_seq_ordinary(x.drop_first());
        assert(ordinary(x[0]));
        assert(esc_char(x[0]) == seq![x[0]]);
        assert(esc_seq(x) =~= x);
    }
}

pub proof fn lemma_hex_val_hex_digit(d: int)
    requires
        0 <= d < 16,
    ensures
        is_hex(hex_digit(d)),
        hex_val(hex_digit(d)) == d,
{
    if d < 10 {
        assert(hex_digit(d) as int == 48 + d);
    } else {
        assert(hex_digit(d) as int == 87 + d);
    }
}

/// A control character equals its own code cast back to `char`.
proof fn lemma_ctl_cast(c: char)
    requires
        (c as int) < 32,
    ensures
        ((c as int) as char) == c,
{
    assert(c == '\u{0}' || c == '\u{1}' || c == '\u{2}' || c == '\u{3}' || c == '\u{4}' || c
        == '\u{5}' || c == '\u{6}' || c == '\u{7}' || c == '\u{8}' || c == '\u{9}' || c
        == '\u{a}' || c == '\u{b}' || c == '\u{c}' || c == '\u{d}' || c == '\u{e}' || c
        == '\u{f}' || c == '\u{10}' || c == '\u{11}' || c == '\u{12}' || c == '\u{13}' || c
        == '\u{14}' || c == '\u{15}' || c == '\u{16}' || c == '\u{17}' || c == '\u{18}' || c
        == '\u{19}' || c == '\u{1a}' || c == '\u{1b}' || c == '\u{1c}' || c == '\u{1d}' || c
        == '\u{1e}' || c == '\u{1f}');
}

/// Parsing a string token that was produced by escaping yields the
/// original characters and stops right after the closing quote.
#[verifier::rlimit(100)]
#[verifier::spinoff_prover]
pub proof fn lemma_sp_string_render(x: Seq<char>, s: Seq<char>, i: int)
    requires
        wf_text(x),
        0 <= i,
        i + esc_seq(x).len() + 1 <= s.len(),
        s.subrange(i, i + esc_seq(x).len() + 1) == esc_seq(x) + seq!['"'],
    ensures
        sp_string(s, i) == Some((x, i + esc_seq(x).len() + 1)),
    decreases x.len(),
{
    let w = s.subrange(i, i + esc_seq(x).len() + 1);
    if x.len() == 0 {
        assert(esc_seq(x) == Seq::<char>::empty());
        assert(w[0] == '"');
        assert(s[i] == '"');
        assert(x =~= Seq::<char>::empty());
    } else {
        let c = x[0];
        let x2 = x.drop_first();
        assert(wf_text(x2)) by {
            assert(forall|t: int| 0 <= t < x2.len() ==> (#[trigger] x2[t]) == x[t + 1]);
        }
        assert((c as int) >= 0);
        assert(esc_seq(x) == esc_char(c) + esc_seq(x2));
        let e = esc_char(c);
        let i2 = i + e.len();
        assert(forall|u: int|
            i <= u < i + (esc_seq(x).len() + 1) ==> #[trigger] s[u] == w[u - i]);
        assert(forall|t: int| 0 <= t < e.len() ==> e[t] == w[t]);
        assert(s.subrange(i2, i2 + esc_seq(x2).len() + 1) =~= esc_seq(x2) + seq!['"']);
        lemma_sp_string_render(x2, s, i2);
        if c == '"' {
            assert(e == seq!['\\', '"']);
            assert(s[i] == '\\' && s[i + 1] == '"');
            assert(unesc(s[i + 1]) == Some('"'));
            assert(sp_string(s, i) == Some((seq![c] + x2, i2 + esc_seq(x2).len() + 1)));
            assert(seq![c] + x2 =~= x);
        } else if c == '\\' {
            assert(e == seq!['\\', '\\']);
            assert(s[i] == '\\' && s[i + 1] == '\\');
            assert(s[i + 1] != 'u');
            assert(unesc(s[i + 1]) == Some('\\'));
            assert(seq![c] + x2 =~= x);
        } else if (c as int) < 32 {
            let cv = c as int;
            assert(e == seq!['\\', 'u', '0', '0', hex_digit(cv / 16), hex_digit(cv % 16)]);
            assert(s[i] == '\\' && s[i + 1] == 'u');
            assert(s[i + 2] == '0' && s[i + 3] == '0');
            assert(s[i + 4] == hex_digit(cv / 16) && s[i + 5] == hex_digit(cv % 16));
            assert(0 <= cv < 32);
            assert(0 <= cv / 16 < 2 && 0 <= cv % 16 < 16) by (nonlinear_arith)
                requires
                    0 <= cv < 32,
            ;
            lemma_hex_val_hex_digit(cv / 16);
            lemma_hex_val_hex_digit(cv % 16);
            assert(is_hex('0') && hex_val('0') == 0);
            let code = hex_val(s[i + 2]) * 4096 + hex_val(s[i + 3]) * 256 + hex_val(s[i + 4]) * 16
                + hex_val(s[i + 5]);
            assert(code == (cv / 16) * 16 + cv % 16);
            assert((cv / 16) * 16 + cv % 16 == cv) by (nonlinear_arith);
            assert(ok_ucode(code));
            lemma_ctl_cast(c);
            assert((code as char) == c);
            assert(seq![code as char] + x2 =~= x);
        } else {
            assert(ordinary(c));
            assert(e == seq![c]);
            assert(s[i] == c);
            assert(seq![c] + x2 =~= x);
        }
    }
}

/// The digit run of a rendering ends exactly where the rendering says.
pub proof fn lemma_digits_end_of_run(s: Seq<char>, i: int, j: int)
    requires
        0 <= i <= j <= s.len(),
        forall|t: int| i <= t < j ==> is_digit(s[t]),
        j < s.len() ==> !is_digit(s[j]),
    ensures
        sp_digits_end(s, i) == j,
    decreases j - i,
{
    if i < j {
        lemma_digits_end_of_run(s, i + 1, j);
    }
}

/// Parsing a rendered integer followed by a comma yields that integer.
pub proof fn lemma_sp_number_render(n: i64, s: Seq<char>, i: int)
    requires
        0 <= i,
        i + render_i64(n as int).len() < s.len(),
        s.subrange(i, i + render_i64(n as int).len()) == render_i64(n as int),
        s[i + render_i64(n as int).len()] == ',',
    ensures
        sp_number(s, i) == Some((JsonV::Int(n), i + render_i64(n as int).len())),
{
    let w = render_i64(n as int);
    let j = i + w.len();
    assert(forall|u: int| i <= u < j ==> #[trigger] s[u] == s.subrange(i, j)[u - i]);
    assert(forall|u: int| i <= u < j ==> #[trigger] s[u] == w[u - i]);
    assert(!is_digit(',')  && ',' != '.' && ',' != 'e' && ',' != 'E' && ',' != '-');
    if n >= 0 {
        lemma_dec_digits(n as int);
        assert(w == dec_digits(n as int));
        assert(s[i] == w[0] && is_digit(w[0]));
        assert(s[i] != '-');
        lemma_digits_end_of_run(s, i, j);
        assert(sp_digits_end(s, i) == j);
        assert(j != i);
        assert(sp_exp_end(s, j) == Some(j));
        assert(sp_num_end(s, j) == Some((true, j)));
        assert(s.subrange(i, j) =~= dec_digits(n as int));
        assert(digits_val(s.subrange(i, j)) == n as int);
        assert(n < 0x8000000000000000);
        assert(sp_number(s, i) == Some((JsonV::Int((n as int) as i64), j)));
        assert((n as int) as i64 == n);
    } else {
        let m = -(n as int);
        lemma_dec_digits(m);
        assert(w == seq!['-'] + dec_digits(m));
        assert(s[i] == '-');
        let di = i + 1;
        assert(s.subrange(di, j) =~= dec_digits(m));
        assert(forall|t: int| di <= t < j ==> is_digit(#[trigger] s[t]));
        lemma_digits_end_of_run(s, di, j);
        assert(sp_digits_end(s, di) == j);
        assert(j != di);
        assert(sp_exp_end(s, j) == Some(j));
        assert(sp_num_end(s, j) == Some((true, j)));
        assert(digits_val(s.subrange(di, j)) == m);
        assert(m <= 0x8000000000000000);
        assert(sp_number(s, i) == Some((JsonV::Int((-m) as i64), j)));
        assert((-m) as i64 == n);
    }
}




/// Parsing at a rendered `null` literal.
pub proof fn lemma_sp_value_null(s: Seq<char>, p: int, fuel: nat)
    requires
        fuel >= 1,
        0 <= p,
        p + 4 <= s.len(),
        s.subrange(p, p + 4) == seq!['n', 'u', 'l', 'l'],
    ensures
        sp_value(s, p, fuel) == Some((JsonV::Null, p + 4)),
{
    assert(s[p] == 'n' && s[p + 1] == 'u' && s[p + 2] == 'l' && s[p + 3] == 'l') by {
        assert(s.subrange(p, p + 4)[0] == 'n');
        assert(s.subrange(p, p + 4)[1] == 'u');
        assert(s.subrange(p, p + 4)[2] == 'l');
        assert(s.subrange(p, p + 4)[3] == 'l');
    }
    assert(!is_ws(s[p]));
    crate::text::lemma_skip_ws_none(s, p);
}

/// Parsing at a rendered string token.
pub proof fn lemma_sp_value_str(x: Seq<char>, s: Seq<char>, p: int, fuel: nat)
    requires
        wf_text(x),
        fuel >= 1,
        0 <= p,
        p + render_str(x).len() <= s.len(),
        s.subrange(p, p + render_str(x).len()) == render_str(x),
    ensures
        sp_value(s, p, fuel) == Some((JsonV::Str(x), p + render_str(x).len())),
{
    let l = render_str(x).len();
    assert(s[p] == '"') by {
        assert(s.subrange(p, p + l)[0] == render_str(x)[0]);
    }
    assert(!is_ws(s[p]));
    crate::text::lemma_skip_ws_none(s, p);
    assert(s.subrange(p + 1, p + 1 + (esc_seq(x).len() + 1)) =~= esc_seq(x) + seq!['"']) by {
        assert(forall|u: int|
            p <= u < p + l ==> #[trigger] s[u] == s.subrange(p, p + l)[u - p]);
    }
    lemma_sp_string_render(x, s, p + 1);
}

/// Parsing at a rendered integer token followed by a comma.
pub proof fn lemma_sp_value_int(n: i64, s: Seq<char>, p: int, fuel: nat)
    requires
        fuel >= 1,
        0 <= p,
        p + render_i64(n as int).len() < s.len(),
        s.subrange(p, p + render_i64(n as int).len()) == render_i64(n as int),
        s[p + render_i64(n as int).len()] == ',',
    ensures
        sp_value(s, p, fuel) == Some((JsonV::Int(n), p + render_i64(n as int).len())),
{
    let w = render_i64(n as int);
    assert(s[p] == w[0]) by {
        assert(s.subrange(p, p + w.len())[0] == w[0]);
    }
    if n >= 0 {
        lemma_dec_digits(n as int);
        assert(is_digit(w[0]));
    } else {
        lemma_dec_digits(-(n as int));
        assert(w[0] == '-');
    }
    assert(s[p] == '-' || is_digit(s[p]));
    assert(s[p] != 'n' && s[p] != 't' && s[p] != 'f' && s[p] != '"' && s[p] != '[' && s[p]
        != '{');
    assert(!is_ws(s[p]));
    crate::text::lemma_skip_ws_none(s, p);
    lemma_sp_number_render(n, s, p);
}

} // verus!

