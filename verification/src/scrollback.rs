//! The scrollback store's durable line format.
//!
//! Each conversation's history is a file of JSON lines, one record per
//! line.  This module serializes records to lines (`append`), reads a
//! file's content back tolerantly (`load_tail`), and names the file for a
//! conversation key (`path_for`).  Reading skips blank lines and lines
//! that do not parse as a record, keeps on-disk order, and bounds the
//! result to the newest `limit` records.  The surrounding application
//! performs the actual file writes and reads.
use vstd::prelude::*;

use crate::json::{
    dec_digits, esc_seq, hex_digit, jv, lookup, parse_json_chars, render_i64, render_str, sp_json,
    Json, JsonV,
};
use crate::text::{chars_of, spec_lines, string_from_chars};
use vstd::string::StringSliceAdditionalSpecFns;

verus! {

/// One durable chat record: nullable timestamp in milliseconds,
/// direction (`"in"` or `"out"`), nullable sender, and message body.
#[derive(Debug, Clone)]
pub struct ScrollbackRecord {
    pub ts_ms: Option<i64>,
    pub dir: String,
    pub who: Option<String>,
    pub body: String,
}

/// The mathematical view of a record.
pub struct RecView {
    pub ts_ms: Option<i64>,
    pub dir: Seq<char>,
    pub who: Option<Seq<char>>,
    pub body: Seq<char>,
}

impl View for ScrollbackRecord {
    type V = RecView;

    open spec fn view(&self) -> RecView {
        RecView {
            ts_ms: self.ts_ms,
            dir: self.dir@,
            who: match self.who {
                Some(w) => Some(w@),
                None => None,
            },
            body: self.body@,
        }
    }
}

pub open spec fn key_ts() -> Seq<char> {
    seq!['t', 's', '_', 'm', 's']
}

pub open spec fn key_dir() -> Seq<char> {
    seq!['d', 'i', 'r']
}

pub open spec fn key_who() -> Seq<char> {
    seq!['w', 'h', 'o']
}

pub open spec fn key_body() -> Seq<char> {
    seq!['b', 'o', 'd', 'y']
}

pub open spec fn lit_null() -> Seq<char> {
    seq!['n', 'u', 'l', 'l']
}

pub open spec fn render_opt_int(o: Option<i64>) -> Seq<char> {
    match o {
        None => lit_null(),
        Some(n) => render_i64(n as int),
    }
}

pub open spec fn render_opt_str(o: Option<Seq<char>>) -> Seq<char> {
    match o {
        None => lit_null(),
        Some(s) => render_str(s),
    }
}

/// The JSON line written for a record: a four-field object with the
/// fields in a fixed order and no inner whitespace.
pub open spec fn render_record(r: RecView) -> Seq<char> {
    seq!['{', '"', 't', 's', '_', 'm', 's', '"', ':'] + render_opt_int(r.ts_ms) + seq![
        ',',
        '"',
        'd',
        'i',
        'r',
        '"',
        ':',
    ] + render_str(r.dir) + seq![',', '"', 'w', 'h', 'o', '"', ':'] + render_opt_str(r.who) + seq![
        ',',
        '"',
        'b',
        'o',
        'd',
        'y',
        '"',
        ':',
    ] + render_str(r.body) + seq!['}']
}

fn push_null(out: &mut Vec<char>)
    ensures
        final(out)@ == old(out)@ + lit_null(),
{
    out.push('n');
    out.push('u');
    out.push('l');
    out.push('l');
    assert(out@ =~= old(out)@ + lit_null());
}

/// Serializes one record as the single JSON line to be appended, without
/// the trailing newline, which the caller writes together with it.
#[verifier::rlimit(100)]
pub fn append(rec: &ScrollbackRecord) -> (line: String)
    ensures
        line@ == render_record(rec@),
{
    let mut out: Vec<char> = Vec::new();
    out.push('{');
    out.push('"');
    out.push('t');
    out.push('s');
    out.push('_');
    out.push('m');
    out.push('s');
    out.push('"');
    out.push(':');
    assert(out@ =~= seq!['{', '"', 't', 's', '_', 'm', 's', '"', ':']);
    match &rec.ts_ms {
        None => push_null(&mut out),
        Some(n) => crate::json::push_i64_dec(&mut out, *n),
    }
    let ghost seg1 = out@;
    assert(seg1 == seq!['{', '"', 't', 's', '_', 'm', 's', '"', ':'] + render_opt_int(rec@.ts_ms));
    out.push(',');
    out.push('"');
    out.push('d');
    out.push('i');
    out.push('r');
    out.push('"');
    out.push(':');
    assert(out@ =~= seg1 + seq![',', '"', 'd', 'i', 'r', '"', ':']);
    let dirv = chars_of(rec.dir.as_str());
    crate::json::push_json_string(&mut out, &dirv);
    let ghost seg2 = out@;
    out.push(',');
    out.push('"');
    out.push('w');
    out.push('h');
    out.push('o');
    out.push('"');
    out.push(':');
    assert(out@ =~= seg2 + seq![',', '"', 'w', 'h', 'o', '"', ':']);
    match &rec.who {
        None => push_null(&mut out),
        Some(w) => {
            let wv = chars_of(w.as_str());
            crate::json::push_json_string(&mut out, &wv);
        },
    }
    let ghost seg3 = out@;
    assert(seg3 == seg2 + seq![',', '"', 'w', 'h', 'o', '"', ':'] + render_opt_str(rec@.who));
    out.push(',');
    out.push('"');
    out.push('b');
    out.push('o');
    out.push('d');
    out.push('y');
    out.push('"');
    out.push(':');
    assert(out@ =~= seg3 + seq![',', '"', 'b', 'o', 'd', 'y', '"', ':']);
    let bodyv = chars_of(rec.body.as_str());
    crate::json::push_json_string(&mut out, &bodyv);
    out.push('}');
    assert(out@ =~= render_record(rec@));
    string_from_chars(&out)
}

/// The record stood for by a JSON value, if it has the expected shape:
/// an object whose `dir` and `body` are strings, whose `ts_ms` is an
/// integer or null or absent, and whose `who` is a string or null or
/// absent.  Unknown fields are ignored.
pub open spec fn rec_of_json(v: JsonV) -> Option<RecView> {
    match v {
        JsonV::Obj(fs) => {
            let ts = match lookup(fs, key_ts()) {
                None => Some(None::<i64>),
                Some(JsonV::Null) => Some(None::<i64>),
                Some(JsonV::Int(n)) => Some(Some(n)),
                Some(_) => None,
            };
            let dir = match lookup(fs, key_dir()) {
                Some(JsonV::Str(d)) => Some(d),
                _ => None,
            };
            let who = match lookup(fs, key_who()) {
                None => Some(None::<Seq<char>>),
                Some(JsonV::Null) => Some(None::<Seq<char>>),
                Some(JsonV::Str(w)) => Some(Some(w)),
                Some(_) => None,
            };
            let body = match lookup(fs, key_body()) {
                Some(JsonV::Str(b)) => Some(b),
                _ => None,
            };
            if ts is Some && dir is Some && who is Some && body is Some {
                Some(
                    RecView {
                        ts_ms: ts->0,
                        dir: dir->0,
                        who: who->0,
                        body: body->0,
                    },
                )
            } else {
                None
            }
        },
        _ => None,
    }
}

/// The record read from one line, if the line parses as a record.
pub open spec fn parse_line(l: Seq<char>) -> Option<RecView> {
    match sp_json(l) {
        Some(v) => rec_of_json(v),
        None => None,
    }
}

/// Executable record extraction from a parsed JSON value.
pub fn record_from_json(j: &Json) -> (r: Option<ScrollbackRecord>)
    ensures
        match r {
            Some(rec) => rec_of_json(jv(*j)) == Some(rec@),
            None => rec_of_json(jv(*j)) is None,
        },
{
    let fields = match j {
        Json::Obj(fs) => fs,
        _ => {
            return None;
        },
    };
    proof {
        reveal_strlit("ts_ms");
        reveal_strlit("dir");
        reveal_strlit("who");
        reveal_strlit("body");
        assert("ts_ms"@ =~= key_ts());
        assert("dir"@ =~= key_dir());
        assert("who"@ =~= key_who());
        assert("body"@ =~= key_body());
    }
    let ts_ms: Option<i64> = match crate::json::obj_get(fields, "ts_ms") {
        None => None,
        Some(Json::Null) => None,
        Some(Json::Int(n)) => Some(*n),
        Some(_) => {
            return None;
        },
    };
    let dir: String = match crate::json::obj_get(fields, "dir") {
        Some(Json::Str(d)) => d.clone(),
        _ => {
            return None;
        },
    };
    let who: Option<String> = match crate::json::obj_get(fields, "who") {
        None => None,
        Some(Json::Null) => None,
        Some(Json::Str(w)) => Some(w.clone()),
        Some(_) => {
            return None;
        },
    };
    let body: String = match crate::json::obj_get(fields, "body") {
        Some(Json::Str(b)) => b.clone(),
        _ => {
            return None;
        },
    };
    Some(ScrollbackRecord { ts_ms, dir, who, body })
}

/// The records of the given lines that parse, in order.
pub open spec fn parsed_records(ls: Seq<Seq<char>>) -> Seq<RecView>
    decreases ls.len(),
{
    if ls.len() == 0 {
        Seq::empty()
    } else {
        let rest = parsed_records(ls.drop_first());
        match parse_line(ls[0]) {
            Some(r) => seq![r] + rest,
            None => rest,
        }
    }
}

/// The newest `limit` entries of `rs`.
pub open spec fn tail_clip(rs: Seq<RecView>, limit: int) -> Seq<RecView> {
    if rs.len() > limit {
        rs.skip(rs.len() - limit)
    } else {
        rs
    }
}

/// What loading a file's content yields: every line that parses as a
/// record, in file order, clipped to the newest `limit`.
pub open spec fn load_spec(s: Seq<char>, limit: int) -> Seq<RecView> {
    tail_clip(parsed_records(spec_lines(s)), limit)
}

proof fn lemma_parsed_records_push(ls: Seq<Seq<char>>, l: Seq<char>)
    ensures
        parsed_records(ls.push(l)) == parsed_records(ls) + (match parse_line(l) {
            Some(r) => seq![r],
            None => Seq::<RecView>::empty(),
        }),
    decreases ls.len(),
{
    let tail = match parse_line(l) {
        Some(r) => seq![r],
        None => Seq::<RecView>::empty(),
    };
    if ls.len() == 0 {
        assert(ls.push(l)[0] == l);
        assert(ls.push(l).drop_first() =~= Seq::<Seq<char>>::empty());
        assert(parsed_records(Seq::<Seq<char>>::empty()) == Seq::<RecView>::empty());
        assert(parsed_records(ls.push(l).drop_first()) == Seq::<RecView>::empty());
        assert(parsed_records(ls.push(l)) =~= tail);
        assert(parsed_records(ls) + tail =~= tail);
    } else {
        assert(ls.push(l).drop_first() =~= ls.drop_first().push(l));
        lemma_parsed_records_push(ls.drop_first(), l);
        assert(ls.push(l)[0] == ls[0]);
        assert(parsed_records(ls.push(l)) =~= parsed_records(ls) + tail);
    }
}

proof fn lemma_spec_lines_piece_len(s: Seq<char>)
    ensures
        forall|i: int|
            0 <= i < spec_lines(s).len() ==> (#[trigger] spec_lines(s)[i]).len() <= s.len(),
    decreases s.len(),
{
    if s.len() > 0 {
        lemma_spec_lines_piece_len(s.drop_first());
        let r = spec_lines(s.drop_first());
        if s[0] == '\n' {
            assert forall|i: int| 0 <= i < spec_lines(s).len() implies (#[trigger] spec_lines(
                s,
            )[i]).len() <= s.len() by {
                if i > 0 {
                    assert(spec_lines(s)[i] == r[i - 1]);
                }
            }
        } else {
            assert forall|i: int| 0 <= i < spec_lines(s).len() implies (#[trigger] spec_lines(
                s,
            )[i]).len() <= s.len() by {
                if i == 0 {
                    assert(spec_lines(s)[0] == seq![s[0]] + r[0]);
                    assert(r[0].len() <= s.len() - 1);
                } else {
                    assert(spec_lines(s)[i] == r.drop_first()[i - 1]);
                    assert(r.drop_first()[i - 1] == r[i]);
                }
            }
        }
    }
}

/// Reads a file's content: every line parsing as a record, in order,
/// bounded to the newest `limit`.
#[verifier::rlimit(100)]
pub fn load_tail(content: &str, limit: usize) -> (r: Vec<ScrollbackRecord>)
    requires
        crate::json::parse_len_ok(content@.len() as int),
    ensures
        r@.len() == load_spec(content@, limit as int).len(),
        forall|i: int|
            0 <= i < r@.len() ==> (#[trigger] r@[i])@ == load_spec(content@, limit as int)[i],
{
    let cv = chars_of(content);
    let lines = crate::text::split_lines(&cv);
    let ghost ls = spec_lines(content@);
    proof {
        lemma_spec_lines_piece_len(content@);
    }
    let mut out: Vec<ScrollbackRecord> = Vec::new();
    let ghost done: Seq<Seq<char>> = Seq::empty();
    let mut k: usize = 0;
    proof {
        assert(parsed_records(ls.subrange(0, 0)) =~= Seq::<RecView>::empty());
    }
    let mut outv: Ghost<Seq<RecView>> = Ghost(Seq::empty());
    while k < lines.len()
        invariant
            k <= lines@.len(),
            lines@.len() == ls.len(),
            forall|i: int| 0 <= i < ls.len() ==> lines@[i]@ == ls[i],
            forall|i: int| 0 <= i < ls.len() ==> ls[i].len() <= content@.len(),
            crate::json::parse_len_ok(content@.len() as int),
            out@.len() == parsed_records(ls.subrange(0, k as int)).len(),
            forall|i: int|
                0 <= i < out@.len() ==> (#[trigger] out@[i])@ == parsed_records(
                    ls.subrange(0, k as int),
                )[i],
        decreases lines@.len() - k,
    {
        let ghost pre = ls.subrange(0, k as int);
        proof {
            assert(ls.subrange(0, k + 1) =~= pre.push(ls[k as int]));
            lemma_parsed_records_push(pre, ls[k as int]);
        }
        match parse_json_chars(&lines[k]) {
            Some(j) => {
                match record_from_json(&j) {
                    Some(rec) => {
                        assert(parse_line(ls[k as int]) == Some(rec@));
                        out.push(rec);
                    },
                    None => {
                        assert(parse_line(ls[k as int]) is None);
                    },
                }
            },
            None => {
                assert(parse_line(ls[k as int]) is None);
            },
        }
        k += 1;
    }
    proof {
        assert(ls.subrange(0, ls.len() as int) =~= ls);
    }
    let ghost all = parsed_records(ls);
    while out.len() > limit
        invariant
            out@.len() <= all.len(),
            all.len() > limit ==> out@.len() >= limit as int,
            all.len() <= limit ==> out@.len() == all.len(),
            forall|i: int|
                0 <= i < out@.len() ==> (#[trigger] out@[i])@ == all[i + (all.len() - out@.len())],
        decreases out@.len(),
    {
        let ghost oldv = out@;
        out.remove(0);
        proof {
            assert(out@ =~= oldv.drop_first());
            let d = all.len() - out@.len();
            assert forall|i: int| 0 <= i < out@.len() implies (#[trigger] out@[i])@ == all[i + d]
            by {
                assert(out@[i] == oldv[i + 1]);
            }
            assert(0 <= d <= all.len() - out@.len());
        }
    }
    proof {
        let rs = load_spec(content@, limit as int);
        if all.len() > limit {
            assert(rs =~= all.skip(all.len() - limit as int));
            assert(out@.len() == limit);
            assert forall|i: int| 0 <= i < out@.len() implies (#[trigger] out@[i])@ == rs[i] by {
                assert(out@[i]@ == all[i + (all.len() - out@.len())]);
            }
        } else {
            assert(rs == all);
        }
    }
    out
}

// ------------------------------------------------------------------
// file naming
// ------------------------------------------------------------------
/// Two lowercase hex digits per byte.
pub open spec fn hex_of_bytes(bs: Seq<u8>) -> Seq<char>
    decreases bs.len(),
{
    if bs.len() == 0 {
        Seq::empty()
    } else {
        seq![hex_digit((bs[0] as int) / 16), hex_digit((bs[0] as int) % 16)] + hex_of_bytes(
            bs.drop_first(),
        )
    }
}

/// Lowercase hex encoding of a byte string.
pub fn hex_encode(bytes: &[u8]) -> (r: String)
    ensures
        r@ == hex_of_bytes(bytes@),
{
    let mut out: Vec<char> = Vec::new();
    let mut k: usize = 0;
    proof {
        assert(out@ =~= hex_of_bytes(bytes@.subrange(0, 0)));
    }
    while k < bytes.len()
        invariant
            k <= bytes@.len(),
            out@ == hex_of_bytes(bytes@.subrange(0, k as int)),
        decreases bytes@.len() - k,
    {
        let b = bytes[k];
        let hi: u8 = b / 16;
        let lo: u8 = b % 16;
        let c1 = if hi < 10 {
            (48 + hi) as char
        } else {
            (87 + hi) as char
        };
        let c2 = if lo < 10 {
            (48 + lo) as char
        } else {
            (87 + lo) as char
        };
        proof {
            assert(c1 == hex_digit((b as int) / 16));
            assert(c2 == hex_digit((b as int) % 16));
            lemma_hex_snoc(bytes@, k as int);
        }
        out.push(c1);
        out.push(c2);
        k += 1;
        assert(out@ =~= hex_of_bytes(bytes@.subrange(0, k as int)));
    }
    assert(bytes@.subrange(0, bytes@.len() as int) =~= bytes@);
    string_from_chars(&out)
}

proof fn lemma_hex_snoc(bs: Seq<u8>, k: int)
    requires
        0 <= k < bs.len(),
    ensures
        hex_of_bytes(bs.subrange(0, k + 1)) == hex_of_bytes(bs.subrange(0, k)) + seq![
            hex_digit((bs[k] as int) / 16),
            hex_digit((bs[k] as int) % 16),
        ],
    decreases k,
{
    if k == 0 {
        assert(bs.subrange(0, 1)[0] == bs[0]);
        assert(bs.subrange(0, 1).drop_first() =~= Seq::<u8>::empty());
        assert(bs.subrange(0, 0) =~= Seq::<u8>::empty());
        assert(hex_of_bytes(Seq::<u8>::empty()) == Seq::<char>::empty());
        assert(hex_of_bytes(bs.subrange(0, 1)) == seq![
            hex_digit((bs.subrange(0, 1)[0] as int) / 16),
            hex_digit((bs.subrange(0, 1)[0] as int) % 16),
        ] + hex_of_bytes(bs.subrange(0, 1).drop_first()));
        assert(hex_of_bytes(bs.subrange(0, 1)) =~= hex_of_bytes(bs.subrange(0, 0)) + seq![
            hex_digit((bs[0] as int) / 16),
            hex_digit((bs[0] as int) % 16),
        ]);
    } else {
        lemma_hex_snoc(bs.drop_first(), k - 1);
        assert(bs.subrange(0, k + 1).drop_first() =~= bs.drop_first().subrange(0, k));
        assert(bs.subrange(0, k).drop_first() =~= bs.drop_first().subrange(0, k - 1));
        assert(bs.subrange(0, k + 1)[0] == bs[0]);
        assert(bs.subrange(0, k)[0] == bs[0]);
        assert(bs.drop_first()[k - 1] == bs[k]);
        assert(hex_of_bytes(bs.subrange(0, k + 1)) =~= hex_of_bytes(bs.subrange(0, k)) + seq![
            hex_digit((bs[k] as int) / 16),
            hex_digit((bs[k] as int) % 16),
        ]);
    }
}

/// The file name for a conversation key: the hex encoding of the key's
/// bytes with a `.jsonl` suffix.  Hex keeps arbitrary addresses and ids
/// filesystem-safe while staying injective.
pub fn path_for(conversation_key: &str) -> (r: String)
    ensures
        r@ == hex_of_bytes(conversation_key.spec_bytes()) + seq![
            '.',
            'j',
            's',
            'o',
            'n',
            'l',
        ],
{
    let hex = hex_encode(conversation_key.as_bytes());
    let hv = chars_of(hex.as_str());
    let mut out = hv;
    out.push('.');
    out.push('j');
    out.push('s');
    out.push('o');
    out.push('n');
    out.push('l');
    assert(out@ =~= hex_of_bytes(conversation_key.spec_bytes()) + seq![
        '.',
        'j',
        's',
        'o',
        'n',
        'l',
    ]);
    string_from_chars(&out)
}


// ------------------------------------------------------------------
// a rendered record parses back to itself
// ------------------------------------------------------------------
/// Views of actual records have non-negative character codes in every
/// text field.
pub open spec fn wf_rec(r: RecView) -> bool {
    &&& crate::json::wf_text(r.dir)
    &&& crate::json::wf_text(r.body)
    &&& match r.who {
        Some(w) => crate::json::wf_text(w),
        None => true,
    }
}

pub open spec fn tsv_of(o: Option<i64>) -> JsonV {
    match o {
        None => JsonV::Null,
        Some(n) => JsonV::Int(n),
    }
}

pub open spec fn whov_of(o: Option<Seq<char>>) -> JsonV {
    match o {
        None => JsonV::Null,
        Some(w) => JsonV::Str(w),
    }
}

/// The object fields a rendered record parses to.
pub open spec fn rec_fields(r: RecView) -> Seq<(Seq<char>, JsonV)> {
    seq![
        (key_ts(), tsv_of(r.ts_ms)),
        (key_dir(), JsonV::Str(r.dir)),
        (key_who(), whov_of(r.who)),
        (key_body(), JsonV::Str(r.body)),
    ]
}

/// A key token (quote, ordinary characters, quote, colon) parses as that
/// key, with no whitespace skipped.
proof fn lemma_key_at(s: Seq<char>, m: int, key: Seq<char>)
    requires
        forall|i: int| 0 <= i < key.len() ==> crate::json::ordinary(#[trigger] key[i]),
        0 <= m,
        m + key.len() + 3 <= s.len(),
        s.subrange(m, m + key.len() + 3) == seq!['"'] + key + seq!['"', ':'],
    ensures
        crate::text::skip_ws(s, m) == m,
        crate::json::sp_string(s, m + 1) == Some((key, m + key.len() + 2)),
        s[m + key.len() + 2] == ':',
        crate::text::skip_ws(s, m + key.len() + 2) == m + key.len() + 2,
        s[m] == '"',
{
    let w = s.subrange(m, m + key.len() + 3);
    assert(forall|u: int| m <= u < m + key.len() + 3 ==> #[trigger] s[u] == w[u - m]);
    assert(s[m] == '"');
    assert(!crate::text::is_ws(s[m]));
    crate::text::lemma_skip_ws_none(s, m);
    crate::json::lemma_esc_seq_ordinary(key);
    assert(crate::json::wf_text(key));
    assert(s.subrange(m + 1, m + 1 + (crate::json::esc_seq(key).len() + 1)) =~= crate::json::esc_seq(
        key,
    ) + seq!['"']);
    crate::json::lemma_sp_string_render(key, s, m + 1);
    assert(s[m + key.len() + 2] == ':');
    assert(!crate::text::is_ws(s[m + key.len() + 2]));
    crate::text::lemma_skip_ws_none(s, m + key.len() + 2);
}

/// The rendered record text, decomposed once.
proof fn lemma_record_shape(r: RecView)
    ensures
        render_record(r) == seq!['{', '"', 't', 's', '_', 'm', 's', '"', ':'] + render_opt_int(
            r.ts_ms,
        ) + seq![',', '"', 'd', 'i', 'r', '"', ':'] + render_str(r.dir) + seq![
            ',',
            '"',
            'w',
            'h',
            'o',
            '"',
            ':',
        ] + render_opt_str(r.who) + seq![',', '"', 'b', 'o', 'd', 'y', '"', ':'] + render_str(
            r.body,
        ) + seq!['}'],
{
}

/// Parsing the fourth member (`body`) of a rendered record.
#[verifier::rlimit(100)]
#[verifier::spinoff_prover]
proof fn lemma_mem_body(r: RecView, fuel: nat)
    requires
        wf_rec(r),
        fuel >= 2,
    ensures
        crate::json::sp_members(
            render_record(r),
            render_record(r).len() - render_str(r.body).len() - 8,
            fuel,
        ) == Some(
            (seq![(key_body(), JsonV::Str(r.body))], render_record(r).len() as int),
        ),
{
    let s = render_record(r);
    let b = render_str(r.body);
    lemma_record_shape(r);
    let a = seq!['{', '"', 't', 's', '_', 'm', 's', '"', ':'] + render_opt_int(r.ts_ms) + seq![
        ',',
        '"',
        'd',
        'i',
        'r',
        '"',
        ':',
    ] + render_str(r.dir) + seq![',', '"', 'w', 'h', 'o', '"', ':'] + render_opt_str(r.who);
    let t = seq![',', '"', 'b', 'o', 'd', 'y', '"', ':'] + b + seq!['}'];
    assert(s =~= a + t);
    assert(forall|u: int| a.len() <= u < s.len() ==> #[trigger] s[u] == t[u - a.len()]);
    let m = s.len() - b.len() - 8;
    assert(m == a.len() + 1);
    assert(s.subrange(m, m + 7) =~= seq!['"'] + key_body() + seq!['"', ':']);
    lemma_key_at(s, m, key_body());
    let p = m + 7;
    assert(s.subrange(p, p + b.len()) =~= b);
    crate::json::lemma_sp_value_str(r.body, s, p, (fuel - 1) as nat);
    let e = p + b.len();
    assert(s[e] == '}');
    assert(!crate::text::is_ws(s[e]));
    crate::text::lemma_skip_ws_none(s, e);
    assert(crate::json::sp_members(s, m, fuel) == Some(
        (seq![(key_body(), JsonV::Str(r.body))], e + 1),
    ));
    assert(e + 1 == s.len());
}


/// Where the `who` member lies in a rendered record.
#[verifier::rlimit(100)]
#[verifier::spinoff_prover]
proof fn lemma_layout_who(r: RecView)
    ensures
        ({
            let s = render_record(r);
            let b = render_str(r.body);
            let wv = render_opt_str(r.who);
            let m = s.len() - b.len() - wv.len() - 15;
            &&& 0 <= m
            &&& m + 6 + wv.len() + 1 <= s.len()
            &&& s.subrange(m, m + 6) == seq!['"'] + key_who() + seq!['"', ':']
            &&& s.subrange(m + 6, m + 6 + wv.len()) == wv
            &&& s[m + 6 + wv.len()] == ','
            &&& m + 6 + wv.len() + 1 == s.len() - b.len() - 8
        }),
{
    let s = render_record(r);
    let b = render_str(r.body);
    let wv = render_opt_str(r.who);
    lemma_record_shape(r);
    let a = seq!['{', '"', 't', 's', '_', 'm', 's', '"', ':'] + render_opt_int(r.ts_ms) + seq![
        ',',
        '"',
        'd',
        'i',
        'r',
        '"',
        ':',
    ] + render_str(r.dir);
    let t = seq![',', '"', 'w', 'h', 'o', '"', ':'] + wv + seq![',', '"', 'b', 'o', 'd', 'y', '"', ':']
        + b + seq!['}'];
    assert(s =~= a + t);
    assert(forall|u: int| a.len() <= u < s.len() ==> #[trigger] s[u] == t[u - a.len()]);
    let m = s.len() - b.len() - wv.len() - 15;
    assert(m == a.len() + 1);
    assert(s.subrange(m, m + 6) =~= seq!['"'] + key_who() + seq!['"', ':']);
    assert(s.subrange(m + 6, m + 6 + wv.len()) =~= wv);
}

/// Parsing the third and fourth members (`who`, `body`).
#[verifier::rlimit(100)]
#[verifier::spinoff_prover]
proof fn lemma_mem_who(r: RecView, fuel: nat)
    requires
        wf_rec(r),
        fuel >= 3,
    ensures
        crate::json::sp_members(
            render_record(r),
            render_record(r).len() - render_str(r.body).len() - render_opt_str(r.who).len() - 15,
            fuel,
        ) == Some(
            (
                seq![(key_who(), whov_of(r.who)), (key_body(), JsonV::Str(r.body))],
                render_record(r).len() as int,
            ),
        ),
{
    let s = render_record(r);
    let b = render_str(r.body);
    let wv = render_opt_str(r.who);
    let m = s.len() - b.len() - wv.len() - 15;
    lemma_layout_who(r);
    lemma_key_at(s, m, key_who());
    let p = m + 6;
    let e = p + wv.len();
    match r.who {
        None => {
            assert(wv == lit_null());
            assert(s.subrange(p, p + 4) == s.subrange(p, p + wv.len()));
            assert(s.subrange(p, p + 4) =~= seq!['n', 'u', 'l', 'l']);
            crate::json::lemma_sp_value_null(s, p, (fuel - 1) as nat);
            assert(crate::json::sp_value(s, p, (fuel - 1) as nat) == Some(
                (whov_of(r.who), e),
            ));
        },
        Some(w) => {
            assert(wv == render_str(w));
            crate::json::lemma_sp_value_str(w, s, p, (fuel - 1) as nat);
            assert(crate::json::sp_value(s, p, (fuel - 1) as nat) == Some(
                (whov_of(r.who), e),
            ));
        },
    }
    assert(s[e] == ',');
    assert(!crate::text::is_ws(s[e]));
    crate::text::lemma_skip_ws_none(s, e);
    assert(e + 1 == s.len() - b.len() - 8);
    lemma_mem_body(r, (fuel - 1) as nat);
    assert(crate::json::sp_members(s, m, fuel) == Some(
        (
            seq![(key_who(), whov_of(r.who))] + seq![(key_body(), JsonV::Str(r.body))],
            s.len() as int,
        ),
    ));
    assert(seq![(key_who(), whov_of(r.who))] + seq![(key_body(), JsonV::Str(r.body))] =~= seq![
        (key_who(), whov_of(r.who)),
        (key_body(), JsonV::Str(r.body)),
    ]);
}

/// Parsing the members from `dir` on.
#[verifier::rlimit(100)]
#[verifier::spinoff_prover]
proof fn lemma_mem_dir(r: RecView, fuel: nat)
    requires
        wf_rec(r),
        fuel >= 4,
    ensures
        crate::json::sp_members(
            render_record(r),
            render_record(r).len() - render_str(r.dir).len() - render_opt_str(r.who).len()
                - render_str(r.body).len() - 22,
            fuel,
        ) == Some(
            (
                seq![
                    (key_dir(), JsonV::Str(r.dir)),
                    (key_who(), whov_of(r.who)),
                    (key_body(), JsonV::Str(r.body)),
                ],
                render_record(r).len() as int,
            ),
        ),
{
    let s = render_record(r);
    let b = render_str(r.body);
    let wv = render_opt_str(r.who);
    let d = render_str(r.dir);
    lemma_record_shape(r);
    let a = seq!['{', '"', 't', 's', '_', 'm', 's', '"', ':'] + render_opt_int(r.ts_ms);
    let t = seq![',', '"', 'd', 'i', 'r', '"', ':'] + d + seq![',', '"', 'w', 'h', 'o', '"', ':']
        + wv + seq![',', '"', 'b', 'o', 'd', 'y', '"', ':'] + b + seq!['}'];
    assert(s =~= a + t);
    assert(forall|u: int| a.len() <= u < s.len() ==> #[trigger] s[u] == t[u - a.len()]);
    let m = s.len() - d.len() - wv.len() - b.len() - 22;
    assert(m == a.len() + 1);
    assert(s.subrange(m, m + 6) =~= seq!['"'] + key_dir() + seq!['"', ':']);
    lemma_key_at(s, m, key_dir());
    let p = m + 6;
    let e = p + d.len();
    assert(s.subrange(p, p + d.len()) =~= d);
    crate::json::lemma_sp_value_str(r.dir, s, p, (fuel - 1) as nat);
    assert(s[e] == ',');
    assert(!crate::text::is_ws(s[e]));
    crate::text::lemma_skip_ws_none(s, e);
    assert(e + 1 == s.len() - b.len() - wv.len() - 15);
    lemma_mem_who(r, (fuel - 1) as nat);
    assert(crate::json::sp_members(s, m, fuel) == Some(
        (
            seq![(key_dir(), JsonV::Str(r.dir))] + seq![
                (key_who(), whov_of(r.who)),
                (key_body(), JsonV::Str(r.body)),
            ],
            s.len() as int,
        ),
    ));
    assert(seq![(key_dir(), JsonV::Str(r.dir))] + seq![
        (key_who(), whov_of(r.who)),
        (key_body(), JsonV::Str(r.body)),
    ] =~= seq![
        (key_dir(), JsonV::Str(r.dir)),
        (key_who(), whov_of(r.who)),
        (key_body(), JsonV::Str(r.body)),
    ]);
}

/// Where the `ts_ms` member lies in a rendered record.
#[verifier::rlimit(100)]
#[verifier::spinoff_prover]
proof fn lemma_layout_ts(r: RecView)
    ensures
        ({
            let s = render_record(r);
            let v1 = render_opt_int(r.ts_ms);
            &&& s.len() >= 30
            &&& 9 + v1.len() + 1 <= s.len()
            &&& s.subrange(1, 9) == seq!['"'] + key_ts() + seq!['"', ':']
            &&& s.subrange(9, 9 + v1.len() as int) == v1
            &&& s[9 + v1.len() as int] == ','
            &&& 9 + v1.len() + 1 == s.len() - render_str(r.dir).len() - render_opt_str(
                r.who,
            ).len() - render_str(r.body).len() - 22
            &&& s[0] == '{'
            &&& s[1] == '"'
        }),
{
    let s = render_record(r);
    let b = render_str(r.body);
    let wv = render_opt_str(r.who);
    let d = render_str(r.dir);
    let v1 = render_opt_int(r.ts_ms);
    lemma_record_shape(r);
    let a = seq!['{'];
    let t = seq!['"', 't', 's', '_', 'm', 's', '"', ':'] + v1 + seq![
        ',',
        '"',
        'd',
        'i',
        'r',
        '"',
        ':',
    ] + d + seq![',', '"', 'w', 'h', 'o', '"', ':'] + wv + seq![',', '"', 'b', 'o', 'd', 'y', '"', ':']
        + b + seq!['}'];
    assert(s =~= a + t);
    assert(s[0] == '{');
    assert(forall|u: int| 1 <= u < s.len() ==> #[trigger] s[u] == t[u - 1]);
    assert(s.subrange(1, 9) =~= seq!['"'] + key_ts() + seq!['"', ':']);
    assert(s.subrange(9, 9 + v1.len() as int) =~= v1);
}

/// Parsing the whole member list of a rendered record.
#[verifier::rlimit(100)]
#[verifier::spinoff_prover]
proof fn lemma_mem_ts(r: RecView, fuel: nat)
    requires
        wf_rec(r),
        fuel >= 5,
    ensures
        crate::json::sp_members(render_record(r), 1, fuel) == Some(
            (rec_fields(r), render_record(r).len() as int),
        ),
{
    let s = render_record(r);
    let b = render_str(r.body);
    let wv = render_opt_str(r.who);
    let d = render_str(r.dir);
    let v1 = render_opt_int(r.ts_ms);
    lemma_layout_ts(r);
    let m: int = 1;
    lemma_key_at(s, m, key_ts());
    let p = m + 8;
    let e = p + v1.len();
    match r.ts_ms {
        None => {
            assert(v1 == lit_null());
            assert(s.subrange(p, p + 4) == s.subrange(p, p + v1.len()));
            assert(s.subrange(p, p + 4) =~= seq!['n', 'u', 'l', 'l']);
            crate::json::lemma_sp_value_null(s, p, (fuel - 1) as nat);
            assert(crate::json::sp_value(s, p, (fuel - 1) as nat) == Some((tsv_of(r.ts_ms), e)));
        },
        Some(n) => {
            assert(v1 == render_i64(n as int));
            assert(s[e] == ',');
            crate::json::lemma_sp_value_int(n, s, p, (fuel - 1) as nat);
            assert(crate::json::sp_value(s, p, (fuel - 1) as nat) == Some((tsv_of(r.ts_ms), e)));
        },
    }
    assert(s[e] == ',');
    assert(!crate::text::is_ws(s[e]));
    crate::text::lemma_skip_ws_none(s, e);
    assert(e + 1 == s.len() - d.len() - wv.len() - b.len() - 22);
    lemma_mem_dir(r, (fuel - 1) as nat);
    assert(crate::json::sp_members(s, m, fuel) == Some(
        (
            seq![(key_ts(), tsv_of(r.ts_ms))] + seq![
                (key_dir(), JsonV::Str(r.dir)),
                (key_who(), whov_of(r.who)),
                (key_body(), JsonV::Str(r.body)),
            ],
            s.len() as int,
        ),
    ));
    assert(seq![(key_ts(), tsv_of(r.ts_ms))] + seq![
        (key_dir(), JsonV::Str(r.dir)),
        (key_who(), whov_of(r.who)),
        (key_body(), JsonV::Str(r.body)),
    ] =~= rec_fields(r));
}

/// The line written for a record parses back to exactly that record.
#[verifier::rlimit(100)]
#[verifier::spinoff_prover]
pub proof fn lemma_parse_render_record(r: RecView)
    requires
        wf_rec(r),
    ensures
        parse_line(render_record(r)) == Some(r),
{
    let s = render_record(r);
    lemma_record_shape(r);
    assert(s.len() >= 30);
    assert(s[0] == '{') by {
        assert(s[0] == seq!['{', '"', 't', 's', '_', 'm', 's', '"', ':'][0]);
    }
    assert(s[1] == '"') by {
        assert(s[1] == seq!['{', '"', 't', 's', '_', 'm', 's', '"', ':'][1]);
    }
    assert(!crate::text::is_ws(s[0]));
    assert(!crate::text::is_ws(s[1]));
    crate::text::lemma_skip_ws_none(s, 0);
    crate::text::lemma_skip_ws_none(s, 1);
    let fuel = crate::json::parse_fuel(s.len() as int);
    assert(fuel >= 6);
    lemma_mem_ts(r, (fuel - 1) as nat);
    assert(crate::json::sp_value(s, 0, fuel) == Some(
        (JsonV::Obj(rec_fields(r)), s.len() as int),
    ));
    assert(crate::text::skip_ws(s, s.len() as int) == s.len());
    assert(crate::json::sp_json(s) == Some(JsonV::Obj(rec_fields(r))));
    let fs = rec_fields(r);
    assert(key_ts().len() == 5 && key_dir().len() == 3 && key_who().len() == 3 && key_body().len()
        == 4);
    assert(key_dir() != key_who()) by {
        assert(key_dir()[0] == 'd' && key_who()[0] == 'w');
    }
    assert(key_ts() != key_dir() && key_ts() != key_who() && key_ts() != key_body());
    assert(key_dir() != key_body() && key_who() != key_body());
    assert(fs[0] == (key_ts(), tsv_of(r.ts_ms)));
    assert(fs.drop_first()[0] == (key_dir(), JsonV::Str(r.dir)));
    assert(fs.drop_first().drop_first()[0] == (key_who(), whov_of(r.who)));
    assert(fs.drop_first().drop_first().drop_first()[0] == (key_body(), JsonV::Str(r.body)));
    assert(fs.drop_first().drop_first().drop_first().drop_first().len() == 0);
    assert(lookup(fs, key_ts()) == Some(tsv_of(r.ts_ms)));
    assert(lookup(fs.drop_first(), key_dir()) == Some(JsonV::Str(r.dir)));
    assert(lookup(fs, key_dir()) == Some(JsonV::Str(r.dir)));
    assert(lookup(fs.drop_first().drop_first(), key_who()) == Some(whov_of(r.who)));
    assert(lookup(fs.drop_first(), key_who()) == Some(whov_of(r.who)));
    assert(lookup(fs, key_who()) == Some(whov_of(r.who)));
    assert(lookup(fs.drop_first().drop_first().drop_first(), key_body()) == Some(
        JsonV::Str(r.body),
    ));
    assert(lookup(fs.drop_first().drop_first(), key_body()) == Some(JsonV::Str(r.body)));
    assert(lookup(fs.drop_first(), key_body()) == Some(JsonV::Str(r.body)));
    assert(lookup(fs, key_body()) == Some(JsonV::Str(r.body)));
    assert(rec_of_json(JsonV::Obj(fs)) == Some(
        RecView { ts_ms: r.ts_ms, dir: r.dir, who: r.who, body: r.body },
    ));
    assert(RecView { ts_ms: r.ts_ms, dir: r.dir, who: r.who, body: r.body } == r);
}


// ------------------------------------------------------------------
// laws of append and tail load
// ------------------------------------------------------------------
/// The file content after appending each record's line plus a newline,
/// oldest first.
pub open spec fn file_of(recs: Seq<RecView>) -> Seq<char>
    decreases recs.len(),
{
    if recs.len() == 0 {
        Seq::empty()
    } else {
        render_record(recs[0]) + seq!['\n'] + file_of(recs.drop_first())
    }
}

pub open spec fn wf_recs(recs: Seq<RecView>) -> bool {
    forall|i: int| 0 <= i < recs.len() ==> wf_rec(#[trigger] recs[i])
}

/// Rendered lines hold no newline: every character a record line carries
/// is either printable or written as an escape.
proof fn lemma_esc_seq_no_nl(x: Seq<char>)
    requires
        crate::json::wf_text(x),
    ensures
        forall|i: int| 0 <= i < esc_seq(x).len() ==> #[trigger] esc_seq(x)[i] != '\n',
    decreases x.len(),
{
    if x.len() > 0 {
        assert(crate::json::wf_text(x.drop_first())) by {
            assert(forall|t: int|
                0 <= t < x.drop_first().len() ==> (#[trigger] x.drop_first()[t]) == x[t + 1]);
        }
        lemma_esc_seq_no_nl(x.drop_first());
        let c = x[0];
        assert((c as int) >= 0);
        let e = crate::json::esc_char(c);
        assert(forall|i: int| 0 <= i < e.len() ==> #[trigger] e[i] != '\n') by {
            if c == '"' || c == '\\' {
            } else if (c as int) < 32 {
                let cv = c as int;
                assert(e == seq!['\\', 'u', '0', '0', crate::json::hex_digit(cv / 16),
                    crate::json::hex_digit(cv % 16)]);
                assert(0 <= cv / 16 < 16 && 0 <= cv % 16 < 16) by (nonlinear_arith)
                    requires
                        0 <= cv < 32,
                ;
                crate::json::lemma_hex_val_hex_digit(cv / 16);
                crate::json::lemma_hex_val_hex_digit(cv % 16);
                assert(crate::json::hex_digit(cv / 16) != '\n');
                assert(crate::json::hex_digit(cv % 16) != '\n');
            } else {
                assert(e == seq![c]);
                assert((c as int) >= 32 && ('\n' as int) == 10);
            }
        }
        assert(esc_seq(x) == e + esc_seq(x.drop_first()));
    }
}

proof fn lemma_render_i64_no_nl(n: int)
    ensures
        forall|i: int|
            0 <= i < render_i64(n).len() ==> #[trigger] render_i64(n)[i] != '\n',
{
    if n >= 0 {
        crate::json::lemma_dec_digits(n);
        assert(forall|i: int|
            0 <= i < render_i64(n).len() ==> crate::json::is_digit(#[trigger] render_i64(n)[i]));
    } else {
        crate::json::lemma_dec_digits(-n);
        assert(forall|i: int|
            1 <= i < render_i64(n).len() ==> #[trigger] render_i64(n)[i] == crate::json::dec_digits(
                -n,
            )[i - 1]);
    }
}

proof fn lemma_render_record_no_nl(r: RecView)
    requires
        wf_rec(r),
    ensures
        forall|i: int|
            0 <= i < render_record(r).len() ==> #[trigger] render_record(r)[i] != '\n',
{
    let s = render_record(r);
    lemma_record_shape(r);
    lemma_esc_seq_no_nl(r.dir);
    lemma_esc_seq_no_nl(r.body);
    match r.who {
        Some(w) => {
            lemma_esc_seq_no_nl(w);
        },
        None => {},
    }
    match r.ts_ms {
        Some(n) => {
            lemma_render_i64_no_nl(n as int);
        },
        None => {},
    }
    assert forall|i: int| 0 <= i < s.len() implies #[trigger] s[i] != '\n' by {
        assert(s[i] != '\n');
    }
}

/// The lines of a file of rendered records: each record's line, then one
/// empty piece after the final newline.
pub open spec fn rendered_lines(recs: Seq<RecView>) -> Seq<Seq<char>> {
    Seq::new(recs.len(), |i: int| render_record(recs[i]))
}

proof fn lemma_lines_of_file(recs: Seq<RecView>)
    requires
        wf_recs(recs),
    ensures
        spec_lines(file_of(recs)) == rendered_lines(recs).push(Seq::<char>::empty()),
    decreases recs.len(),
{
    if recs.len() == 0 {
        assert(file_of(recs) == Seq::<char>::empty());
        assert(spec_lines(file_of(recs)) == seq![Seq::<char>::empty()]);
        assert(rendered_lines(recs).push(Seq::<char>::empty()) =~= seq![Seq::<char>::empty()]);
    } else {
        assert(wf_recs(recs.drop_first())) by {
            assert(forall|i: int|
                0 <= i < recs.drop_first().len() ==> #[trigger] recs.drop_first()[i] == recs[i
                    + 1]);
        }
        lemma_lines_of_file(recs.drop_first());
        lemma_render_record_no_nl(recs[0]);
        crate::text::lemma_spec_lines_concat(render_record(recs[0]), file_of(recs.drop_first()));
        assert(file_of(recs) == render_record(recs[0]) + seq!['\n'] + file_of(recs.drop_first()));
        assert(spec_lines(file_of(recs)) == seq![render_record(recs[0])] + spec_lines(
            file_of(recs.drop_first()),
        ));
        assert(seq![render_record(recs[0])] + rendered_lines(recs.drop_first()).push(
            Seq::<char>::empty(),
        ) =~= rendered_lines(recs).push(Seq::<char>::empty()));
    }
}

/// A blank line yields no record.
proof fn lemma_parse_empty_line()
    ensures
        parse_line(Seq::<char>::empty()) is None,
{
    let s = Seq::<char>::empty();
    assert(crate::text::skip_ws(s, 0) == 0);
    assert(crate::json::sp_value(s, 0, crate::json::parse_fuel(0)) is None);
}

proof fn lemma_parsed_of_rendered(recs: Seq<RecView>)
    requires
        wf_recs(recs),
    ensures
        parsed_records(rendered_lines(recs).push(Seq::<char>::empty())) == recs,
    decreases recs.len(),
{
    let ls = rendered_lines(recs).push(Seq::<char>::empty());
    if recs.len() == 0 {
        lemma_parse_empty_line();
        assert(ls[0] == Seq::<char>::empty());
        assert(ls.drop_first() =~= Seq::<Seq<char>>::empty());
        assert(parsed_records(Seq::<Seq<char>>::empty()) == Seq::<RecView>::empty());
        assert(parsed_records(ls) =~= recs);
    } else {
        assert(wf_recs(recs.drop_first())) by {
            assert(forall|i: int|
                0 <= i < recs.drop_first().len() ==> #[trigger] recs.drop_first()[i] == recs[i
                    + 1]);
        }
        lemma_parsed_of_rendered(recs.drop_first());
        lemma_parse_render_record(recs[0]);
        assert(ls[0] == render_record(recs[0]));
        assert(ls.drop_first() =~= rendered_lines(recs.drop_first()).push(Seq::<char>::empty()));
        assert(parse_line(ls[0]) == Some(recs[0]));
        assert(parsed_records(ls) == seq![recs[0]] + parsed_records(ls.drop_first()));
        assert(seq![recs[0]] + recs.drop_first() =~= recs);
    }
}

/// Writing any records through `append` and loading the file back with a
/// bound yields exactly the newest `min(limit, count)` records, oldest
/// first, in write order.
pub proof fn lemma_tail_load_of_appends(recs: Seq<RecView>, limit: int)
    requires
        wf_recs(recs),
    ensures
        load_spec(file_of(recs), limit) == tail_clip(recs, limit),
{
    lemma_lines_of_file(recs);
    lemma_parsed_of_rendered(recs);
}

/// A line that does not parse contributes nothing: loading skips it and
/// keeps every other line's record in its relative order.
pub proof fn lemma_invalid_line_ignored(before: Seq<Seq<char>>, bad: Seq<char>, after: Seq<
    Seq<char>,
>)
    requires
        parse_line(bad) is None,
    ensures
        parsed_records(before + seq![bad] + after) == parsed_records(before + after),
    decreases before.len(),
{
    if before.len() == 0 {
        let ls = before + seq![bad] + after;
        assert(ls[0] == bad);
        assert(ls.drop_first() =~= after);
        assert(before + after =~= after);
    } else {
        lemma_invalid_line_ignored(before.drop_first(), bad, after);
        let ls = before + seq![bad] + after;
        let ls2 = before + after;
        assert(ls[0] == before[0] && ls2[0] == before[0]);
        assert(ls.drop_first() =~= before.drop_first() + seq![bad] + after);
        assert(ls2.drop_first() =~= before.drop_first() + after);
        assert(parsed_records(ls.drop_first()) == parsed_records(ls2.drop_first()));
    }
}

} // verus!
