//! The protocol adapter for the external command-line messaging tool.
//!
//! The tool is run as a subprocess by the surrounding application, which
//! hands this module the outcome (exit status and captured output) as
//! plain values.  This module builds the argument lists, checks the
//! outcome, decodes the JSON the tool prints with a two-pass strategy
//! (whole text first, then one JSON document per line), and normalizes
//! the decoded items into messages, contacts, groups and accounts.
use vstd::prelude::*;

use crate::json::{jv, jv_seq, lookup, Json, JsonV};
use crate::text::{chars_of, spec_lines, spec_trim, string_from_chars};

verus! {

/// What running the external tool produced: whether it exited
/// successfully, its exit code if any, and its captured output streams.
pub struct CmdOutcome {
    pub success: bool,
    pub code: Option<i32>,
    pub stdout: String,
    pub stderr: String,
}

/// Why a call into the external tool failed.
#[derive(Debug)]
pub enum CliError {
    /// The tool exited unsuccessfully.
    Process { code: Option<i32>, stderr: String, stdout: String },
    /// The tool's output was not decodable JSON; carries the first line
    /// that failed to parse.
    Parse { line: String },
    /// The tool's output was JSON of an unexpected shape.
    Shape {  },
}

/// The name of what `serde_json::from_str` returns on a given text: a
/// deterministic function of the characters alone.
pub uninterp spec fn json_of(s: Seq<char>) -> Option<JsonV>;

#[verifier::external_type_specification]
#[verifier::external_body]
pub struct ExValue(serde_json::Value);

/// Converts a `serde_json` tree into the library's own, one variant per
/// arm; numbers that are not `i64` become `Other`.
#[verifier::external_body]
fn conv(v: serde_json::Value) -> Json {
    match v {
        serde_json::Value::Null => Json::Null,
        serde_json::Value::Bool(b) => Json::Bool(b),
        serde_json::Value::Number(n) => match n.as_i64() {
            Some(i) => Json::Int(i),
            None => Json::Other,
        },
        serde_json::Value::String(s) => Json::Str(s),
        serde_json::Value::Array(a) => Json::Arr(a.into_iter().map(conv).collect()),
        serde_json::Value::Object(m) => Json::Obj(m.into_iter().map(|p| (p.0, conv(p.1))).collect()),
    }
}

/// Relies on serde_json::from_str::<serde_json::Value>: parses a JSON
/// document, deterministically in the text; the result is converted to
/// the library's tree by `conv`.
#[verifier::external_body]
fn parse_json_text(s: &str) -> (r: Option<Json>)
    ensures
        match r {
            Some(j) => json_of(s@) == Some(jv(j)),
            None => json_of(s@) is None,
        },
{
    serde_json::from_str::<serde_json::Value>(s).ok().map(conv)
}

/// The values of the non-blank lines, if every one of them parses.
pub open spec fn line_values(ls: Seq<Seq<char>>) -> Option<Seq<JsonV>>
    decreases ls.len(),
{
    if ls.len() == 0 {
        Some(Seq::empty())
    } else {
        let t = spec_trim(ls[0]);
        let rest = line_values(ls.drop_first());
        if t.len() == 0 {
            rest
        } else {
            match json_of(t) {
                Some(v) => match rest {
                    Some(vs) => Some(seq![v] + vs),
                    None => None,
                },
                None => None,
            }
        }
    }
}

/// The first non-blank line whose text does not parse.
pub open spec fn first_bad(ls: Seq<Seq<char>>) -> Seq<char>
    decreases ls.len(),
{
    if ls.len() == 0 {
        Seq::empty()
    } else {
        let t = spec_trim(ls[0]);
        if t.len() != 0 && json_of(t) is None {
            t
        } else {
            first_bad(ls.drop_first())
        }
    }
}

/// The two-pass decoding of the tool's output: blank output is nothing;
/// otherwise the whole trimmed text as one document, else one document
/// per non-blank line gathered into an array; `None` when a line fails.
pub open spec fn two_pass(s: Seq<char>) -> Option<Option<JsonV>> {
    let t = spec_trim(s);
    if t.len() == 0 {
        Some(None)
    } else if json_of(t) is Some {
        Some(Some(json_of(t)->0))
    } else {
        match line_values(spec_lines(t)) {
            Some(vs) => Some(Some(JsonV::Arr(vs))),
            None => None,
        }
    }
}

proof fn lemma_line_values_push(ls: Seq<Seq<char>>, l: Seq<char>)
    ensures
        line_values(ls.push(l)) == (match line_values(ls) {
            Some(vs) => {
                let t = spec_trim(l);
                if t.len() == 0 {
                    Some(vs)
                } else {
                    match json_of(t) {
                        Some(v) => Some(vs + seq![v]),
                        None => None::<Seq<JsonV>>,
                    }
                }
            },
            None => None,
        }),
        line_values(ls) is None ==> first_bad(ls.push(l)) == first_bad(ls),
        (line_values(ls) is Some && spec_trim(l).len() != 0 && json_of(spec_trim(l)) is None)
            ==> first_bad(ls.push(l)) == spec_trim(l),
    decreases ls.len(),
{
    if ls.len() == 0 {
        assert(ls.push(l)[0] == l);
        assert(ls.push(l).drop_first() =~= Seq::<Seq<char>>::empty());
        assert(line_values(Seq::<Seq<char>>::empty()) == Some(Seq::<JsonV>::empty()));
        match json_of(spec_trim(l)) {
            Some(v) => {
                assert(spec_trim(l).len() != 0 ==> line_values(ls.push(l)) == Some(
                    seq![v] + Seq::<JsonV>::empty(),
                ));
                assert(seq![v] + Seq::<JsonV>::empty() =~= Seq::<JsonV>::empty() + seq![v]);
            },
            None => {},
        }
    } else {
        lemma_line_values_push(ls.drop_first(), l);
        assert(ls.push(l)[0] == ls[0]);
        assert(ls.push(l).drop_first() =~= ls.drop_first().push(l));
        let t0 = spec_trim(ls[0]);
        if t0.len() != 0 {
            match json_of(t0) {
                Some(v0) => {
                    match line_values(ls.drop_first()) {
                        Some(vs) => {
                            let t = spec_trim(l);
                            if t.len() != 0 {
                                match json_of(t) {
                                    Some(v) => {
                                        assert(seq![v0] + (vs + seq![v]) =~= (seq![v0] + vs)
                                            + seq![v]);
                                    },
                                    None => {},
                                }
                            }
                        },
                        None => {},
                    }
                },
                None => {},
            }
        }
    }
}

proof fn lemma_first_bad_at(ls: Seq<Seq<char>>, k: int)
    requires
        0 <= k < ls.len(),
        line_values(ls.subrange(0, k)) is Some,
        spec_trim(ls[k]).len() != 0,
        json_of(spec_trim(ls[k])) is None,
    ensures
        first_bad(ls) == spec_trim(ls[k]),
        line_values(ls) is None,
    decreases k,
{
    if k == 0 {
        assert(first_bad(ls) == spec_trim(ls[0]));
    } else {
        let t0 = spec_trim(ls[0]);
        assert(ls.subrange(0, k)[0] == ls[0]);
        assert(ls.subrange(0, k).drop_first() =~= ls.drop_first().subrange(0, k - 1));
        assert(line_values(ls.drop_first().subrange(0, k - 1)) is Some) by {
            if t0.len() == 0 {
            } else {
                assert(json_of(t0) is Some);
            }
        }
        assert(ls.drop_first()[k - 1] == ls[k]);
        lemma_first_bad_at(ls.drop_first(), k - 1);
        if t0.len() != 0 {
            assert(json_of(t0) is Some);
        }
    }
}

/// Decodes the tool's standard output by the two-pass strategy.
fn decode_json_output(stdout: &str) -> (r: Result<Option<Json>, CliError>)
    ensures
        match r {
            Ok(None) => two_pass(stdout@) == Some(None::<JsonV>),
            Ok(Some(j)) => two_pass(stdout@) == Some(Some(jv(j))),
            Err(e) => two_pass(stdout@) is None && (e matches CliError::Parse { line } && line@
                == first_bad(spec_lines(spec_trim(stdout@)))),
        },
{
    let cv = chars_of(stdout);
    let tv = crate::text::trim_chars(&cv);
    if tv.len() == 0 {
        return Ok(None);
    }
    let t = string_from_chars(&tv);
    match parse_json_text(t.as_str()) {
        Some(j) => Ok(Some(j)),
        None => {
            let lines = crate::text::split_lines(&tv);
            let ghost ls = spec_lines(spec_trim(stdout@));
            let mut items: Vec<Json> = Vec::new();
            let mut k: usize = 0;
            proof {
                assert(ls.subrange(0, 0) =~= Seq::<Seq<char>>::empty());
                assert(line_values(ls.subrange(0, 0)) == Some(Seq::<JsonV>::empty()));
                assert(jv_seq(items@) =~= Seq::<JsonV>::empty());
            }
            while k < lines.len()
                invariant
                    k <= lines@.len(),
                    lines@.len() == ls.len(),
                    ls == spec_lines(spec_trim(stdout@)),
                    json_of(spec_trim(stdout@)) is None,
                    forall|i: int| 0 <= i < ls.len() ==> lines@[i]@ == ls[i],
                    line_values(ls.subrange(0, k as int)) == Some(jv_seq(items@)),
                decreases lines@.len() - k,
            {
                let ghost pre = ls.subrange(0, k as int);
                proof {
                    assert(ls.subrange(0, k + 1) =~= pre.push(ls[k as int]));
                    lemma_line_values_push(pre, ls[k as int]);
                }
                let lt = crate::text::trim_chars(&lines[k]);
                if lt.len() > 0 {
                    let lstr = string_from_chars(&lt);
                    match parse_json_text(lstr.as_str()) {
                        Some(j) => {
                            let ghost oldv = items@;
                            items.push(j);
                            proof {
                                assert(items@.drop_last() =~= oldv);
                                crate::json::lemma_jv_seq(items@);
                                crate::json::lemma_jv_seq(oldv);
                                assert(jv_seq(items@) =~= jv_seq(oldv) + seq![jv(j)]);
                            }
                        },
                        None => {
                            proof {
                                lemma_first_bad_at(ls, k as int);
                                assert(lt@ == spec_trim(ls[k as int]));
                                assert(line_values(ls) is None);
                                assert(json_of(spec_trim(stdout@)) is None);
                                assert(two_pass(stdout@) is None);
                                assert(lstr@ == first_bad(spec_lines(spec_trim(stdout@))));
                            }
                            return Err(CliError::Parse { line: lstr });
                        },
                    }
                }
                k += 1;
            }
            proof {
                assert(ls.subrange(0, ls.len() as int) =~= ls);
            }
            Ok(Some(Json::Arr(items)))
        },
    }
}

/// The client's handle on the external tool: the binary to invoke.
pub struct SignalCli {
    pub bin: String,
}

impl SignalCli {
    /// A handle that invokes the given binary.
    pub fn with_bin(bin: String) -> (r: SignalCli)
        ensures
            r.bin@ == bin@,
    {
        SignalCli { bin }
    }

    /// The arguments for one account listing.
    pub fn list_accounts_args(&self) -> (args: Vec<String>)
        ensures
            args@.len() == 3,
            args@[0]@ == "-o"@,
            args@[1]@ == "json"@,
            args@[2]@ == "listAccounts"@,
    {
        let mut v: Vec<String> = Vec::new();
        v.push(String::from_str("-o"));
        v.push(String::from_str("json"));
        v.push(String::from_str("listAccounts"));
        v
    }

    /// The arguments for one contact listing.
    pub fn list_contacts_args(&self, account: &str) -> (args: Vec<String>)
        ensures
            args@.len() == 5,
            args@[0]@ == "-a"@,
            args@[1]@ == account@,
            args@[2]@ == "-o"@,
            args@[3]@ == "json"@,
            args@[4]@ == "listContacts"@,
    {
        let mut v: Vec<String> = Vec::new();
        v.push(String::from_str("-a"));
        v.push(String::from_str(account));
        v.push(String::from_str("-o"));
        v.push(String::from_str("json"));
        v.push(String::from_str("listContacts"));
        v
    }

    /// The arguments for one group listing.
    pub fn list_groups_args(&self, account: &str) -> (args: Vec<String>)
        ensures
            args@.len() == 5,
            args@[0]@ == "-a"@,
            args@[1]@ == account@,
            args@[2]@ == "-o"@,
            args@[3]@ == "json"@,
            args@[4]@ == "listGroups"@,
    {
        let mut v: Vec<String> = Vec::new();
        v.push(String::from_str("-a"));
        v.push(String::from_str(account));
        v.push(String::from_str("-o"));
        v.push(String::from_str("json"));
        v.push(String::from_str("listGroups"));
        v
    }

    /// The arguments for sending a message to a phone number.
    pub fn send_message_to_number(&self, account: &str, recipient: &str, body: &str) -> (args: Vec<
        String,
    >)
        ensures
            args@.len() == 6,
            args@[0]@ == "-a"@,
            args@[1]@ == account@,
            args@[2]@ == "send"@,
            args@[3]@ == "-m"@,
            args@[4]@ == body@,
            args@[5]@ == recipient@,
    {
        let mut v: Vec<String> = Vec::new();
        v.push(String::from_str("-a"));
        v.push(String::from_str(account));
        v.push(String::from_str("send"));
        v.push(String::from_str("-m"));
        v.push(String::from_str(body));
        v.push(String::from_str(recipient));
        v
    }

    /// The arguments for sending a message to a group.
    pub fn send_message_to_group(&self, account: &str, group_id: &str, body: &str) -> (args: Vec<
        String,
    >)
        ensures
            args@.len() == 7,
            args@[0]@ == "-a"@,
            args@[1]@ == account@,
            args@[2]@ == "send"@,
            args@[3]@ == "-g"@,
            args@[4]@ == group_id@,
            args@[5]@ == "-m"@,
            args@[6]@ == body@,
    {
        let mut v: Vec<String> = Vec::new();
        v.push(String::from_str("-a"));
        v.push(String::from_str(account));
        v.push(String::from_str("send"));
        v.push(String::from_str("-g"));
        v.push(String::from_str(group_id));
        v.push(String::from_str("-m"));
        v.push(String::from_str(body));
        v
    }

    /// The arguments for one bounded-timeout receive call; the timeout is
    /// rendered in decimal.
    pub fn receive_args(&self, account: &str, timeout_secs: u64) -> (args: Vec<String>)
        ensures
            args@.len() == 7,
            args@[0]@ == "-a"@,
            args@[1]@ == account@,
            args@[2]@ == "-o"@,
            args@[3]@ == "json"@,
            args@[4]@ == "receive"@,
            args@[5]@ == "--timeout"@,
            args@[6]@ == crate::json::dec_digits(timeout_secs as int),
    {
        let mut d: Vec<char> = Vec::new();
        crate::json::push_u64_dec(&mut d, timeout_secs);
        let mut v: Vec<String> = Vec::new();
        v.push(String::from_str("-a"));
        v.push(String::from_str(account));
        v.push(String::from_str("-o"));
        v.push(String::from_str("json"));
        v.push(String::from_str("receive"));
        v.push(String::from_str("--timeout"));
        v.push(string_from_chars(&d));
        v
    }

    /// Checks the outcome of a call that produces no output worth
    /// decoding: success passes, failure carries the captured streams.
    pub fn check_status(&self, outcome: CmdOutcome) -> (r: Result<(), CliError>)
        ensures
            outcome.success ==> r is Ok,
            !outcome.success ==> (r matches Err(CliError::Process { code, stderr, stdout })
                && code == outcome.code && stderr@ == outcome.stderr@ && stdout@
                == outcome.stdout@),
    {
        if outcome.success {
            Ok(())
        } else {
            Err(
                CliError::Process {
                    code: outcome.code,
                    stderr: outcome.stderr,
                    stdout: outcome.stdout,
                },
            )
        }
    }
}


// ------------------------------------------------------------------
// normalized values
// ------------------------------------------------------------------
/// A contact from the tool's listings.
pub struct Contact {
    pub number: String,
    pub name: Option<String>,
}

pub struct ContactView {
    pub number: Seq<char>,
    pub name: Option<Seq<char>>,
}

impl View for Contact {
    type V = ContactView;

    open spec fn view(&self) -> ContactView {
        ContactView {
            number: self.number@,
            name: match self.name {
                Some(n) => Some(n@),
                None => None,
            },
        }
    }
}

/// A group from the tool's listings.
pub struct Group {
    pub id: String,
    pub name: Option<String>,
}

pub struct GroupView {
    pub id: Seq<char>,
    pub name: Option<Seq<char>>,
}

impl View for Group {
    type V = GroupView;

    open spec fn view(&self) -> GroupView {
        GroupView {
            id: self.id@,
            name: match self.name {
                Some(n) => Some(n@),
                None => None,
            },
        }
    }
}

/// One normalized incoming message.
pub struct IncomingMessage {
    pub conversation_key: String,
    pub source: Option<String>,
    pub timestamp_ms: Option<i64>,
    pub body: String,
}

pub struct MsgView {
    pub conversation_key: Seq<char>,
    pub source: Option<Seq<char>>,
    pub timestamp_ms: Option<i64>,
    pub body: Seq<char>,
}

impl View for IncomingMessage {
    type V = MsgView;

    open spec fn view(&self) -> MsgView {
        MsgView {
            conversation_key: self.conversation_key@,
            source: match self.source {
                Some(n) => Some(n@),
                None => None,
            },
            timestamp_ms: self.timestamp_ms,
            body: self.body@,
        }
    }
}

// ------------------------------------------------------------------
// extraction specification
// ------------------------------------------------------------------
pub open spec fn obj_fields(v: JsonV) -> Option<Seq<(Seq<char>, JsonV)>> {
    match v {
        JsonV::Obj(fs) => Some(fs),
        _ => None,
    }
}

pub open spec fn get_str(fs: Seq<(Seq<char>, JsonV)>, k: Seq<char>) -> Option<Seq<char>> {
    match lookup(fs, k) {
        Some(JsonV::Str(s)) => Some(s),
        _ => None,
    }
}

pub open spec fn get_int(fs: Seq<(Seq<char>, JsonV)>, k: Seq<char>) -> Option<i64> {
    match lookup(fs, k) {
        Some(JsonV::Int(n)) => Some(n),
        _ => None,
    }
}

pub open spec fn key_group_prefix() -> Seq<char> {
    seq!['g', 'r', 'o', 'u', 'p', ':']
}

pub open spec fn key_contact_prefix() -> Seq<char> {
    seq!['c', 'o', 'n', 't', 'a', 'c', 't', ':']
}

/// The fixed bucket for events carrying neither group nor sender.
pub open spec fn unknown_key() -> Seq<char> {
    seq!['u', 'n', 'k', 'n', 'o', 'w', 'n', ':', 'u', 'n', 'k', 'n', 'o', 'w', 'n']
}

/// The message one decoded item stands for, or nothing for items that
/// are not text messages.  Field lookups fall back from the envelope to
/// the top level, and group information takes precedence over the sender
/// when the conversation key is derived.
pub open spec fn msg_of_item(v: JsonV) -> Option<MsgView> {
    match v {
        JsonV::Obj(fs) => {
            let env_fs = match lookup(fs, "envelope"@) {
                Some(JsonV::Obj(efs)) => Some(efs),
                _ => None,
            };
            let ts_env = match env_fs {
                Some(efs) => get_int(efs, "timestamp"@),
                None => None,
            };
            let ts = match ts_env {
                Some(n) => Some(n),
                None => get_int(fs, "timestamp"@),
            };
            let src = match env_fs {
                Some(efs) => match get_str(efs, "sourceNumber"@) {
                    Some(sn) => Some(sn),
                    None => get_str(efs, "source"@),
                },
                None => None,
            };
            let dmv = match env_fs {
                Some(efs) => match lookup(efs, "dataMessage"@) {
                    Some(d) => d,
                    None => match lookup(fs, "dataMessage"@) {
                        Some(d) => d,
                        None => JsonV::Null,
                    },
                },
                None => match lookup(fs, "dataMessage"@) {
                    Some(d) => d,
                    None => JsonV::Null,
                },
            };
            let body = match obj_fields(dmv) {
                Some(dfs) => match get_str(dfs, "message"@) {
                    Some(b) => b,
                    None => Seq::empty(),
                },
                None => Seq::empty(),
            };
            if body.len() == 0 {
                None
            } else {
                let gid = match obj_fields(dmv) {
                    Some(dfs) => match lookup(dfs, "groupInfo"@) {
                        Some(g) => match obj_fields(g) {
                            Some(gfs) => match get_str(gfs, "groupId"@) {
                                Some(x) => Some(x),
                                None => get_str(gfs, "group_id"@),
                            },
                            None => None,
                        },
                        None => None,
                    },
                    None => None,
                };
                let key = match gid {
                    Some(g) => key_group_prefix() + g,
                    None => match src {
                        Some(sn) => key_contact_prefix() + sn,
                        None => unknown_key(),
                    },
                };
                Some(MsgView { conversation_key: key, source: src, timestamp_ms: ts, body })
            }
        },
        _ => None,
    }
}

/// The messages of a decoded receive result: an array's items in order,
/// or the single item itself; items that are not messages are dropped.
pub open spec fn msgs_of_items(items: Seq<JsonV>) -> Seq<MsgView>
    decreases items.len(),
{
    if items.len() == 0 {
        Seq::empty()
    } else {
        let rest = msgs_of_items(items.drop_first());
        match msg_of_item(items[0]) {
            Some(m) => seq![m] + rest,
            None => rest,
        }
    }
}

pub open spec fn msgs_of(v: JsonV) -> Seq<MsgView> {
    match v {
        JsonV::Arr(items) => msgs_of_items(items),
        _ => msgs_of_items(seq![v]),
    }
}


// ------------------------------------------------------------------
// executable extraction
// ------------------------------------------------------------------
/// The conversation key for a group id.
pub fn group_key(gid: &str) -> (r: String)
    ensures
        r@ == key_group_prefix() + gid@,
{
    let mut out: Vec<char> = Vec::new();
    out.push('g');
    out.push('r');
    out.push('o');
    out.push('u');
    out.push('p');
    out.push(':');
    let gv = chars_of(gid);
    let mut k: usize = 0;
    while k < gv.len()
        invariant
            k <= gv@.len(),
            gv@ == gid@,
            out@ == key_group_prefix() + gid@.subrange(0, k as int),
        decreases gv@.len() - k,
    {
        out.push(gv[k]);
        k += 1;
        assert(out@ =~= key_group_prefix() + gid@.subrange(0, k as int));
    }
    assert(out@ =~= key_group_prefix() + gid@);
    string_from_chars(&out)
}

/// The conversation key for a direct contact address.
pub fn contact_key(addr: &str) -> (r: String)
    ensures
        r@ == key_contact_prefix() + addr@,
{
    let mut out: Vec<char> = Vec::new();
    out.push('c');
    out.push('o');
    out.push('n');
    out.push('t');
    out.push('a');
    out.push('c');
    out.push('t');
    out.push(':');
    let av = chars_of(addr);
    let mut k: usize = 0;
    while k < av.len()
        invariant
            k <= av@.len(),
            av@ == addr@,
            out@ == key_contact_prefix() + addr@.subrange(0, k as int),
        decreases av@.len() - k,
    {
        out.push(av[k]);
        k += 1;
        assert(out@ =~= key_contact_prefix() + addr@.subrange(0, k as int));
    }
    assert(out@ =~= key_contact_prefix() + addr@);
    string_from_chars(&out)
}

fn unknown_key_exec() -> (r: String)
    ensures
        r@ == unknown_key(),
{
    let mut out: Vec<char> = Vec::new();
    out.push('u');
    out.push('n');
    out.push('k');
    out.push('n');
    out.push('o');
    out.push('w');
    out.push('n');
    out.push(':');
    out.push('u');
    out.push('n');
    out.push('k');
    out.push('n');
    out.push('o');
    out.push('w');
    out.push('n');
    assert(out@ =~= unknown_key());
    string_from_chars(&out)
}

/// Normalizes one decoded item into a message, if it is one.
#[verifier::rlimit(100)]
fn msg_from_item(j: &Json) -> (r: Option<IncomingMessage>)
    ensures
        match r {
            Some(m) => msg_of_item(jv(*j)) == Some(m@),
            None => msg_of_item(jv(*j)) is None,
        },
{
    let fields = match j {
        Json::Obj(fs) => fs,
        _ => {
            return None;
        },
    };
    proof {
        assert(jv(*j) == JsonV::Obj(crate::json::jv_fields(fields@)));
    }
    let env_fs: Option<&Vec<(String, Json)>> = match crate::json::obj_get(fields, "envelope") {
        Some(Json::Obj(efs)) => Some(efs),
        _ => None,
    };
    let ts_env: Option<i64> = match env_fs {
        Some(efs) => match crate::json::obj_get(efs, "timestamp") {
            Some(Json::Int(n)) => Some(*n),
            _ => None,
        },
        None => None,
    };
    let timestamp_ms: Option<i64> = match ts_env {
        Some(n) => Some(n),
        None => match crate::json::obj_get(fields, "timestamp") {
            Some(Json::Int(n)) => Some(*n),
            _ => None,
        },
    };
    let source: Option<String> = match env_fs {
        Some(efs) => match crate::json::obj_get(efs, "sourceNumber") {
            Some(Json::Str(sn)) => Some(sn.clone()),
            _ => match crate::json::obj_get(efs, "source") {
                Some(Json::Str(sn)) => Some(sn.clone()),
                _ => None,
            },
        },
        None => None,
    };
    let dm: Option<&Json> = match env_fs {
        Some(efs) => match crate::json::obj_get(efs, "dataMessage") {
            Some(d) => Some(d),
            None => crate::json::obj_get(fields, "dataMessage"),
        },
        None => crate::json::obj_get(fields, "dataMessage"),
    };
    let ghost dmv: JsonV = match dm {
        Some(d) => jv(*d),
        None => JsonV::Null,
    };
    let dfs = match dm {
        Some(Json::Obj(dfs)) => Some(dfs),
        _ => None,
    };
    proof {
        assert(obj_fields(dmv) == (match dfs {
            Some(d) => Some(crate::json::jv_fields(d@)),
            None => None::<Seq<(Seq<char>, JsonV)>>,
        }));
    }
    let body: String = match dfs {
        Some(d) => match crate::json::obj_get(d, "message") {
            Some(Json::Str(b)) => b.clone(),
            _ => {
                return None;
            },
        },
        None => {
            return None;
        },
    };
    if body.as_str().is_empty() {
        return None;
    }
    let gid: Option<String> = match dfs {
        Some(d) => match crate::json::obj_get(d, "groupInfo") {
            Some(Json::Obj(gfs)) => match crate::json::obj_get(gfs, "groupId") {
                Some(Json::Str(x)) => Some(x.clone()),
                _ => match crate::json::obj_get(gfs, "group_id") {
                    Some(Json::Str(x)) => Some(x.clone()),
                    _ => None,
                },
            },
            _ => None,
        },
        None => None,
    };
    let conversation_key: String = match &gid {
        Some(g) => group_key(g.as_str()),
        None => match &source {
            Some(sn) => contact_key(sn.as_str()),
            None => unknown_key_exec(),
        },
    };
    Some(IncomingMessage { conversation_key, source, timestamp_ms, body })
}

fn msgs_from_items(items: &Vec<Json>, k: usize) -> (r: Vec<IncomingMessage>)
    requires
        k <= items@.len(),
    ensures
        r@.len() == msgs_of_items(crate::json::jv_seq(items@).skip(k as int)).len(),
        forall|i: int|
            0 <= i < r@.len() ==> (#[trigger] r@[i])@ == msgs_of_items(
                crate::json::jv_seq(items@).skip(k as int),
            )[i],
    decreases items@.len() - k,
{
    proof {
        crate::json::lemma_jv_seq(items@);
    }
    let ghost s = crate::json::jv_seq(items@).skip(k as int);
    if k == items.len() {
        let r: Vec<IncomingMessage> = Vec::new();
        assert(s =~= Seq::<JsonV>::empty());
        r
    } else {
        proof {
            assert(s[0] == crate::json::jv_seq(items@)[k as int]);
            assert(s.drop_first() =~= crate::json::jv_seq(items@).skip(k + 1));
        }
        let mut rest = msgs_from_items(items, k + 1);
        match msg_from_item(&items[k]) {
            Some(m) => {
                let ghost oldr = rest@;
                rest.insert(0, m);
                proof {
                    assert(rest@.drop_first() =~= oldr);
                    assert(rest@[0] == m);
                }
                rest
            },
            None => rest,
        }
    }
}

impl SignalCli {
    /// Decodes the outcome of one bounded receive call into the batch of
    /// normalized messages it carried: failure and undecodable output
    /// become errors, empty output an empty batch.
    pub fn receive_once(&self, outcome: CmdOutcome) -> (r: Result<Vec<IncomingMessage>, CliError>)
        ensures
            !outcome.success ==> (r matches Err(CliError::Process { code, stderr, stdout })
                && code == outcome.code && stderr@ == outcome.stderr@ && stdout@
                == outcome.stdout@),
            outcome.success ==> match two_pass(outcome.stdout@) {
                None => (r matches Err(CliError::Parse { line }) && line@ == first_bad(
                    spec_lines(spec_trim(outcome.stdout@)),
                )),
                Some(None) => (r matches Ok(ms) && ms@.len() == 0),
                Some(Some(v)) => (r matches Ok(ms) && ms@.len() == msgs_of(v).len() && (forall|
                    i: int,
                |
                    0 <= i < ms@.len() ==> (#[trigger] ms@[i])@ == msgs_of(v)[i])),
            },
    {
        if !outcome.success {
            return Err(
                CliError::Process {
                    code: outcome.code,
                    stderr: outcome.stderr,
                    stdout: outcome.stdout,
                },
            );
        }
        match decode_json_output(outcome.stdout.as_str()) {
            Err(e) => Err(e),
            Ok(None) => Ok(Vec::new()),
            Ok(Some(j)) => {
                match &j {
                    Json::Arr(items) => {
                        let ms = msgs_from_items(items, 0);
                        proof {
                            assert(crate::json::jv_seq(items@).skip(0) =~= crate::json::jv_seq(
                                items@,
                            ));
                            assert(jv(j) == JsonV::Arr(crate::json::jv_seq(items@)));
                        }
                        Ok(ms)
                    },
                    _ => {
                        let mut one: Vec<Json> = Vec::new();
                        let ghost jj = jv(j);
                        one.push(j);
                        let ms = msgs_from_items(&one, 0);
                        proof {
                            assert(one@.drop_first() =~= Seq::<Json>::empty());
                            assert(crate::json::jv_seq(Seq::<Json>::empty())
                                == Seq::<JsonV>::empty());
                            assert(crate::json::jv_seq(one@.drop_first()) == Seq::<JsonV>::empty());
                            assert(one@[0] == j);
                            assert(crate::json::jv_seq(one@) == seq![jv(one@[0])]
                                + crate::json::jv_seq(one@.drop_first()));
                            assert(crate::json::jv_seq(one@) =~= seq![jj]);
                            assert(crate::json::jv_seq(one@).skip(0) =~= seq![jj]);
                            assert(msgs_of(jj) == msgs_of_items(seq![jj]));
                        }
                        Ok(ms)
                    },
                }
            },
        }
    }
}


// ------------------------------------------------------------------
// listings
// ------------------------------------------------------------------
/// The account numbers of a decoded listing: an array of objects each
/// carrying a `number` string, or nothing on any other shape.
pub open spec fn accounts_of_items(items: Seq<JsonV>) -> Option<Seq<Seq<char>>>
    decreases items.len(),
{
    if items.len() == 0 {
        Some(Seq::empty())
    } else {
        let num = match obj_fields(items[0]) {
            Some(fs) => get_str(fs, "number"@),
            None => None,
        };
        match num {
            Some(n) => match accounts_of_items(items.drop_first()) {
                Some(rest) => Some(seq![n] + rest),
                None => None,
            },
            None => None,
        }
    }
}

pub open spec fn accounts_of(v: JsonV) -> Option<Seq<Seq<char>>> {
    match v {
        JsonV::Arr(items) => accounts_of_items(items),
        _ => None,
    }
}

/// One raw contact entry: `number` and `name` each a string, null or
/// absent; any other type is a shape error.
pub open spec fn opt_str_field(fs: Seq<(Seq<char>, JsonV)>, k: Seq<char>) -> Option<
    Option<Seq<char>>,
> {
    match lookup(fs, k) {
        None => Some(None),
        Some(JsonV::Null) => Some(None),
        Some(JsonV::Str(s)) => Some(Some(s)),
        Some(_) => None,
    }
}

/// A display name: trimmed, and dropped when blank.
pub open spec fn clean_name(n: Option<Seq<char>>) -> Option<Seq<char>> {
    match n {
        Some(s) => if spec_trim(s).len() == 0 {
            None
        } else {
            Some(spec_trim(s))
        },
        None => None,
    }
}

/// The contacts of a decoded listing; entries without a number are
/// dropped, blank names become absent names.
pub open spec fn contacts_of_items(items: Seq<JsonV>) -> Option<Seq<ContactView>>
    decreases items.len(),
{
    if items.len() == 0 {
        Some(Seq::empty())
    } else {
        match obj_fields(items[0]) {
            Some(fs) => match (opt_str_field(fs, "number"@), opt_str_field(fs, "name"@)) {
                (Some(num), Some(name)) => {
                    let rest = contacts_of_items(items.drop_first());
                    match rest {
                        Some(cs) => match num {
                            Some(n) => Some(
                                seq![ContactView { number: n, name: clean_name(name) }] + cs,
                            ),
                            None => Some(cs),
                        },
                        None => None,
                    }
                },
                _ => None,
            },
            None => None,
        }
    }
}

pub open spec fn contacts_of(v: JsonV) -> Option<Seq<ContactView>> {
    match v {
        JsonV::Arr(items) => contacts_of_items(items),
        _ => None,
    }
}

/// The groups of a decoded listing: entries that are not objects or
/// carry no id are skipped; the id falls back across the namings the
/// tool has used.
pub open spec fn groups_of_items(items: Seq<JsonV>) -> Seq<GroupView>
    decreases items.len(),
{
    if items.len() == 0 {
        Seq::empty()
    } else {
        let rest = groups_of_items(items.drop_first());
        match obj_fields(items[0]) {
            Some(fs) => {
                let id = match get_str(fs, "id"@) {
                    Some(x) => Some(x),
                    None => match get_str(fs, "groupId"@) {
                        Some(x) => Some(x),
                        None => get_str(fs, "group_id"@),
                    },
                };
                match id {
                    Some(i) => seq![
                        GroupView { id: i, name: clean_name(get_str(fs, "name"@)) },
                    ] + rest,
                    None => rest,
                }
            },
            None => rest,
        }
    }
}

pub open spec fn groups_of(v: JsonV) -> Option<Seq<GroupView>> {
    match v {
        JsonV::Arr(items) => Some(groups_of_items(items)),
        _ => None,
    }
}

/// Trims a name and drops it when blank.
fn clean_name_exec(n: Option<&String>) -> (r: Option<String>)
    ensures
        (match r {
            Some(s) => Some(s@),
            None => None,
        }) == clean_name(match n {
            Some(s) => Some(s@),
            None => None,
        }),
{
    match n {
        Some(s) => {
            let cv = chars_of(s.as_str());
            let tv = crate::text::trim_chars(&cv);
            if tv.len() == 0 {
                None
            } else {
                Some(string_from_chars(&tv))
            }
        },
        None => None,
    }
}

fn accounts_from_items(items: &Vec<Json>, k: usize) -> (r: Option<Vec<String>>)
    requires
        k <= items@.len(),
    ensures
        match r {
            Some(ns) => accounts_of_items(crate::json::jv_seq(items@).skip(k as int)) matches Some(
                sns,
            ) && ns@.len() == sns.len() && (forall|i: int|
                0 <= i < ns@.len() ==> (#[trigger] ns@[i])@ == sns[i]),
            None => accounts_of_items(crate::json::jv_seq(items@).skip(k as int)) is None,
        },
    decreases items@.len() - k,
{
    proof {
        crate::json::lemma_jv_seq(items@);
    }
    let ghost s = crate::json::jv_seq(items@).skip(k as int);
    if k == items.len() {
        assert(s =~= Seq::<JsonV>::empty());
        Some(Vec::new())
    } else {
        proof {
            assert(s[0] == crate::json::jv_seq(items@)[k as int]);
            assert(s.drop_first() =~= crate::json::jv_seq(items@).skip(k + 1));
        }
        let num: Option<String> = match &items[k] {
            Json::Obj(fs) => match crate::json::obj_get(fs, "number") {
                Some(Json::Str(n)) => Some(n.clone()),
                _ => None,
            },
            _ => None,
        };
        match num {
            Some(n) => match accounts_from_items(items, k + 1) {
                Some(mut rest) => {
                    let ghost oldr = rest@;
                    rest.insert(0, n);
                    proof {
                        assert(rest@.drop_first() =~= oldr);
                    }
                    Some(rest)
                },
                None => None,
            },
            None => None,
        }
    }
}

fn contacts_from_items(items: &Vec<Json>, k: usize) -> (r: Option<Vec<Contact>>)
    requires
        k <= items@.len(),
    ensures
        match r {
            Some(cs) => contacts_of_items(crate::json::jv_seq(items@).skip(k as int)) matches Some(
                scs,
            ) && cs@.len() == scs.len() && (forall|i: int|
                0 <= i < cs@.len() ==> (#[trigger] cs@[i])@ == scs[i]),
            None => contacts_of_items(crate::json::jv_seq(items@).skip(k as int)) is None,
        },
    decreases items@.len() - k,
{
    proof {
        crate::json::lemma_jv_seq(items@);
    }
    let ghost s = crate::json::jv_seq(items@).skip(k as int);
    if k == items.len() {
        assert(s =~= Seq::<JsonV>::empty());
        Some(Vec::new())
    } else {
        proof {
            assert(s[0] == crate::json::jv_seq(items@)[k as int]);
            assert(s.drop_first() =~= crate::json::jv_seq(items@).skip(k + 1));
        }
        let fs = match &items[k] {
            Json::Obj(fs) => fs,
            _ => {
                return None;
            },
        };
        let num: Option<Option<String>> = match crate::json::obj_get(fs, "number") {
            None => Some(None),
            Some(Json::Null) => Some(None),
            Some(Json::Str(n)) => Some(Some(n.clone())),
            Some(_) => None,
        };
        let name: Option<Option<String>> = match crate::json::obj_get(fs, "name") {
            None => Some(None),
            Some(Json::Null) => Some(None),
            Some(Json::Str(n)) => Some(Some(n.clone())),
            Some(_) => None,
        };
        let (num, name) = match (num, name) {
            (Some(a), Some(b)) => (a, b),
            _ => {
                return None;
            },
        };
        match contacts_from_items(items, k + 1) {
            Some(mut rest) => {
                match num {
                    Some(n) => {
                        let cname = clean_name_exec(name.as_ref());
                        let ghost oldr = rest@;
                        rest.insert(0, Contact { number: n, name: cname });
                        proof {
                            assert(rest@.drop_first() =~= oldr);
                        }
                        Some(rest)
                    },
                    None => Some(rest),
                }
            },
            None => None,
        }
    }
}

fn groups_from_items(items: &Vec<Json>, k: usize) -> (r: Vec<Group>)
    requires
        k <= items@.len(),
    ensures
        r@.len() == groups_of_items(crate::json::jv_seq(items@).skip(k as int)).len(),
        forall|i: int|
            0 <= i < r@.len() ==> (#[trigger] r@[i])@ == groups_of_items(
                crate::json::jv_seq(items@).skip(k as int),
            )[i],
    decreases items@.len() - k,
{
    proof {
        crate::json::lemma_jv_seq(items@);
    }
    let ghost s = crate::json::jv_seq(items@).skip(k as int);
    if k == items.len() {
        assert(s =~= Seq::<JsonV>::empty());
        Vec::new()
    } else {
        proof {
            assert(s[0] == crate::json::jv_seq(items@)[k as int]);
            assert(s.drop_first() =~= crate::json::jv_seq(items@).skip(k + 1));
        }
        let mut rest = groups_from_items(items, k + 1);
        let fs = match &items[k] {
            Json::Obj(fs) => fs,
            _ => {
                return rest;
            },
        };
        let id: Option<String> = match crate::json::obj_get(fs, "id") {
            Some(Json::Str(x)) => Some(x.clone()),
            _ => match crate::json::obj_get(fs, "groupId") {
                Some(Json::Str(x)) => Some(x.clone()),
                _ => match crate::json::obj_get(fs, "group_id") {
                    Some(Json::Str(x)) => Some(x.clone()),
                    _ => None,
                },
            },
        };
        match id {
            Some(i) => {
                let name: Option<String> = match crate::json::obj_get(fs, "name") {
                    Some(Json::Str(n)) => Some(n.clone()),
                    _ => None,
                };
                let cname = clean_name_exec(name.as_ref());
                let ghost oldr = rest@;
                rest.insert(0, Group { id: i, name: cname });
                proof {
                    assert(rest@.drop_first() =~= oldr);
                }
                rest
            },
            None => rest,
        }
    }
}


impl SignalCli {
    /// Decodes an account-listing outcome into the account numbers.
    pub fn list_accounts(&self, outcome: CmdOutcome) -> (r: Result<Vec<String>, CliError>)
        ensures
            !outcome.success ==> (r matches Err(CliError::Process { code, stderr, stdout })
                && code == outcome.code && stderr@ == outcome.stderr@ && stdout@
                == outcome.stdout@),
            outcome.success ==> match two_pass(outcome.stdout@) {
                None => (r matches Err(CliError::Parse { line }) && line@ == first_bad(
                    spec_lines(spec_trim(outcome.stdout@)),
                )),
                Some(None) => (r matches Ok(ns) && ns@.len() == 0),
                Some(Some(v)) => match accounts_of(v) {
                    Some(sns) => (r matches Ok(ns) && ns@.len() == sns.len() && (forall|i: int|
                        0 <= i < ns@.len() ==> (#[trigger] ns@[i])@ == sns[i])),
                    None => r matches Err(CliError::Shape {  }),
                },
            },
    {
        if !outcome.success {
            return Err(
                CliError::Process {
                    code: outcome.code,
                    stderr: outcome.stderr,
                    stdout: outcome.stdout,
                },
            );
        }
        match decode_json_output(outcome.stdout.as_str()) {
            Err(e) => Err(e),
            Ok(None) => Ok(Vec::new()),
            Ok(Some(j)) => match &j {
                Json::Arr(items) => {
                    proof {
                        assert(crate::json::jv_seq(items@).skip(0) =~= crate::json::jv_seq(
                            items@,
                        ));
                        assert(jv(j) == JsonV::Arr(crate::json::jv_seq(items@)));
                    }
                    match accounts_from_items(items, 0) {
                        Some(ns) => Ok(ns),
                        None => Err(CliError::Shape {  }),
                    }
                },
                _ => Err(CliError::Shape {  }),
            },
        }
    }

    /// Decodes a contact-listing outcome into contacts; entries without
    /// a number are dropped and blank names become absent.
    pub fn list_contacts(&self, outcome: CmdOutcome) -> (r: Result<Vec<Contact>, CliError>)
        ensures
            !outcome.success ==> (r matches Err(CliError::Process { code, stderr, stdout })
                && code == outcome.code && stderr@ == outcome.stderr@ && stdout@
                == outcome.stdout@),
            outcome.success ==> match two_pass(outcome.stdout@) {
                None => (r matches Err(CliError::Parse { line }) && line@ == first_bad(
                    spec_lines(spec_trim(outcome.stdout@)),
                )),
                Some(None) => (r matches Ok(cs) && cs@.len() == 0),
                Some(Some(v)) => match contacts_of(v) {
                    Some(scs) => (r matches Ok(cs) && cs@.len() == scs.len() && (forall|i: int|
                        0 <= i < cs@.len() ==> (#[trigger] cs@[i])@ == scs[i])),
                    None => r matches Err(CliError::Shape {  }),
                },
            },
    {
        if !outcome.success {
            return Err(
                CliError::Process {
                    code: outcome.code,
                    stderr: outcome.stderr,
                    stdout: outcome.stdout,
                },
            );
        }
        match decode_json_output(outcome.stdout.as_str()) {
            Err(e) => Err(e),
            Ok(None) => Ok(Vec::new()),
            Ok(Some(j)) => match &j {
                Json::Arr(items) => {
                    proof {
                        assert(crate::json::jv_seq(items@).skip(0) =~= crate::json::jv_seq(
                            items@,
                        ));
                        assert(jv(j) == JsonV::Arr(crate::json::jv_seq(items@)));
                    }
                    match contacts_from_items(items, 0) {
                        Some(cs) => Ok(cs),
                        None => Err(CliError::Shape {  }),
                    }
                },
                _ => Err(CliError::Shape {  }),
            },
        }
    }

    /// Decodes a group-listing outcome into groups; entries that are not
    /// objects or carry no id are skipped.
    pub fn list_groups(&self, outcome: CmdOutcome) -> (r: Result<Vec<Group>, CliError>)
        ensures
            !outcome.success ==> (r matches Err(CliError::Process { code, stderr, stdout })
                && code == outcome.code && stderr@ == outcome.stderr@ && stdout@
                == outcome.stdout@),
            outcome.success ==> match two_pass(outcome.stdout@) {
                None => (r matches Err(CliError::Parse { line }) && line@ == first_bad(
                    spec_lines(spec_trim(outcome.stdout@)),
                )),
                Some(None) => (r matches Ok(gs) && gs@.len() == 0),
                Some(Some(v)) => match groups_of(v) {
                    Some(sgs) => (r matches Ok(gs) && gs@.len() == sgs.len() && (forall|i: int|
                        0 <= i < gs@.len() ==> (#[trigger] gs@[i])@ == sgs[i])),
                    None => r matches Err(CliError::Shape {  }),
                },
            },
    {
        if !outcome.success {
            return Err(
                CliError::Process {
                    code: outcome.code,
                    stderr: outcome.stderr,
                    stdout: outcome.stdout,
                },
            );
        }
        match decode_json_output(outcome.stdout.as_str()) {
            Err(e) => Err(e),
            Ok(None) => Ok(Vec::new()),
            Ok(Some(j)) => match &j {
                Json::Arr(items) => {
                    proof {
                        assert(crate::json::jv_seq(items@).skip(0) =~= crate::json::jv_seq(
                            items@,
                        ));
                        assert(jv(j) == JsonV::Arr(crate::json::jv_seq(items@)));
                    }
                    Ok(groups_from_items(items, 0))
                },
                _ => Err(CliError::Shape {  }),
            },
        }
    }
}

} // verus!
