//! The session state machine: the single owner of the conversation
//! list, per-conversation message buffers, unread counters and the
//! interaction mode.  It consumes ingestion batches and user input
//! events, and returns the actions (sends, persistence writes,
//! notifications) for the surrounding application to perform.
use vstd::prelude::*;

use crate::scrollback::{RecView, ScrollbackRecord};
use crate::signal_cli::{key_contact_prefix, key_group_prefix, IncomingMessage, MsgView};
use crate::text::{chars_of, lex_le, string_from_chars};
use vstd::multiset::Multiset;

verus! {

/// The interaction modes: browsing, composing a message, or entering a
/// new recipient address.
#[derive(Clone, Copy, Debug, PartialEq, Eq, Structural)]
pub enum Mode {
    Normal,
    Insert,
    AddRecipient,
}

#[derive(Clone, Copy, Debug, PartialEq, Eq, Structural)]
pub enum TargetKind {
    Contact,
    Group,
}

/// One conversation: its stable key, kind, protocol address and display
/// name.
#[derive(Debug, Clone)]
pub struct Target {
    pub conversation_key: String,
    pub kind: TargetKind,
    pub addr: String,
    pub display: String,
}

pub struct TargetView {
    pub conversation_key: Seq<char>,
    pub kind: TargetKind,
    pub addr: Seq<char>,
    pub display: Seq<char>,
}

impl View for Target {
    type V = TargetView;

    open spec fn view(&self) -> TargetView {
        TargetView {
            conversation_key: self.conversation_key@,
            kind: self.kind,
            addr: self.addr@,
            display: self.display@,
        }
    }
}

#[derive(Clone, Copy, Debug, PartialEq, Eq, Structural)]
pub enum MsgDir {
    In,
    Out,
}

/// One message in an in-memory conversation buffer.
#[derive(Debug, Clone)]
pub struct ChatMessage {
    pub ts_ms: Option<i64>,
    pub dir: MsgDir,
    pub who: Option<String>,
    pub body: String,
}

pub struct ChatMessageView {
    pub ts_ms: Option<i64>,
    pub dir: MsgDir,
    pub who: Option<Seq<char>>,
    pub body: Seq<char>,
}

impl View for ChatMessage {
    type V = ChatMessageView;

    open spec fn view(&self) -> ChatMessageView {
        ChatMessageView {
            ts_ms: self.ts_ms,
            dir: self.dir,
            who: match self.who {
                Some(w) => Some(w@),
                None => None,
            },
            body: self.body@,
        }
    }
}

/// The name of what `str::to_lowercase` returns: it depends on the
/// characters alone.
pub uninterp spec fn lower_of(s: Seq<char>) -> Seq<char>;

/// Relies on str::to_lowercase: the result is a function of the
/// characters alone.
#[verifier::external_body]
fn lowercase(s: &str) -> (r: String)
    ensures
        r@ == lower_of(s@),
{
    s.to_lowercase()
}

// ------------------------------------------------------------------
// association-list helpers
// ------------------------------------------------------------------
/// First entry with the given key among unread counters.
pub open spec fn find_unread(u: Seq<(Seq<char>, int)>, k: Seq<char>) -> Option<int>
    decreases u.len(),
{
    if u.len() == 0 {
        None
    } else if u[0].0 == k {
        Some(u[0].1)
    } else {
        find_unread(u.drop_first(), k)
    }
}

/// First buffer with the given key.
pub open spec fn find_buffer(
    bs: Seq<(Seq<char>, Seq<ChatMessageView>)>,
    k: Seq<char>,
) -> Option<Seq<ChatMessageView>>
    decreases bs.len(),
{
    if bs.len() == 0 {
        None
    } else if bs[0].0 == k {
        Some(bs[0].1)
    } else {
        find_buffer(bs.drop_first(), k)
    }
}

/// First target with the given conversation key.
pub open spec fn find_target(ts: Seq<TargetView>, k: Seq<char>) -> Option<TargetView>
    decreases ts.len(),
{
    if ts.len() == 0 {
        None
    } else if ts[0].conversation_key == k {
        Some(ts[0])
    } else {
        find_target(ts.drop_first(), k)
    }
}

/// The unread counters with the entry for `k` raised by one (saturating
/// at the machine bound), or a fresh entry of one appended.
pub open spec fn bump_unread(u: Seq<(Seq<char>, int)>, k: Seq<char>) -> Seq<(Seq<char>, int)>
    decreases u.len(),
{
    if u.len() == 0 {
        seq![(k, 1int)]
    } else if u[0].0 == k {
        seq![(u[0].0, if u[0].1 < usize::MAX { u[0].1 + 1 } else { u[0].1 })] + u.drop_first()
    } else {
        seq![u[0]] + bump_unread(u.drop_first(), k)
    }
}

/// The unread counters with the entry for `k` removed.
pub open spec fn drop_unread(u: Seq<(Seq<char>, int)>, k: Seq<char>) -> Seq<(Seq<char>, int)>
    decreases u.len(),
{
    if u.len() == 0 {
        Seq::empty()
    } else if u[0].0 == k {
        u.drop_first()
    } else {
        seq![u[0]] + drop_unread(u.drop_first(), k)
    }
}

/// The buffers with `m` appended to the buffer for `k`, which is created
/// if missing.
pub open spec fn push_buffer(
    bs: Seq<(Seq<char>, Seq<ChatMessageView>)>,
    k: Seq<char>,
    m: ChatMessageView,
) -> Seq<(Seq<char>, Seq<ChatMessageView>)>
    decreases bs.len(),
{
    if bs.len() == 0 {
        seq![(k, seq![m])]
    } else if bs[0].0 == k {
        seq![(bs[0].0, bs[0].1.push(m))] + bs.drop_first()
    } else {
        seq![bs[0]] + push_buffer(bs.drop_first(), k, m)
    }
}

/// Unique keys among unread counters.
pub open spec fn unread_keys_unique(u: Seq<(Seq<char>, int)>) -> bool {
    forall|i: int, j: int| 0 <= i < j < u.len() ==> u[i].0 != u[j].0
}

pub open spec fn buffer_keys_unique(bs: Seq<(Seq<char>, Seq<ChatMessageView>)>) -> bool {
    forall|i: int, j: int| 0 <= i < j < bs.len() ==> bs[i].0 != bs[j].0
}

// ------------------------------------------------------------------
// the state
// ------------------------------------------------------------------
/// The authoritative session state.
pub struct App {
    pub account: String,
    pub save_scrollback: bool,
    pub notify_send: bool,
    pub mode: Mode,
    pub targets: Vec<Target>,
    pub selected: usize,
    pub pending_g: bool,
    pub unread: Vec<(String, usize)>,
    pub title_dirty: bool,
    pub input: Vec<char>,
    pub status: String,
    pub messages: Vec<(String, Vec<ChatMessage>)>,
}

/// The unread counters as an association sequence.
pub open spec fn unread_view_of(u: Seq<(String, usize)>) -> Seq<(Seq<char>, int)> {
    Seq::new(u.len(), |i: int| (u[i].0@, u[i].1 as int))
}

/// The message buffers as an association sequence.
pub open spec fn buffers_view_of(ms: Seq<(String, Vec<ChatMessage>)>) -> Seq<
    (Seq<char>, Seq<ChatMessageView>),
> {
    Seq::new(
        ms.len(),
        |i: int| (ms[i].0@, Seq::new(ms[i].1@.len(), |j: int| ms[i].1@[j]@)),
    )
}

impl App {
    /// Views of the target list.
    pub open spec fn targets_view(&self) -> Seq<TargetView> {
        Seq::new(self.targets@.len(), |i: int| self.targets@[i]@)
    }

    /// The unread counters as an association sequence.
    pub open spec fn unread_view(&self) -> Seq<(Seq<char>, int)> {
        unread_view_of(self.unread@)
    }

    /// The message buffers as an association sequence.
    pub open spec fn buffers_view(&self) -> Seq<(Seq<char>, Seq<ChatMessageView>)> {
        buffers_view_of(self.messages@)
    }

    /// Selection is in range whenever any target exists.
    pub open spec fn wf(&self) -> bool {
        &&& (self.targets@.len() == 0 ==> self.selected == 0)
        &&& (self.targets@.len() > 0 ==> (self.selected as int) < self.targets@.len())
        &&& unread_keys_unique(self.unread_view())
        &&& buffer_keys_unique(self.buffers_view())
    }

    /// The key of the selected conversation, if any.
    pub open spec fn selected_key(&self) -> Option<Seq<char>> {
        if self.targets@.len() > 0 {
            Some(self.targets@[self.selected as int]@.conversation_key)
        } else {
            None
        }
    }

    /// A fresh session around the given account.
    pub fn new_session(account: String, save_scrollback: bool, notify_send: bool, status: String)
        -> (r: App)
        ensures
            r.wf(),
            r.account@ == account@,
            r.save_scrollback == save_scrollback,
            r.notify_send == notify_send,
            r.mode == Mode::Normal,
            r.targets@.len() == 0,
            r.unread@.len() == 0,
            r.messages@.len() == 0,
            r.input@.len() == 0,
            r.status@ == status@,
    {
        let r = App {
            account,
            save_scrollback,
            notify_send,
            mode: Mode::Normal,
            targets: Vec::new(),
            selected: 0,
            pending_g: false,
            unread: Vec::new(),
            title_dirty: true,
            input: Vec::new(),
            status,
            messages: Vec::new(),
        };
        proof {
            assert(r.unread_view() =~= Seq::<(Seq<char>, int)>::empty());
            assert(r.buffers_view() =~= Seq::<(Seq<char>, Seq<ChatMessageView>)>::empty());
        }
        r
    }

    /// The selected target, when one exists.
    pub fn selected_target(&self) -> (r: Option<&Target>)
        requires
            self.wf(),
        ensures
            match r {
                Some(t) => self.targets@.len() > 0 && t@ == self.targets@[self.selected as int]@,
                None => self.targets@.len() == 0,
            },
    {
        if self.targets.len() == 0 {
            None
        } else {
            Some(&self.targets[self.selected])
        }
    }

    /// Clears the unread counter of the selected conversation; every
    /// other conversation's counter is untouched.
    pub fn mark_selected_read(&mut self)
        requires
            old(self).wf(),
        ensures
            final(self).wf(),
            final(self).unread_view() == (match old(self).selected_key() {
                Some(k) => drop_unread(old(self).unread_view(), k),
                None => old(self).unread_view(),
            }),
            final(self).targets@ == old(self).targets@,
            final(self).selected == old(self).selected,
            final(self).buffers_view() == old(self).buffers_view(),
            final(self).mode == old(self).mode,
            final(self).input@ == old(self).input@,
            final(self).status@ == old(self).status@,
            final(self).account@ == old(self).account@,
            final(self).pending_g == old(self).pending_g,
            final(self).save_scrollback == old(self).save_scrollback,
            final(self).notify_send == old(self).notify_send,
    {
        if self.targets.len() == 0 {
            return ;
        }
        let ghost k = self.selected_key()->0;
        let ghost u0 = self.unread_view();
        let key = self.targets[self.selected].conversation_key.clone();
        match find_unread_index(&self.unread, key.as_str()) {
            Some(i) => {
                let ghost old_unread = self.unread@;
                self.unread.remove(i);
                self.title_dirty = true;
                proof {
                    lemma_drop_unread_at(u0, k, i as int);
                    assert(self.unread_view() =~= u0.remove(i as int));
                }
            },
            None => {
                proof {
                    lemma_drop_unread_absent(u0, k);
                }
            },
        }
    }
}

/// The index of the first unread entry with the given key.
fn find_unread_index(u: &Vec<(String, usize)>, key: &str) -> (r: Option<usize>)
    ensures
        match r {
            Some(i) => i < u@.len() && u@[i as int].0@ == key@ && (forall|t: int|
                0 <= t < i ==> (#[trigger] u@[t]).0@ != key@),
            None => forall|t: int| 0 <= t < u@.len() ==> (#[trigger] u@[t]).0@ != key@,
        },
{
    let mut i: usize = 0;
    while i < u.len()
        invariant
            i <= u@.len(),
            forall|t: int| 0 <= t < i ==> (#[trigger] u@[t]).0@ != key@,
        decreases u@.len() - i,
    {
        if crate::text::str_eq(u[i].0.as_str(), key) {
            return Some(i);
        }
        i += 1;
    }
    None
}

/// Removing a key present first at `i` removes exactly that entry.
proof fn lemma_drop_unread_at(u: Seq<(Seq<char>, int)>, k: Seq<char>, i: int)
    requires
        0 <= i < u.len(),
        u[i].0 == k,
        forall|t: int| 0 <= t < i ==> u[t].0 != k,
    ensures
        drop_unread(u, k) == u.remove(i),
    decreases i,
{
    if i == 0 {
        assert(drop_unread(u, k) == u.drop_first());
        assert(u.remove(0) =~= u.drop_first());
    } else {
        assert(u.drop_first()[i - 1].0 == k);
        lemma_drop_unread_at(u.drop_first(), k, i - 1);
        assert(seq![u[0]] + u.drop_first().remove(i - 1) =~= u.remove(i));
    }
}

/// Removing an absent key changes nothing.
proof fn lemma_drop_unread_absent(u: Seq<(Seq<char>, int)>, k: Seq<char>)
    requires
        forall|t: int| 0 <= t < u.len() ==> u[t].0 != k,
    ensures
        drop_unread(u, k) == u,
    decreases u.len(),
{
    if u.len() > 0 {
        assert(forall|t: int|
            0 <= t < u.drop_first().len() ==> (#[trigger] u.drop_first()[t]) == u[t + 1]);
        lemma_drop_unread_absent(u.drop_first(), k);
        assert(seq![u[0]] + u.drop_first() =~= u);
    }
}

/// Clearing one conversation's unread entry reads back as zero for that
/// conversation and leaves every other conversation's count unchanged.
pub proof fn lemma_find_drop_unread(u: Seq<(Seq<char>, int)>, k: Seq<char>, q: Seq<char>)
    requires
        unread_keys_unique(u),
    ensures
        find_unread(drop_unread(u, k), k) is None,
        q != k ==> find_unread(drop_unread(u, k), q) == find_unread(u, q),
    decreases u.len(),
{
    if u.len() > 0 {
        assert(forall|i: int, j: int|
            0 <= i < j < u.drop_first().len() ==> (#[trigger] u.drop_first()[i]).0 != (
            #[trigger] u.drop_first()[j]).0) by {
            assert(forall|t: int|
                0 <= t < u.drop_first().len() ==> (#[trigger] u.drop_first()[t]) == u[t + 1]);
        }
        lemma_find_drop_unread(u.drop_first(), k, q);
        if u[0].0 == k {
            assert(forall|t: int| 0 <= t < u.drop_first().len() ==> u.drop_first()[t].0 != k) by {
                assert(forall|t: int|
                    0 <= t < u.drop_first().len() ==> (#[trigger] u.drop_first()[t]) == u[t + 1]);
            }
            lemma_find_absent(u.drop_first(), k);
        } else {
            let d = drop_unread(u, k);
            assert(d == seq![u[0]] + drop_unread(u.drop_first(), k));
            assert(d[0] == u[0]);
            assert(d.drop_first() =~= drop_unread(u.drop_first(), k));
        }
    }
}

proof fn lemma_find_absent(u: Seq<(Seq<char>, int)>, k: Seq<char>)
    requires
        forall|t: int| 0 <= t < u.len() ==> u[t].0 != k,
    ensures
        find_unread(u, k) is None,
    decreases u.len(),
{
    if u.len() > 0 {
        assert(forall|t: int|
            0 <= t < u.drop_first().len() ==> (#[trigger] u.drop_first()[t]) == u[t + 1]);
        lemma_find_absent(u.drop_first(), k);
    }
}

/// A valid recipient address: international format, a leading plus and
/// a minimum length.
pub fn validate_recipient(s: &str) -> (r: bool)
    ensures
        r == (s@.len() >= 8 && s@[0] == '+'),
{
    let cv = chars_of(s);
    cv.len() >= 8 && cv[0] == '+'
}


// ------------------------------------------------------------------
// ingestion
// ------------------------------------------------------------------
/// The model of the state an ingest batch acts on, together with the
/// effects it emits: lines to persist and notifications to deliver.
pub struct Ingested {
    pub targets: Seq<TargetView>,
    pub unread: Seq<(Seq<char>, int)>,
    pub buffers: Seq<(Seq<char>, Seq<ChatMessageView>)>,
    pub appends: Seq<(Seq<char>, RecView)>,
    pub notes: Seq<(Seq<char>, Seq<char>, Seq<char>)>,
}

/// The target synthesized for an unknown conversation key, derived from
/// the key's namespace; keys in neither namespace yield none, and such
/// messages are dropped.
pub open spec fn msg_target(key: Seq<char>) -> Option<TargetView> {
    if key_group_prefix().is_prefix_of(key) {
        let rest = key.skip(key_group_prefix().len() as int);
        Some(
            TargetView {
                conversation_key: key,
                kind: TargetKind::Group,
                addr: rest,
                display: seq!['g', 'r', 'o', 'u', 'p', ' '] + rest,
            },
        )
    } else if key_contact_prefix().is_prefix_of(key) {
        let rest = key.skip(key_contact_prefix().len() as int);
        Some(
            TargetView {
                conversation_key: key,
                kind: TargetKind::Contact,
                addr: rest,
                display: rest,
            },
        )
    } else {
        None
    }
}

/// A notification body: at most 200 characters, with an ellipsis when
/// cut.
pub open spec fn truncate_note(b: Seq<char>) -> Seq<char> {
    if b.len() > 200 {
        b.subrange(0, 200) + seq!['.', '.', '.']
    } else {
        b
    }
}

pub open spec fn in_msg(m: MsgView) -> ChatMessageView {
    ChatMessageView { ts_ms: m.timestamp_ms, dir: MsgDir::In, who: m.source, body: m.body }
}

pub open spec fn in_rec(m: MsgView) -> RecView {
    RecView { ts_ms: m.timestamp_ms, dir: seq!['i', 'n'], who: m.source, body: m.body }
}

/// How one inbound message changes the state: an unknown conversation
/// gains a synthesized target, a conversation other than the selected
/// one gains an unread count, the record is queued for persistence, a
/// notification is queued, and the message joins its buffer.
pub open spec fn ingest_one(
    st: Ingested,
    selkey: Option<Seq<char>>,
    save: bool,
    notify: bool,
    m: MsgView,
) -> Ingested {
    let known = find_target(st.targets, m.conversation_key) is Some;
    if !known && msg_target(m.conversation_key) is None {
        st
    } else {
        let targets = if known {
            st.targets
        } else {
            st.targets.push(msg_target(m.conversation_key)->0)
        };
        let unread = if selkey != Some(m.conversation_key) {
            bump_unread(st.unread, m.conversation_key)
        } else {
            st.unread
        };
        let appends = if save {
            st.appends.push((m.conversation_key, in_rec(m)))
        } else {
            st.appends
        };
        let notes = if notify {
            let disp = match find_target(targets, m.conversation_key) {
                Some(t) => t.display,
                None => m.conversation_key,
            };
            let from = match m.source {
                Some(sn) => sn,
                None => seq!['u', 'n', 'k', 'n', 'o', 'w', 'n'],
            };
            st.notes.push((disp, from, truncate_note(m.body)))
        } else {
            st.notes
        };
        let buffers = push_buffer(st.buffers, m.conversation_key, in_msg(m));
        Ingested { targets, unread, buffers, appends, notes }
    }
}

pub open spec fn ingest_all(
    st: Ingested,
    selkey: Option<Seq<char>>,
    save: bool,
    notify: bool,
    msgs: Seq<MsgView>,
) -> Ingested
    decreases msgs.len(),
{
    if msgs.len() == 0 {
        st
    } else {
        ingest_all(ingest_one(st, selkey, save, notify, msgs[0]), selkey, save, notify, msgs.drop_first())
    }
}

pub open spec fn msg_views(ms: Seq<IncomingMessage>) -> Seq<MsgView> {
    Seq::new(ms.len(), |i: int| ms[i]@)
}

pub open spec fn tviews(ts: Seq<Target>) -> Seq<TargetView> {
    Seq::new(ts.len(), |i: int| ts[i]@)
}

/// Targets in case-insensitive display order.
pub open spec fn sorted_by_display(ts: Seq<TargetView>) -> bool {
    forall|i: int, j: int|
        0 <= i < j < ts.len() ==> lex_le(lower_of(ts[i].display), lower_of(ts[j].display))
}

/// Whether the first target sorts at or before the second.
fn disp_le(a: &Target, b: &Target) -> (r: bool)
    ensures
        r == lex_le(lower_of(a@.display), lower_of(b@.display)),
{
    let la = lowercase(a.display.as_str());
    let lb = lowercase(b.display.as_str());
    let ca = chars_of(la.as_str());
    let cb = chars_of(lb.as_str());
    crate::text::lex_le_exec(&ca, &cb)
}

/// Sorts targets by case-insensitive display name; the result holds the
/// same targets.
fn sort_targets(ts: Vec<Target>) -> (r: Vec<Target>)
    ensures
        tviews(r@).to_multiset() == tviews(ts@).to_multiset(),
        sorted_by_display(tviews(r@)),
        r@.len() == ts@.len(),
{
    broadcast use vstd::seq_lib::group_to_multiset_ensures;

    let mut out: Vec<Target> = Vec::new();
    let mut src = ts;
    proof {
        assert(tviews(out@) =~= Seq::<TargetView>::empty());
        assert(tviews(out@).to_multiset() =~= Multiset::<TargetView>::empty());
        assert(tviews(src@) =~= tviews(src@));
    }
    while src.len() > 0
        invariant
            tviews(out@).to_multiset().add(tviews(src@).to_multiset()) == tviews(ts@)
                .to_multiset(),
            sorted_by_display(tviews(out@)),
            out@.len() + src@.len() == ts@.len(),
        decreases src@.len(),
    {
        let ghost src0 = src@;
        let x = src.remove(0);
        proof {
            broadcast use vstd::seq_lib::group_to_multiset_ensures;

            assert(src@ =~= src0.drop_first());
            assert(tviews(src0).remove(0) =~= tviews(src@));
            assert(tviews(src0)[0] == x@);
            assert(tviews(src0).remove(0).to_multiset() =~= tviews(src0).to_multiset().remove(
                x@,
            ));
            assert(tviews(src0).to_multiset().count(x@) > 0) by {
                assert(tviews(src0).contains(x@));
            }
        }
        let pos = insert_position(&out, &x);
        let ghost out0 = out@;
        out.insert(pos, x);
        proof {
            broadcast use vstd::seq_lib::group_to_multiset_ensures;

            assert(out@.remove(pos as int) =~= out0);
            assert(tviews(out@).remove(pos as int) =~= tviews(out0));
            assert(tviews(out@)[pos as int] == x@);
            assert(tviews(out@).contains(x@));
            assert(tviews(out@).to_multiset().remove(x@) =~= tviews(out0).to_multiset());
            assert(tviews(out@).to_multiset() =~= tviews(out0).to_multiset().insert(x@)) by {
                let m1 = tviews(out@).to_multiset();
                let m2 = tviews(out0).to_multiset().insert(x@);
                assert forall|y: TargetView| m1.count(y) == m2.count(y) by {
                    if y == x@ {
                        assert(m1.count(x@) > 0);
                        assert(m1.remove(x@).count(x@) == m1.count(x@) - 1);
                    } else {
                        assert(m1.remove(x@).count(y) == m1.count(y));
                    }
                }
            }
            assert(tviews(out0).to_multiset().insert(x@).add(tviews(src@).to_multiset()) =~= tviews(
                out0,
            ).to_multiset().add(tviews(src0).to_multiset()));
            assert(sorted_by_display(tviews(out@))) by {
                let tv = tviews(out@);
                let tv0 = tviews(out0);
                assert forall|i: int, j: int|
                    0 <= i < j < tv.len() implies lex_le(
                    lower_of(tv[i].display),
                    lower_of(tv[j].display),
                ) by {
                    if i < pos as int && j == pos as int {
                        assert(tv[i] == tv0[i]);
                    } else if i == pos as int && j > pos as int {
                        assert(tv[j] == tv0[j - 1]);
                        assert(pos <= j - 1 < tv0.len());
                        assert(lex_le(lower_of(x@.display), lower_of(tv0[j - 1].display)));
                    } else if i < pos as int && j > pos as int {
                        assert(tv[i] == tv0[i] && tv[j] == tv0[j - 1]);
                    } else if j < pos as int {
                        assert(tv[i] == tv0[i] && tv[j] == tv0[j]);
                    } else if i > pos as int {
                        assert(tv[i] == tv0[i - 1] && tv[j] == tv0[j - 1]);
                    }
                }
            }
        }
    }
    proof {
        broadcast use vstd::seq_lib::group_to_multiset_ensures;

        assert(tviews(src@).to_multiset() =~= Multiset::<TargetView>::empty()) by {
            assert(tviews(src@) =~= Seq::<TargetView>::empty());
            assert(Seq::<TargetView>::empty().to_multiset() =~= Multiset::<TargetView>::empty());
        }
        assert(tviews(out@).to_multiset() =~= tviews(ts@).to_multiset());
    }
    out
}

/// The first position whose element does not sort before `x`; inserting
/// `x` there keeps the list sorted.
fn insert_position(out: &Vec<Target>, x: &Target) -> (pos: usize)
    requires
        sorted_by_display(tviews(out@)),
    ensures
        pos <= out@.len(),
        forall|i: int|
            0 <= i < pos ==> lex_le(
                lower_of((#[trigger] tviews(out@)[i]).display),
                lower_of(x@.display),
            ),
        forall|i: int|
            pos <= i < out@.len() ==> lex_le(
                lower_of(x@.display),
                lower_of((#[trigger] tviews(out@)[i]).display),
            ),
{
    let mut pos: usize = 0;
    while pos < out.len()
        invariant
            pos <= out@.len(),
            sorted_by_display(tviews(out@)),
            forall|i: int|
                0 <= i < pos ==> lex_le(
                    lower_of((#[trigger] tviews(out@)[i]).display),
                    lower_of(x@.display),
                ),
        decreases out@.len() - pos,
    {
        if !disp_le(&out[pos], x) {
            proof {
                assert forall|i: int|
                    pos <= i < out@.len() implies lex_le(
                    lower_of(x@.display),
                    lower_of((#[trigger] tviews(out@)[i]).display),
                ) by {
                    crate::text::lemma_lex_le_total(
                        lower_of(tviews(out@)[pos as int].display),
                        lower_of(x@.display),
                    );
                    if i > pos {
                        crate::text::lemma_lex_le_trans(
                            lower_of(x@.display),
                            lower_of(tviews(out@)[pos as int].display),
                            lower_of(tviews(out@)[i].display),
                        );
                    }
                }
            }
            return pos;
        }
        pos += 1;
    }
    pos
}


// ------------------------------------------------------------------
// ingestion helpers
// ------------------------------------------------------------------
/// The first target position with the given protocol address, if any.
pub open spec fn first_addr_index(ts: Seq<TargetView>, addr: Seq<char>) -> Option<int>
    decreases ts.len(),
{
    if ts.len() == 0 {
        None
    } else if ts[0].addr == addr {
        Some(0int)
    } else {
        match first_addr_index(ts.drop_first(), addr) {
            Some(i) => Some(i + 1),
            None => None,
        }
    }
}

proof fn lemma_first_addr_at(tv: Seq<TargetView>, addr: Seq<char>, i: int)
    requires
        0 <= i < tv.len(),
        tv[i].addr == addr,
        forall|t: int| 0 <= t < i ==> tv[t].addr != addr,
    ensures
        first_addr_index(tv, addr) == Some(i),
    decreases i,
{
    if i > 0 {
        assert(tv.drop_first()[i - 1] == tv[i]);
        assert(forall|t: int|
            0 <= t < tv.drop_first().len() ==> (#[trigger] tv.drop_first()[t]) == tv[t + 1]);
        lemma_first_addr_at(tv.drop_first(), addr, i - 1);
    }
}

proof fn lemma_first_addr_absent(tv: Seq<TargetView>, addr: Seq<char>)
    requires
        forall|t: int| 0 <= t < tv.len() ==> tv[t].addr != addr,
    ensures
        first_addr_index(tv, addr) is None,
    decreases tv.len(),
{
    if tv.len() > 0 {
        assert(forall|t: int|
            0 <= t < tv.drop_first().len() ==> (#[trigger] tv.drop_first()[t]) == tv[t + 1]);
        lemma_first_addr_absent(tv.drop_first(), addr);
    }
}

fn find_addr_index(ts: &Vec<Target>, addr: &str) -> (r: Option<usize>)
    ensures
        match r {
            Some(i) => i < ts@.len() && ts@[i as int]@.addr == addr@ && (forall|t: int|
                0 <= t < i ==> (#[trigger] ts@[t])@.addr != addr@),
            None => forall|t: int| 0 <= t < ts@.len() ==> (#[trigger] ts@[t])@.addr != addr@,
        },
{
    let mut i: usize = 0;
    while i < ts.len()
        invariant
            i <= ts@.len(),
            forall|t: int| 0 <= t < i ==> (#[trigger] ts@[t])@.addr != addr@,
        decreases ts@.len() - i,
    {
        if crate::text::str_eq(ts[i].addr.as_str(), addr) {
            return Some(i);
        }
        i += 1;
    }
    None
}

fn find_target_index(ts: &Vec<Target>, key: &str) -> (r: Option<usize>)
    ensures
        match r {
            Some(i) => i < ts@.len() && ts@[i as int]@.conversation_key == key@ && (forall|t: int|
                0 <= t < i ==> (#[trigger] ts@[t])@.conversation_key != key@),
            None => forall|t: int| 0 <= t < ts@.len() ==> (#[trigger] ts@[t])@.conversation_key != key@,
        },
{
    let mut i: usize = 0;
    while i < ts.len()
        invariant
            i <= ts@.len(),
            forall|t: int| 0 <= t < i ==> (#[trigger] ts@[t])@.conversation_key != key@,
        decreases ts@.len() - i,
    {
        if crate::text::str_eq(ts[i].conversation_key.as_str(), key) {
            return Some(i);
        }
        i += 1;
    }
    None
}

proof fn lemma_find_target_at(tv: Seq<TargetView>, k: Seq<char>, i: int)
    requires
        0 <= i < tv.len(),
        tv[i].conversation_key == k,
        forall|t: int| 0 <= t < i ==> tv[t].conversation_key != k,
    ensures
        find_target(tv, k) == Some(tv[i]),
    decreases i,
{
    if i > 0 {
        assert(tv.drop_first()[i - 1] == tv[i]);
        assert(forall|t: int|
            0 <= t < tv.drop_first().len() ==> (#[trigger] tv.drop_first()[t]) == tv[t + 1]);
        lemma_find_target_at(tv.drop_first(), k, i - 1);
    }
}

proof fn lemma_find_target_absent(tv: Seq<TargetView>, k: Seq<char>)
    requires
        forall|t: int| 0 <= t < tv.len() ==> tv[t].conversation_key != k,
    ensures
        find_target(tv, k) is None,
    decreases tv.len(),
{
    if tv.len() > 0 {
        assert(forall|t: int|
            0 <= t < tv.drop_first().len() ==> (#[trigger] tv.drop_first()[t]) == tv[t + 1]);
        lemma_find_target_absent(tv.drop_first(), k);
    }
}

proof fn lemma_bump_at(u: Seq<(Seq<char>, int)>, k: Seq<char>, i: int)
    requires
        0 <= i < u.len(),
        u[i].0 == k,
        forall|t: int| 0 <= t < i ==> u[t].0 != k,
    ensures
        bump_unread(u, k) == u.update(
            i,
            (k, if u[i].1 < usize::MAX { u[i].1 + 1 } else { u[i].1 }),
        ),
    decreases i,
{
    if i == 0 {
        assert(bump_unread(u, k) =~= u.update(
            0,
            (k, if u[0].1 < usize::MAX { u[0].1 + 1 } else { u[0].1 }),
        ));
    } else {
        assert(u.drop_first()[i - 1] == u[i]);
        assert(forall|t: int|
            0 <= t < u.drop_first().len() ==> (#[trigger] u.drop_first()[t]) == u[t + 1]);
        lemma_bump_at(u.drop_first(), k, i - 1);
        assert(seq![u[0]] + u.drop_first().update(
            i - 1,
            (k, if u[i].1 < usize::MAX { u[i].1 + 1 } else { u[i].1 }),
        ) =~= u.update(i, (k, if u[i].1 < usize::MAX { u[i].1 + 1 } else { u[i].1 })));
    }
}

proof fn lemma_bump_absent(u: Seq<(Seq<char>, int)>, k: Seq<char>)
    requires
        forall|t: int| 0 <= t < u.len() ==> u[t].0 != k,
    ensures
        bump_unread(u, k) == u.push((k, 1int)),
    decreases u.len(),
{
    if u.len() == 0 {
        assert(bump_unread(u, k) =~= u.push((k, 1int)));
    } else {
        assert(forall|t: int|
            0 <= t < u.drop_first().len() ==> (#[trigger] u.drop_first()[t]) == u[t + 1]);
        lemma_bump_absent(u.drop_first(), k);
        assert(seq![u[0]] + u.drop_first().push((k, 1int)) =~= u.push((k, 1int)));
    }
}

/// Raises the unread counter for `key` by one.
fn bump_unread_exec(u: &mut Vec<(String, usize)>, key: &str)
    ensures
        unread_view_of(final(u)@) == bump_unread(unread_view_of(old(u)@), key@),
{
    let ghost u0 = unread_view_of(u@);
    match find_unread_index(u, key) {
        Some(i) => {
            let e = u.remove(i);
            let n: usize = if e.1 < usize::MAX {
                e.1 + 1
            } else {
                e.1
            };
            let ghost mid = u@;
            u.insert(i, (e.0, n));
            proof {
                lemma_bump_at(u0, key@, i as int);
                assert(u@ =~= old(u)@.update(i as int, (old(u)@[i as int].0, n)));
                assert(unread_view_of(u@) =~= u0.update(
                    i as int,
                    (key@, if u0[i as int].1 < usize::MAX {
                        u0[i as int].1 + 1
                    } else {
                        u0[i as int].1
                    }),
                ));
            }
        },
        None => {
            proof {
                lemma_bump_absent(u0, key@);
            }
            let mut kk = String::new();
            kk.append(key);
            u.push((kk, 1));
            proof {
                assert(unread_view_of(u@) =~= u0.push((key@, 1int)));
            }
        },
    }
}

fn find_buffer_index(ms: &Vec<(String, Vec<ChatMessage>)>, key: &str) -> (r: Option<usize>)
    ensures
        match r {
            Some(i) => i < ms@.len() && ms@[i as int].0@ == key@ && (forall|t: int|
                0 <= t < i ==> (#[trigger] ms@[t]).0@ != key@),
            None => forall|t: int| 0 <= t < ms@.len() ==> (#[trigger] ms@[t]).0@ != key@,
        },
{
    let mut i: usize = 0;
    while i < ms.len()
        invariant
            i <= ms@.len(),
            forall|t: int| 0 <= t < i ==> (#[trigger] ms@[t]).0@ != key@,
        decreases ms@.len() - i,
    {
        if crate::text::str_eq(ms[i].0.as_str(), key) {
            return Some(i);
        }
        i += 1;
    }
    None
}

proof fn lemma_pushbuf_at(
    bs: Seq<(Seq<char>, Seq<ChatMessageView>)>,
    k: Seq<char>,
    m: ChatMessageView,
    i: int,
)
    requires
        0 <= i < bs.len(),
        bs[i].0 == k,
        forall|t: int| 0 <= t < i ==> bs[t].0 != k,
    ensures
        push_buffer(bs, k, m) == bs.update(i, (k, bs[i].1.push(m))),
    decreases i,
{
    if i == 0 {
        assert(push_buffer(bs, k, m) =~= bs.update(0, (k, bs[0].1.push(m))));
    } else {
        assert(bs.drop_first()[i - 1] == bs[i]);
        assert(forall|t: int|
            0 <= t < bs.drop_first().len() ==> (#[trigger] bs.drop_first()[t]) == bs[t + 1]);
        lemma_pushbuf_at(bs.drop_first(), k, m, i - 1);
        assert(seq![bs[0]] + bs.drop_first().update(i - 1, (k, bs[i].1.push(m))) =~= bs.update(
            i,
            (k, bs[i].1.push(m)),
        ));
    }
}

proof fn lemma_pushbuf_absent(
    bs: Seq<(Seq<char>, Seq<ChatMessageView>)>,
    k: Seq<char>,
    m: ChatMessageView,
)
    requires
        forall|t: int| 0 <= t < bs.len() ==> bs[t].0 != k,
    ensures
        push_buffer(bs, k, m) == bs.push((k, seq![m])),
    decreases bs.len(),
{
    if bs.len() == 0 {
        assert(push_buffer(bs, k, m) =~= bs.push((k, seq![m])));
    } else {
        assert(forall|t: int|
            0 <= t < bs.drop_first().len() ==> (#[trigger] bs.drop_first()[t]) == bs[t + 1]);
        lemma_pushbuf_absent(bs.drop_first(), k, m);
        assert(seq![bs[0]] + bs.drop_first().push((k, seq![m])) =~= bs.push((k, seq![m])));
    }
}

/// Appends `cm` to the buffer for `key`, creating the buffer if absent.
fn push_buffer_exec(ms: &mut Vec<(String, Vec<ChatMessage>)>, key: &str, cm: ChatMessage)
    ensures
        buffers_view_of(final(ms)@) == push_buffer(buffers_view_of(old(ms)@), key@, cm@),
{
    let ghost b0 = buffers_view_of(ms@);
    let ghost cmv = cm@;
    match find_buffer_index(ms, key) {
        Some(i) => {
            let mut e = ms.remove(i);
            let ghost mid = ms@;
            let ghost ekey = e.0@;
            let ghost e0v = e.1@;
            e.1.push(cm);
            ms.insert(i, e);
            proof {
                lemma_pushbuf_at(b0, key@, cmv, i as int);
                assert(ms@.len() == old(ms)@.len());
                assert(forall|t: int| 0 <= t < i ==> ms@[t] == old(ms)@[t]);
                assert(forall|t: int|
                    i < t < ms@.len() ==> #[trigger] ms@[t] == old(ms)@[t]) by {
                    assert(forall|t: int|
                        i < t < ms@.len() ==> #[trigger] ms@[t] == mid[t - 1]);
                    assert(forall|t: int|
                        i <= t - 1 < mid.len() ==> #[trigger] mid[t - 1] == old(ms)@[t]);
                }
                assert(ms@[i as int].0@ == b0[i as int].0);
                assert(ms@[i as int].1@ == e0v.push(cm));
                let inner = Seq::new(
                    ms@[i as int].1@.len(),
                    |j: int| ms@[i as int].1@[j]@,
                );
                assert(inner =~= b0[i as int].1.push(cmv)) by {
                    assert(e0v == old(ms)@[i as int].1@);
                    assert(forall|j: int|
                        0 <= j < e0v.len() ==> (#[trigger] ms@[i as int].1@[j]) == e0v[j]);
                }
                assert(buffers_view_of(ms@) =~= b0.update(
                    i as int,
                    (b0[i as int].0, b0[i as int].1.push(cmv)),
                ));
            }
        },
        None => {
            proof {
                lemma_pushbuf_absent(b0, key@, cmv);
            }
            let mut kk = String::new();
            kk.append(key);
            let mut v: Vec<ChatMessage> = Vec::new();
            v.push(cm);
            ms.push((kk, v));
            proof {
                assert(Seq::new(1nat, |j: int| (seq![cm])[j]@) =~= seq![cmv]);
                assert(buffers_view_of(ms@) =~= b0.push((key@, seq![cmv])));
            }
        },
    }
}

/// A notification body bounded to 200 characters.
fn truncate_exec(b: &str) -> (r: String)
    ensures
        r@ == truncate_note(b@),
{
    let cv = chars_of(b);
    if cv.len() > 200 {
        let mut out: Vec<char> = Vec::new();
        let mut k: usize = 0;
        while k < 200
            invariant
                k <= 200 <= cv@.len(),
                cv@ == b@,
                out@ == b@.subrange(0, k as int),
            decreases 200 - k,
        {
            out.push(cv[k]);
            k += 1;
            assert(out@ =~= b@.subrange(0, k as int));
        }
        out.push('.');
        out.push('.');
        out.push('.');
        assert(out@ =~= truncate_note(b@));
        string_from_chars(&out)
    } else {
        let mut kk = String::new();
        kk.append(b);
        kk
    }
}


/// Lines queued for persistence match the model's records.
pub open spec fn appends_match(av: Seq<(String, String)>, model: Seq<(Seq<char>, RecView)>) -> bool {
    &&& av.len() == model.len()
    &&& forall|i: int|
        0 <= i < av.len() ==> (#[trigger] av[i]).0@ == model[i].0 && av[i].1@
            == crate::scrollback::render_record(model[i].1)
}

/// Queued notifications match the model's.
pub open spec fn notes_match(
    nv: Seq<(String, String, String)>,
    model: Seq<(Seq<char>, Seq<char>, Seq<char>)>,
) -> bool {
    &&& nv.len() == model.len()
    &&& forall|i: int|
        0 <= i < nv.len() ==> (#[trigger] nv[i]).0@ == model[i].0 && nv[i].1@ == model[i].1
            && nv[i].2@ == model[i].2
}

impl App {
    /// The model an ingest batch starts from.
    pub open spec fn ingest_start(&self) -> Ingested {
        Ingested {
            targets: self.targets_view(),
            unread: self.unread_view(),
            buffers: self.buffers_view(),
            appends: Seq::empty(),
            notes: Seq::empty(),
        }
    }

    /// Consumes one batch of inbound messages: unknown conversations are
    /// added once, unread counts rise for conversations other than the
    /// selected one, records to persist and notifications to deliver are
    /// returned for the caller to perform, each message joins its
    /// buffer, and the target list is re-sorted with the selection kept
    /// in range.
    #[verifier::rlimit(100)]
    pub fn ingest_incoming(&mut self, msgs: Vec<IncomingMessage>) -> (eff: (
        Vec<(String, String)>,
        Vec<(String, String, String)>,
    ))
        requires
            old(self).wf(),
        ensures
            final(self).wf(),
            ({
                let stf = ingest_all(
                    old(self).ingest_start(),
                    old(self).selected_key(),
                    old(self).save_scrollback,
                    old(self).notify_send,
                    msg_views(msgs@),
                );
                &&& final(self).unread_view() == stf.unread
                &&& final(self).buffers_view() == stf.buffers
                &&& tviews(final(self).targets@).to_multiset() == stf.targets.to_multiset()
                &&& sorted_by_display(tviews(final(self).targets@))
                &&& final(self).targets@.len() == stf.targets.len()
                &&& appends_match(eff.0@, stf.appends)
                &&& notes_match(eff.1@, stf.notes)
            }),
            final(self).mode == old(self).mode,
            final(self).account@ == old(self).account@,
            final(self).input@ == old(self).input@,
            final(self).status@ == old(self).status@,
            final(self).save_scrollback == old(self).save_scrollback,
            final(self).notify_send == old(self).notify_send,
    {
        let ghost st0 = old(self).ingest_start();
        let ghost selkey = old(self).selected_key();
        let ghost save = old(self).save_scrollback;
        let ghost notify = old(self).notify_send;
        let ghost allm = msg_views(msgs@);
        let ghost full = ingest_all(st0, selkey, save, notify, allm);
        let selected_key: Option<String> = match self.selected_target() {
            Some(t) => Some(t.conversation_key.clone()),
            None => None,
        };
        let mut appends: Vec<(String, String)> = Vec::new();
        let mut notes: Vec<(String, String, String)> = Vec::new();
        let ghost mut gapp: Seq<(Seq<char>, RecView)> = Seq::empty();
        let ghost mut gnotes: Seq<(Seq<char>, Seq<char>, Seq<char>)> = Seq::empty();
        let mut k: usize = 0;
        proof {
            assert(allm.skip(0) =~= allm);
        }
        while k < msgs.len()
            invariant
                k <= msgs@.len(),
                allm == msg_views(msgs@),
                allm.len() == msgs@.len(),
                match selected_key {
                    Some(sk) => selkey == Some(sk@),
                    None => selkey is None,
                },
                self.save_scrollback == save,
                self.notify_send == notify,
                self.mode == old(self).mode,
                self.account@ == old(self).account@,
                self.input@ == old(self).input@,
                self.status@ == old(self).status@,
                self.selected == old(self).selected,
                unread_keys_unique(self.unread_view()),
                buffer_keys_unique(self.buffers_view()),
                appends_match(appends@, gapp),
                notes_match(notes@, gnotes),
                full == ingest_all(
                    Ingested {
                        targets: tviews(self.targets@),
                        unread: self.unread_view(),
                        buffers: self.buffers_view(),
                        appends: gapp,
                        notes: gnotes,
                    },
                    selkey,
                    save,
                    notify,
                    allm.skip(k as int),
                ),
            decreases msgs@.len() - k,
        {
            let ghost cur = Ingested {
                targets: tviews(self.targets@),
                unread: self.unread_view(),
                buffers: self.buffers_view(),
                appends: gapp,
                notes: gnotes,
            };
            let ghost mv = allm[k as int];
            proof {
                assert(allm.skip(k as int)[0] == mv);
                assert(allm.skip(k as int).drop_first() =~= allm.skip(k + 1));
                assert(ingest_all(cur, selkey, save, notify, allm.skip(k as int)) == ingest_all(
                    ingest_one(cur, selkey, save, notify, mv),
                    selkey,
                    save,
                    notify,
                    allm.skip(k + 1),
                ));
            }
            let ghost nx = ingest_one(cur, selkey, save, notify, mv);
            let key = msgs[k].conversation_key.clone();
            assert(key@ == mv.conversation_key);
            let known: bool = match find_target_index(&self.targets, key.as_str()) {
                Some(i) => {
                    proof {
                        lemma_find_target_at(tviews(self.targets@), key@, i as int);
                    }
                    true
                },
                None => {
                    proof {
                        lemma_find_target_absent(tviews(self.targets@), key@);
                    }
                    false
                },
            };
            if !known {
                let made: bool = match crate::text::strip_prefix(key.as_str(), "group:") {
                    Some(rest) => {
                        proof {
                            reveal_strlit("group:");
                            assert("group:"@ =~= key_group_prefix());
                        }
                        let mut disp: Vec<char> = Vec::new();
                        disp.push('g');
                        disp.push('r');
                        disp.push('o');
                        disp.push('u');
                        disp.push('p');
                        disp.push(' ');
                        let rv = chars_of(rest.as_str());
                        let mut q: usize = 0;
                        while q < rv.len()
                            invariant
                                q <= rv@.len(),
                                rv@ == rest@,
                                disp@ == seq!['g', 'r', 'o', 'u', 'p', ' '] + rest@.subrange(
                                    0,
                                    q as int,
                                ),
                            decreases rv@.len() - q,
                        {
                            disp.push(rv[q]);
                            q += 1;
                            assert(disp@ =~= seq!['g', 'r', 'o', 'u', 'p', ' '] + rest@.subrange(
                                0,
                                q as int,
                            ));
                        }
                        assert(disp@ =~= seq!['g', 'r', 'o', 'u', 'p', ' '] + rest@);
                        let t = Target {
                            conversation_key: key.clone(),
                            kind: TargetKind::Group,
                            addr: rest,
                            display: string_from_chars(&disp),
                        };
                        proof {
                            assert(t@ == msg_target(key@)->0);
                        }
                        let ghost t0 = self.targets@;
                        self.targets.push(t);
                        proof {
                            assert(tviews(self.targets@) =~= tviews(t0).push(
                                msg_target(key@)->0,
                            ));
                        }
                        true
                    },
                    None => {
                        match crate::text::strip_prefix(key.as_str(), "contact:") {
                            Some(rest) => {
                                proof {
                                    reveal_strlit("group:");
                                    reveal_strlit("contact:");
                                    assert("group:"@ =~= key_group_prefix());
                                    assert("contact:"@ =~= key_contact_prefix());
                                }
                                let t = Target {
                                    conversation_key: key.clone(),
                                    kind: TargetKind::Contact,
                                    addr: rest.clone(),
                                    display: rest,
                                };
                                proof {
                                    assert(t@ == msg_target(key@)->0);
                                }
                                let ghost t0 = self.targets@;
                                self.targets.push(t);
                                proof {
                                    assert(tviews(self.targets@) =~= tviews(t0).push(
                                        msg_target(key@)->0,
                                    ));
                                }
                                true
                            },
                            None => {
                                proof {
                                    reveal_strlit("group:");
                                    reveal_strlit("contact:");
                                    assert("group:"@ =~= key_group_prefix());
                                    assert("contact:"@ =~= key_contact_prefix());
                                    assert(msg_target(key@) is None);
                                    assert(nx == cur);
                                }
                                false
                            },
                        }
                    },
                };
                if !made {
                    k += 1;
                    continue ;
                }
            }
            proof {
                assert(nx.targets == tviews(self.targets@));
            }
            let bump: bool = match &selected_key {
                Some(sk) => !crate::text::str_eq(sk.as_str(), key.as_str()),
                None => true,
            };
            proof {
                assert(bump == (selkey != Some(mv.conversation_key)));
            }
            if bump {
                bump_unread_exec(&mut self.unread, key.as_str());
                proof {
                    lemma_bump_unique(cur.unread, key@);
                }
            }
            proof {
                assert(unread_view_of(self.unread@) == nx.unread);
            }
            if self.save_scrollback {
                let rec = ScrollbackRecord {
                    ts_ms: msgs[k].timestamp_ms,
                    dir: String::from_str("in"),
                    who: msgs[k].source.clone(),
                    body: msgs[k].body.clone(),
                };
                proof {
                    reveal_strlit("in");
                    assert("in"@ =~= seq!['i', 'n']);
                    assert(rec@ == in_rec(mv));
                }
                let line = crate::scrollback::append(&rec);
                appends.push((key.clone(), line));
                proof {
                    gapp = gapp.push((mv.conversation_key, in_rec(mv)));
                    assert(appends_match(appends@, gapp));
                }
            }
            if self.notify_send {
                let disp: String = match find_target_index(&self.targets, key.as_str()) {
                    Some(i) => {
                        proof {
                            lemma_find_target_at(tviews(self.targets@), key@, i as int);
                        }
                        self.targets[i].display.clone()
                    },
                    None => {
                        proof {
                            lemma_find_target_absent(tviews(self.targets@), key@);
                        }
                        key.clone()
                    },
                };
                let from: String = match &msgs[k].source {
                    Some(sn) => sn.clone(),
                    None => {
                        let f = String::from_str("unknown");
                        proof {
                            reveal_strlit("unknown");
                            assert("unknown"@ =~= seq!['u', 'n', 'k', 'n', 'o', 'w', 'n']);
                        }
                        f
                    },
                };
                let tb = truncate_exec(msgs[k].body.as_str());
                notes.push((disp, from, tb));
                proof {
                    gnotes = gnotes.push(
                        (
                            match find_target(nx.targets, mv.conversation_key) {
                                Some(t) => t.display,
                                None => mv.conversation_key,
                            },
                            match mv.source {
                                Some(sn) => sn,
                                None => seq!['u', 'n', 'k', 'n', 'o', 'w', 'n'],
                            },
                            truncate_note(mv.body),
                        ),
                    );
                    assert(notes_match(notes@, gnotes));
                }
            }
            let cm = ChatMessage {
                ts_ms: msgs[k].timestamp_ms,
                dir: MsgDir::In,
                who: msgs[k].source.clone(),
                body: msgs[k].body.clone(),
            };
            proof {
                assert(cm@ == in_msg(mv));
            }
            push_buffer_exec(&mut self.messages, key.as_str(), cm);
            proof {
                lemma_pushbuf_unique(cur.buffers, mv.conversation_key, in_msg(mv));
                assert(buffers_view_of(self.messages@) == nx.buffers);
                assert(gapp == nx.appends);
                assert(gnotes == nx.notes);
            }
            k += 1;
        }
        proof {
            assert(allm.skip(msgs@.len() as int) =~= Seq::<MsgView>::empty());
        }
        let mut held: Vec<Target> = Vec::new();
        core::mem::swap(&mut held, &mut self.targets);
        let sorted = sort_targets(held);
        self.targets = sorted;
        if self.targets.len() > 0 && self.selected >= self.targets.len() {
            self.selected = self.targets.len() - 1;
        }
        if self.targets.len() == 0 {
            self.selected = 0;
        }
        proof {
            broadcast use vstd::seq_lib::group_to_multiset_ensures;

            assert(tviews(self.targets@).to_multiset().len() == tviews(self.targets@).len());
            if self.targets@.len() == 0 {
                assert(full.targets.to_multiset().len() == 0);
            }
        }
        (appends, notes)
    }
}

/// Bumping keeps unread keys unique.
proof fn lemma_bump_unique(u: Seq<(Seq<char>, int)>, k: Seq<char>)
    requires
        unread_keys_unique(u),
    ensures
        unread_keys_unique(bump_unread(u, k)),
    decreases u.len(),
{
    if u.len() == 0 {
    } else if u[0].0 == k {
        let b = bump_unread(u, k);
        assert(forall|t: int| 0 <= t < b.len() ==> #[trigger] b[t].0 == u[t].0);
    } else {
        assert(forall|i: int, j: int|
            0 <= i < j < u.drop_first().len() ==> (#[trigger] u.drop_first()[i]).0 != (
            #[trigger] u.drop_first()[j]).0) by {
            assert(forall|t: int|
                0 <= t < u.drop_first().len() ==> (#[trigger] u.drop_first()[t]) == u[t + 1]);
        }
        lemma_bump_unique(u.drop_first(), k);
        let b = bump_unread(u, k);
        let br = bump_unread(u.drop_first(), k);
        assert(b == seq![u[0]] + br);
        assert(forall|t: int| 0 <= t < br.len() ==> #[trigger] b[t + 1] == br[t]);
        assert(b[0] == u[0]);
        assert forall|i: int, j: int| 0 <= i < j < b.len() implies b[i].0 != b[j].0 by {
            if i == 0 {
                assert(b[j] == br[j - 1]);
                lemma_bump_keys(u.drop_first(), k, j - 1);
            } else {
                assert(b[i] == br[i - 1] && b[j] == br[j - 1]);
            }
        }
    }
}

/// Every key in a bumped list was there before, unless it is the bumped
/// key itself.
proof fn lemma_bump_keys(u: Seq<(Seq<char>, int)>, k: Seq<char>, t: int)
    requires
        0 <= t < bump_unread(u, k).len(),
    ensures
        bump_unread(u, k)[t].0 == k || (t < u.len() && bump_unread(u, k)[t].0 == u[t].0),
    decreases u.len(),
{
    if u.len() == 0 {
    } else if u[0].0 == k {
        let b = bump_unread(u, k);
        assert(forall|x: int| 0 <= x < b.len() ==> #[trigger] b[x].0 == u[x].0);
    } else {
        if t > 0 {
            lemma_bump_keys(u.drop_first(), k, t - 1);
            assert(bump_unread(u, k)[t] == bump_unread(u.drop_first(), k)[t - 1]);
            assert(t - 1 < u.drop_first().len() ==> u.drop_first()[t - 1] == u[t]);
        }
    }
}

/// Buffer insertion keeps buffer keys unique.
proof fn lemma_pushbuf_unique(
    bs: Seq<(Seq<char>, Seq<ChatMessageView>)>,
    k: Seq<char>,
    m: ChatMessageView,
)
    requires
        buffer_keys_unique(bs),
    ensures
        buffer_keys_unique(push_buffer(bs, k, m)),
    decreases bs.len(),
{
    if bs.len() == 0 {
    } else if bs[0].0 == k {
        let b = push_buffer(bs, k, m);
        assert(forall|t: int| 0 <= t < b.len() ==> #[trigger] b[t].0 == bs[t].0);
    } else {
        assert(forall|i: int, j: int|
            0 <= i < j < bs.drop_first().len() ==> (#[trigger] bs.drop_first()[i]).0 != (
            #[trigger] bs.drop_first()[j]).0) by {
            assert(forall|t: int|
                0 <= t < bs.drop_first().len() ==> (#[trigger] bs.drop_first()[t]) == bs[t + 1]);
        }
        lemma_pushbuf_unique(bs.drop_first(), k, m);
        let b = push_buffer(bs, k, m);
        let br = push_buffer(bs.drop_first(), k, m);
        assert(b == seq![bs[0]] + br);
        assert(forall|t: int| 0 <= t < br.len() ==> #[trigger] b[t + 1] == br[t]);
        assert(b[0] == bs[0]);
        assert forall|i: int, j: int| 0 <= i < j < b.len() implies b[i].0 != b[j].0 by {
            if i == 0 {
                assert(b[j] == br[j - 1]);
                lemma_pushbuf_keys(bs.drop_first(), k, m, j - 1);
            } else {
                assert(b[i] == br[i - 1] && b[j] == br[j - 1]);
            }
        }
    }
}

proof fn lemma_pushbuf_keys(
    bs: Seq<(Seq<char>, Seq<ChatMessageView>)>,
    k: Seq<char>,
    m: ChatMessageView,
    t: int,
)
    requires
        0 <= t < push_buffer(bs, k, m).len(),
    ensures
        push_buffer(bs, k, m)[t].0 == k || (t < bs.len() && push_buffer(bs, k, m)[t].0
            == bs[t].0),
    decreases bs.len(),
{
    if bs.len() == 0 {
    } else if bs[0].0 == k {
        let b = push_buffer(bs, k, m);
        assert(forall|x: int| 0 <= x < b.len() ==> #[trigger] b[x].0 == bs[x].0);
    } else {
        if t > 0 {
            lemma_pushbuf_keys(bs.drop_first(), k, m, t - 1);
            assert(push_buffer(bs, k, m)[t] == push_buffer(bs.drop_first(), k, m)[t - 1]);
            assert(t - 1 < bs.drop_first().len() ==> bs.drop_first()[t - 1] == bs[t]);
        }
    }
}


// ------------------------------------------------------------------
// input events
// ------------------------------------------------------------------
/// A discrete input event, as the application reports it.
#[derive(Clone, Copy, Debug, PartialEq, Eq, Structural)]
pub enum InputEvent {
    CtrlC,
    Esc,
    Enter,
    Backspace,
    Up,
    Down,
    Char(char),
    Other,
}

/// What the application must do after a transition.
pub enum Action {
    Nothing,
    Quit,
    /// Dispatch a send through the external tool; on its outcome the
    /// application reports back via `send_succeeded` or `send_failed`.
    Send { kind: TargetKind, addr: String, conversation_key: String, body: String },
    /// Perform one synchronous receive and hand the batch back.
    Sync,
}

impl App {
    /// Moves the selection and marks the newly selected conversation
    /// read.
    fn select_index(&mut self, i: usize)
        requires
            old(self).wf(),
            old(self).targets@.len() > 0,
            i < old(self).targets@.len(),
        ensures
            final(self).wf(),
            final(self).selected == i,
            final(self).targets@ == old(self).targets@,
            final(self).unread_view() == drop_unread(
                old(self).unread_view(),
                old(self).targets@[i as int]@.conversation_key,
            ),
            final(self).buffers_view() == old(self).buffers_view(),
            final(self).mode == old(self).mode,
            final(self).input@ == old(self).input@,
            final(self).status@ == old(self).status@,
            final(self).account@ == old(self).account@,
            final(self).pending_g == old(self).pending_g,
            final(self).save_scrollback == old(self).save_scrollback,
            final(self).notify_send == old(self).notify_send,
    {
        self.selected = i;
        self.mark_selected_read();
    }

    /// One step of the state machine: consumes an input event in the
    /// current mode and yields the action the application must perform.
    #[verifier::rlimit(100)]
    pub fn handle_event(&mut self, ev: InputEvent) -> (a: Action)
        requires
            old(self).wf(),
        ensures
            final(self).wf(),
            final(self).account@ == old(self).account@,
            final(self).save_scrollback == old(self).save_scrollback,
            final(self).notify_send == old(self).notify_send,
            final(self).targets@.len() >= old(self).targets@.len(),
            ev == InputEvent::CtrlC ==> (a is Quit && *final(self) == *old(self)),
            old(self).mode == Mode::Normal && ev != InputEvent::CtrlC ==> normal_post(
                *old(self),
                *final(self),
                ev,
                a,
            ),
            old(self).mode == Mode::Insert && ev != InputEvent::CtrlC ==> insert_post(
                *old(self),
                *final(self),
                ev,
                a,
            ),
            old(self).mode == Mode::AddRecipient && ev != InputEvent::CtrlC ==> add_post(
                *old(self),
                *final(self),
                ev,
                a,
            ),
    {
        if let InputEvent::CtrlC = ev {
            return Action::Quit;
        }
        match self.mode {
            Mode::Normal => self.handle_normal(ev),
            Mode::Insert => self.handle_insert(ev),
            Mode::AddRecipient => self.handle_add_recipient(ev),
        }
    }

    #[verifier::rlimit(100)]
    fn handle_normal(&mut self, ev: InputEvent) -> (a: Action)
        requires
            old(self).wf(),
            old(self).mode == Mode::Normal,
        ensures
            final(self).wf(),
            final(self).account@ == old(self).account@,
            final(self).save_scrollback == old(self).save_scrollback,
            final(self).notify_send == old(self).notify_send,
            final(self).targets@.len() >= old(self).targets@.len(),
            normal_post(*old(self), *final(self), ev, a),
    {
        let is_g = match ev {
            InputEvent::Char(c) => c == 'g',
            _ => false,
        };
        if !is_g {
            self.pending_g = false;
        }
        match ev {
            InputEvent::Char(c) => {
                if c == 'q' {
                    Action::Quit
                } else if c == 'j' {
                    if self.targets.len() > 0 {
                        let i = if self.selected + 1 < self.targets.len() {
                            self.selected + 1
                        } else {
                            self.targets.len() - 1
                        };
                        self.select_index(i);
                    }
                    Action::Nothing
                } else if c == 'k' {
                    if self.targets.len() > 0 {
                        let i = if self.selected > 0 {
                            self.selected - 1
                        } else {
                            0
                        };
                        self.select_index(i);
                    }
                    Action::Nothing
                } else if c == 'g' {
                    if self.pending_g {
                        self.pending_g = false;
                        if self.targets.len() > 0 {
                            self.select_index(0);
                        }
                    } else {
                        self.pending_g = true;
                    }
                    Action::Nothing
                } else if c == 'G' {
                    if self.targets.len() > 0 {
                        let i = self.targets.len() - 1;
                        self.select_index(i);
                    }
                    Action::Nothing
                } else if c == 'i' {
                    if self.targets.len() > 0 {
                        self.mode = Mode::Insert;
                        self.input = Vec::new();
                    } else {
                        self.status = String::from_str(
                            "no target selected; press 'a' to add a recipient",
                        );
                    }
                    Action::Nothing
                } else if c == 'a' {
                    self.mode = Mode::AddRecipient;
                    self.input = Vec::new();
                    self.status = String::from_str(
                        "add recipient: type E.164 number like +15551234567, Enter to add, Esc to cancel",
                    );
                    Action::Nothing
                } else if c == 'r' {
                    Action::Sync
                } else {
                    Action::Nothing
                }
            },
            InputEvent::Down => {
                if self.targets.len() > 0 {
                    let i = if self.selected + 1 < self.targets.len() {
                        self.selected + 1
                    } else {
                        self.targets.len() - 1
                    };
                    self.select_index(i);
                }
                Action::Nothing
            },
            InputEvent::Up => {
                if self.targets.len() > 0 {
                    let i = if self.selected > 0 {
                        self.selected - 1
                    } else {
                        0
                    };
                    self.select_index(i);
                }
                Action::Nothing
            },
            _ => Action::Nothing,
        }
    }

    fn handle_insert(&mut self, ev: InputEvent) -> (a: Action)
        requires
            old(self).wf(),
            old(self).mode == Mode::Insert,
        ensures
            final(self).wf(),
            final(self).account@ == old(self).account@,
            final(self).save_scrollback == old(self).save_scrollback,
            final(self).notify_send == old(self).notify_send,
            final(self).targets@.len() >= old(self).targets@.len(),
            insert_post(*old(self), *final(self), ev, a),
    {
        match ev {
            InputEvent::Esc => {
                self.mode = Mode::Normal;
                self.input = Vec::new();
                Action::Nothing
            },
            InputEvent::Enter => {
                let body = crate::text::trim_chars(&self.input);
                if body.len() == 0 {
                    self.status = String::from_str("empty message; nothing sent");
                    return Action::Nothing;
                }
                if self.targets.len() == 0 {
                    self.status = String::from_str("no target selected");
                    return Action::Nothing;
                }
                let t = &self.targets[self.selected];
                Action::Send {
                    kind: t.kind,
                    addr: t.addr.clone(),
                    conversation_key: t.conversation_key.clone(),
                    body: string_from_chars(&body),
                }
            },
            InputEvent::Backspace => {
                let popped = self.input.pop();
                proof {
                    if old(self).input@.len() > 0 {
                        assert(self.input@ =~= old(self).input@.drop_last());
                    }
                }
                Action::Nothing
            },
            InputEvent::Char(c) => {
                self.input.push(c);
                Action::Nothing
            },
            _ => Action::Nothing,
        }
    }

    #[verifier::rlimit(100)]
    fn handle_add_recipient(&mut self, ev: InputEvent) -> (a: Action)
        requires
            old(self).wf(),
            old(self).mode == Mode::AddRecipient,
        ensures
            final(self).wf(),
            final(self).account@ == old(self).account@,
            final(self).save_scrollback == old(self).save_scrollback,
            final(self).notify_send == old(self).notify_send,
            final(self).targets@.len() >= old(self).targets@.len(),
            add_post(*old(self), *final(self), ev, a),
    {
        match ev {
            InputEvent::Esc => {
                self.mode = Mode::Normal;
                self.input = Vec::new();
                self.status = String::from_str("cancelled");
                Action::Nothing
            },
            InputEvent::Enter => {
                let numv = crate::text::trim_chars(&self.input);
                let valid = numv.len() >= 8 && numv[0] == '+';
                if !valid {
                    self.status = String::from_str("recipient must look like +15551234567");
                    return Action::Nothing;
                }
                let num = string_from_chars(&numv);
                let key = crate::signal_cli::contact_key(num.as_str());
                match find_target_index(&self.targets, key.as_str()) {
                    Some(i) => {
                        proof {
                            lemma_find_target_at(tviews(self.targets@), key@, i as int);
                        }
                    },
                    None => {
                        proof {
                            lemma_find_target_absent(tviews(self.targets@), key@);
                        }
                        let t = Target {
                            conversation_key: key.clone(),
                            kind: TargetKind::Contact,
                            addr: num.clone(),
                            display: num.clone(),
                        };
                        let ghost t0 = self.targets@;
                        self.targets.push(t);
                        proof {
                            assert(tviews(self.targets@) =~= tviews(t0).push(
                                TargetView {
                                    conversation_key: key@,
                                    kind: TargetKind::Contact,
                                    addr: num@,
                                    display: num@,
                                },
                            ));
                        }
                        let mut held: Vec<Target> = Vec::new();
                        core::mem::swap(&mut held, &mut self.targets);
                        let sorted = sort_targets(held);
                        self.targets = sorted;
                        proof {
                            broadcast use vstd::seq_lib::group_to_multiset_ensures;

                            let tnew = TargetView {
                                conversation_key: key@,
                                kind: TargetKind::Contact,
                                addr: num@,
                                display: num@,
                            };
                            assert(tviews(t0).push(tnew).to_multiset().count(tnew) > 0) by {
                                assert(tviews(t0).push(tnew).contains(tnew)) by {
                                    assert(tviews(t0).push(tnew).last() == tnew);
                                }
                            }
                            assert(tviews(self.targets@).contains(tnew));
                            assert(exists|q: int|
                                0 <= q < tviews(self.targets@).len() && (#[trigger] tviews(
                                    self.targets@,
                                )[q]).addr == num@) by {
                                let w = choose|q: int|
                                    0 <= q < tviews(self.targets@).len() && tviews(
                                        self.targets@,
                                    )[q] == tnew;
                                assert(tviews(self.targets@)[w].addr == num@);
                            }
                            assert(tviews(self.targets@).to_multiset().len() == tviews(
                                self.targets@,
                            ).len());
                        }
                    },
                }
                match find_addr_index(&self.targets, num.as_str()) {
                    Some(i) => {
                        proof {
                            lemma_first_addr_at(tviews(self.targets@), num@, i as int);
                        }
                        self.selected = i;
                    },
                    None => {
                        proof {
                            lemma_first_addr_absent(tviews(self.targets@), num@);
                        }
                    },
                }
                self.mark_selected_read();
                self.mode = Mode::Normal;
                self.input = Vec::new();
                self.status = String::from_str("recipient added (press 'i' to message)");
                Action::Nothing
            },
            InputEvent::Backspace => {
                let popped = self.input.pop();
                proof {
                    if old(self).input@.len() > 0 {
                        assert(self.input@ =~= old(self).input@.drop_last());
                    }
                }
                Action::Nothing
            },
            InputEvent::Char(c) => {
                self.input.push(c);
                Action::Nothing
            },
            _ => Action::Nothing,
        }
    }

    /// Reports a successful send: the outbound message becomes visible
    /// in its buffer and, when persistence is on, the line to append is
    /// returned.
    pub fn send_succeeded(&mut self, conversation_key: &str, body: &str) -> (r: Option<
        (String, String),
    >)
        requires
            old(self).wf(),
        ensures
            final(self).wf(),
            final(self).buffers_view() == push_buffer(
                old(self).buffers_view(),
                conversation_key@,
                out_msg(old(self).account@, body@),
            ),
            final(self).mode == Mode::Normal,
            final(self).input@.len() == 0,
            final(self).status@ == "sent"@,
            final(self).targets@ == old(self).targets@,
            final(self).selected == old(self).selected,
            final(self).unread_view() == old(self).unread_view(),
            final(self).account@ == old(self).account@,
            final(self).save_scrollback == old(self).save_scrollback,
            final(self).notify_send == old(self).notify_send,
            match r {
                Some(p) => old(self).save_scrollback && p.0@ == conversation_key@ && p.1@
                    == crate::scrollback::render_record(out_rec(old(self).account@, body@)),
                None => !old(self).save_scrollback,
            },
    {
        let cm = ChatMessage {
            ts_ms: None,
            dir: MsgDir::Out,
            who: Some(self.account.clone()),
            body: {
                let mut b = String::new();
                b.append(body);
                b
            },
        };
        proof {
            assert(cm@ == out_msg(self.account@, body@));
        }
        push_buffer_exec(&mut self.messages, conversation_key, cm);
        proof {
            lemma_pushbuf_unique(
                old(self).buffers_view(),
                conversation_key@,
                out_msg(old(self).account@, body@),
            );
        }
        self.status = String::from_str("sent");
        self.input = Vec::new();
        self.mode = Mode::Normal;
        if self.save_scrollback {
            let rec = ScrollbackRecord {
                ts_ms: None,
                dir: String::from_str("out"),
                who: Some(self.account.clone()),
                body: {
                    let mut b = String::new();
                    b.append(body);
                    b
                },
            };
            proof {
                reveal_strlit("out");
                assert("out"@ =~= seq!['o', 'u', 't']);
                assert(rec@ == out_rec(old(self).account@, body@));
            }
            let line = crate::scrollback::append(&rec);
            let mut kk = String::new();
            kk.append(conversation_key);
            Some((kk, line))
        } else {
            None
        }
    }

    /// Reports a failed send: only the status text changes; buffers,
    /// targets, counters and mode are untouched, and nothing is queued
    /// for persistence.
    pub fn send_failed(&mut self, status: String)
        requires
            old(self).wf(),
        ensures
            final(self).wf(),
            *final(self) == (App { status, ..*old(self) }),
    {
        self.status = status;
    }
}

/// The outbound message recorded after a successful send.
pub open spec fn out_msg(account: Seq<char>, body: Seq<char>) -> ChatMessageView {
    ChatMessageView { ts_ms: None, dir: MsgDir::Out, who: Some(account), body }
}

pub open spec fn out_rec(account: Seq<char>, body: Seq<char>) -> RecView {
    RecView { ts_ms: None, dir: seq!['o', 'u', 't'], who: Some(account), body }
}

/// The transition relation in browsing mode.
pub open spec fn normal_post(o: App, s: App, ev: InputEvent, a: Action) -> bool {
    match ev {
        InputEvent::Char(c) => {
            if c == 'q' {
                a is Quit
            } else if c == 'j' || c == 'k' {
                a is Nothing && nav_post(o, s, if c == 'j' {
                    nav_down(o)
                } else {
                    nav_up(o)
                })
            } else if c == 'g' {
                a is Nothing && (if o.pending_g {
                    nav_post(o, s, 0) && !s.pending_g
                } else {
                    s == (App { pending_g: true, ..o })
                })
            } else if c == 'G' {
                a is Nothing && nav_post(o, s, nav_bottom(o))
            } else if c == 'i' {
                a is Nothing && (if o.targets@.len() > 0 {
                    s == (App {
                        mode: Mode::Insert,
                        input: s.input,
                        pending_g: false,
                        ..o
                    }) && s.input@.len() == 0
                } else {
                    s == (App { status: s.status, pending_g: false, ..o }) && s.status@
                        == "no target selected; press 'a' to add a recipient"@
                })
            } else if c == 'a' {
                a is Nothing && s == (App {
                    mode: Mode::AddRecipient,
                    input: s.input,
                    status: s.status,
                    pending_g: false,
                    ..o
                }) && s.input@.len() == 0 && s.status@
                    == "add recipient: type E.164 number like +15551234567, Enter to add, Esc to cancel"@
            } else if c == 'r' {
                a is Sync && s == (App { pending_g: false, ..o })
            } else {
                a is Nothing && s == (App { pending_g: false, ..o })
            }
        },
        InputEvent::Down => a is Nothing && nav_post(o, s, nav_down(o)),
        InputEvent::Up => a is Nothing && nav_post(o, s, nav_up(o)),
        _ => a is Nothing && s == (App { pending_g: false, ..o }),
    }
}

/// The target index one step down, clamped.
pub open spec fn nav_down(o: App) -> int {
    if o.selected + 1 < o.targets@.len() {
        o.selected + 1
    } else {
        o.targets@.len() - 1
    }
}

pub open spec fn nav_up(o: App) -> int {
    if o.selected > 0 {
        o.selected - 1
    } else {
        0
    }
}

pub open spec fn nav_bottom(o: App) -> int {
    o.targets@.len() - 1
}

/// Moving the selection to `i` (when targets exist) clears that
/// conversation's unread count and touches nothing else.
pub open spec fn nav_post(o: App, s: App, i: int) -> bool {
    if o.targets@.len() == 0 {
        s == (App { pending_g: false, ..o })
    } else {
        &&& s.selected == i
        &&& s.targets@ == o.targets@
        &&& unread_view_of(s.unread@) == drop_unread(
            unread_view_of(o.unread@),
            o.targets@[i]@.conversation_key,
        )
        &&& s.buffers_view() == o.buffers_view()
        &&& s.mode == o.mode
        &&& s.input@ == o.input@
        &&& s.status@ == o.status@
        &&& s.account@ == o.account@
        &&& !s.pending_g
    }
}

/// The transition relation while composing.
pub open spec fn insert_post(o: App, s: App, ev: InputEvent, a: Action) -> bool {
    match ev {
        InputEvent::Esc => a is Nothing && s == (App { mode: Mode::Normal, input: s.input, ..o })
            && s.input@.len() == 0,
        InputEvent::Enter => {
            let body = crate::text::spec_trim(o.input@);
            if body.len() == 0 {
                a is Nothing && s == (App { status: s.status, ..o }) && s.status@
                    == "empty message; nothing sent"@
            } else if o.targets@.len() == 0 {
                a is Nothing && s == (App { status: s.status, ..o }) && s.status@
                    == "no target selected"@
            } else {
                let t = o.targets@[o.selected as int]@;
                &&& s == o
                &&& (a matches Action::Send { kind, addr, conversation_key, body: b } && kind
                    == t.kind && addr@ == t.addr && conversation_key@ == t.conversation_key && b@
                    == body)
            }
        },
        InputEvent::Backspace => a is Nothing && s == (App { input: s.input, ..o }) && s.input@
            == (if o.input@.len() > 0 {
            o.input@.drop_last()
        } else {
            o.input@
        }),
        InputEvent::Char(c) => a is Nothing && s == (App { input: s.input, ..o }) && s.input@
            == o.input@.push(c),
        _ => a is Nothing && s == o,
    }
}

/// The transition relation while entering a recipient.
pub open spec fn add_post(o: App, s: App, ev: InputEvent, a: Action) -> bool {
    match ev {
        InputEvent::Esc => a is Nothing && s == (App {
            mode: Mode::Normal,
            input: s.input,
            status: s.status,
            ..o
        }) && s.input@.len() == 0 && s.status@ == "cancelled"@,
        InputEvent::Enter => {
            let num = crate::text::spec_trim(o.input@);
            if !(num.len() >= 8 && num[0] == '+') {
                a is Nothing && s == (App { status: s.status, ..o }) && s.status@
                    == "recipient must look like +15551234567"@
            } else {
                let key = key_contact_prefix() + num;
                &&& a is Nothing
                &&& s.mode == Mode::Normal
                &&& s.input@.len() == 0
                &&& s.status@ == "recipient added (press 'i' to message)"@
                &&& (if find_target(tviews(o.targets@), key) is None {
                    tviews(s.targets@).to_multiset() == tviews(o.targets@).push(
                        TargetView {
                            conversation_key: key,
                            kind: TargetKind::Contact,
                            addr: num,
                            display: num,
                        },
                    ).to_multiset() && sorted_by_display(tviews(s.targets@))
                        && first_addr_index(tviews(s.targets@), num) is Some
                } else {
                    tviews(s.targets@).to_multiset() == tviews(o.targets@).to_multiset()
                        && s.targets@ == o.targets@
                })
                &&& s.targets@.len() > 0
                &&& (s.selected as int) < s.targets@.len()
                &&& (match first_addr_index(tviews(s.targets@), num) {
                    Some(i) => s.selected == i,
                    None => s.selected == o.selected,
                })
                &&& s.unread_view() == drop_unread(
                    o.unread_view(),
                    s.targets@[s.selected as int]@.conversation_key,
                )
                &&& s.buffers_view() == o.buffers_view()
                &&& s.account@ == o.account@
                &&& s.pending_g == o.pending_g
            }
        },
        InputEvent::Backspace => a is Nothing && s == (App { input: s.input, ..o }) && s.input@
            == (if o.input@.len() > 0 {
            o.input@.drop_last()
        } else {
            o.input@
        }),
        InputEvent::Char(c) => a is Nothing && s == (App { input: s.input, ..o }) && s.input@
            == o.input@.push(c),
        _ => a is Nothing && s == o,
    }
}


// ------------------------------------------------------------------
// laws of ingestion
// ------------------------------------------------------------------
proof fn lemma_find_target_push(ts: Seq<TargetView>, t: TargetView, k: Seq<char>)
    requires
        find_target(ts, k) is None,
        t.conversation_key == k,
    ensures
        find_target(ts.push(t), k) == Some(t),
    decreases ts.len(),
{
    if ts.len() == 0 {
        assert(ts.push(t)[0] == t);
    } else {
        assert(ts.push(t)[0] == ts[0]);
        assert(ts.push(t).drop_first() =~= ts.drop_first().push(t));
        lemma_find_target_push(ts.drop_first(), t, k);
    }
}

proof fn lemma_ingest_same_key_known(
    st: Ingested,
    selkey: Option<Seq<char>>,
    save: bool,
    notify: bool,
    msgs: Seq<MsgView>,
    k: Seq<char>,
)
    requires
        forall|i: int| 0 <= i < msgs.len() ==> (#[trigger] msgs[i]).conversation_key == k,
        find_target(st.targets, k) is Some,
    ensures
        ingest_all(st, selkey, save, notify, msgs).targets == st.targets,
    decreases msgs.len(),
{
    if msgs.len() > 0 {
        let nx = ingest_one(st, selkey, save, notify, msgs[0]);
        assert(nx.targets == st.targets);
        assert(forall|i: int|
            0 <= i < msgs.drop_first().len() ==> (#[trigger] msgs.drop_first()[i]).conversation_key
                == k) by {
            assert(forall|i: int|
                0 <= i < msgs.drop_first().len() ==> (#[trigger] msgs.drop_first()[i]) == msgs[i
                    + 1]);
        }
        lemma_ingest_same_key_known(nx, selkey, save, notify, msgs.drop_first(), k);
    }
}

/// A batch of inbound messages that all reference one unknown
/// conversation key leaves the registry with exactly one new target for
/// that key, however many messages the batch holds.
pub proof fn lemma_ingest_single_new_target(
    st: Ingested,
    selkey: Option<Seq<char>>,
    save: bool,
    notify: bool,
    msgs: Seq<MsgView>,
    k: Seq<char>,
)
    requires
        msgs.len() > 0,
        forall|i: int| 0 <= i < msgs.len() ==> (#[trigger] msgs[i]).conversation_key == k,
        find_target(st.targets, k) is None,
        msg_target(k) is Some,
    ensures
        ingest_all(st, selkey, save, notify, msgs).targets == st.targets.push(msg_target(k)->0),
{
    let nx = ingest_one(st, selkey, save, notify, msgs[0]);
    assert(nx.targets == st.targets.push(msg_target(k)->0));
    lemma_find_target_push(st.targets, msg_target(k)->0, k);
    assert(forall|i: int|
        0 <= i < msgs.drop_first().len() ==> (#[trigger] msgs.drop_first()[i]).conversation_key
            == k) by {
        assert(forall|i: int|
            0 <= i < msgs.drop_first().len() ==> (#[trigger] msgs.drop_first()[i]) == msgs[i + 1]);
    }
    lemma_ingest_same_key_known(nx, selkey, save, notify, msgs.drop_first(), k);
}

// ------------------------------------------------------------------
// initial history
// ------------------------------------------------------------------
/// The in-memory message a durable record stands for.
pub open spec fn from_rec(r: RecView) -> ChatMessageView {
    ChatMessageView {
        ts_ms: r.ts_ms,
        dir: if r.dir == seq!['o', 'u', 't'] {
            MsgDir::Out
        } else {
            MsgDir::In
        },
        who: r.who,
        body: r.body,
    }
}

/// Buffers after appending a run of messages to one conversation.
pub open spec fn extend_buffer(
    bs: Seq<(Seq<char>, Seq<ChatMessageView>)>,
    k: Seq<char>,
    ms: Seq<ChatMessageView>,
) -> Seq<(Seq<char>, Seq<ChatMessageView>)>
    decreases ms.len(),
{
    if ms.len() == 0 {
        bs
    } else {
        extend_buffer(push_buffer(bs, k, ms[0]), k, ms.drop_first())
    }
}

/// Buffers after replaying each file's tail in order; a file with no
/// loadable records leaves no trace.
pub open spec fn load_fold(
    bs: Seq<(Seq<char>, Seq<ChatMessageView>)>,
    files: Seq<(Seq<char>, Seq<char>)>,
    limit: int,
) -> Seq<(Seq<char>, Seq<ChatMessageView>)>
    decreases files.len(),
{
    if files.len() == 0 {
        bs
    } else {
        let recs = crate::scrollback::load_spec(files[0].1, limit);
        let ms = Seq::new(recs.len(), |i: int| from_rec(recs[i]));
        let bs2 = if ms.len() == 0 {
            bs
        } else {
            extend_buffer(bs, files[0].0, ms)
        };
        load_fold(bs2, files.drop_first(), limit)
    }
}

proof fn lemma_extend_unique(
    bs: Seq<(Seq<char>, Seq<ChatMessageView>)>,
    k: Seq<char>,
    ms: Seq<ChatMessageView>,
)
    requires
        buffer_keys_unique(bs),
    ensures
        buffer_keys_unique(extend_buffer(bs, k, ms)),
    decreases ms.len(),
{
    if ms.len() > 0 {
        lemma_pushbuf_unique(bs, k, ms[0]);
        lemma_extend_unique(push_buffer(bs, k, ms[0]), k, ms.drop_first());
    }
}

impl App {
    /// Replays each conversation's durable history, as file contents
    /// keyed by conversation, into the in-memory buffers.
    #[verifier::rlimit(100)]
    pub fn load_initial_scrollback(&mut self, files: &Vec<(String, String)>, limit: usize)
        requires
            old(self).wf(),
            forall|i: int|
                0 <= i < files@.len() ==> crate::json::parse_len_ok(
                    (#[trigger] files@[i]).1@.len() as int,
                ),
        ensures
            final(self).wf(),
            final(self).buffers_view() == load_fold(
                old(self).buffers_view(),
                Seq::new(files@.len(), |i: int| (files@[i].0@, files@[i].1@)),
                limit as int,
            ),
            final(self).targets@ == old(self).targets@,
            final(self).selected == old(self).selected,
            final(self).unread_view() == old(self).unread_view(),
            final(self).mode == old(self).mode,
            final(self).input@ == old(self).input@,
            final(self).status@ == old(self).status@,
            final(self).account@ == old(self).account@,
            final(self).save_scrollback == old(self).save_scrollback,
            final(self).notify_send == old(self).notify_send,
    {
        let ghost fview = Seq::new(files@.len(), |i: int| (files@[i].0@, files@[i].1@));
        let ghost full = load_fold(old(self).buffers_view(), fview, limit as int);
        let mut k: usize = 0;
        proof {
            assert(fview.skip(0) =~= fview);
        }
        while k < files.len()
            invariant
                k <= files@.len(),
                fview == Seq::new(files@.len(), |i: int| (files@[i].0@, files@[i].1@)),
                fview.len() == files@.len(),
                forall|i: int|
                    0 <= i < files@.len() ==> crate::json::parse_len_ok(
                        (#[trigger] files@[i]).1@.len() as int,
                    ),
                buffer_keys_unique(self.buffers_view()),
                full == load_fold(self.buffers_view(), fview.skip(k as int), limit as int),
                self.targets@ == old(self).targets@,
                self.selected == old(self).selected,
                self.unread_view() == old(self).unread_view(),
                self.mode == old(self).mode,
                self.input@ == old(self).input@,
                self.status@ == old(self).status@,
                self.account@ == old(self).account@,
                self.save_scrollback == old(self).save_scrollback,
                self.notify_send == old(self).notify_send,
                old(self).wf(),
            decreases files@.len() - k,
        {
            let ghost bs0 = self.buffers_view();
            let ghost fk = fview[k as int];
            proof {
                assert(fview.skip(k as int)[0] == fk);
                assert(fview.skip(k as int).drop_first() =~= fview.skip(k + 1));
            }
            let recs = crate::scrollback::load_tail(files[k].1.as_str(), limit);
            let ghost srecs = crate::scrollback::load_spec(fk.1, limit as int);
            let ghost sms = Seq::new(srecs.len(), |i: int| from_rec(srecs[i]));
            if recs.len() > 0 {
                let key = files[k].0.clone();
                let mut j: usize = 0;
                proof {
                    assert(sms.skip(0) =~= sms);
                }
                while j < recs.len()
                    invariant
                        j <= recs@.len(),
                        recs@.len() == srecs.len(),
                        forall|i: int| 0 <= i < recs@.len() ==> (#[trigger] recs@[i])@ == srecs[i],
                        sms == Seq::new(srecs.len(), |i: int| from_rec(srecs[i])),
                        sms.len() == srecs.len(),
                        key@ == fk.0,
                        buffer_keys_unique(self.buffers_view()),
                        extend_buffer(self.buffers_view(), fk.0, sms.skip(j as int))
                            == extend_buffer(bs0, fk.0, sms),
                        self.targets@ == old(self).targets@,
                        self.selected == old(self).selected,
                        self.unread_view() == old(self).unread_view(),
                        self.mode == old(self).mode,
                        self.input@ == old(self).input@,
                        self.status@ == old(self).status@,
                        self.account@ == old(self).account@,
                        self.save_scrollback == old(self).save_scrollback,
                        self.notify_send == old(self).notify_send,
                        old(self).wf(),
                    decreases recs@.len() - j,
                {
                    let ghost cmv = sms[j as int];
                    proof {
                        assert(sms.skip(j as int)[0] == cmv);
                        assert(sms.skip(j as int).drop_first() =~= sms.skip(j + 1));
                    }
                    let dir_out = crate::text::str_eq(recs[j].dir.as_str(), "out");
                    proof {
                        reveal_strlit("out");
                        assert("out"@ =~= seq!['o', 'u', 't']);
                    }
                    let cm = ChatMessage {
                        ts_ms: recs[j].ts_ms,
                        dir: if dir_out {
                            MsgDir::Out
                        } else {
                            MsgDir::In
                        },
                        who: recs[j].who.clone(),
                        body: recs[j].body.clone(),
                    };
                    proof {
                        assert(cm@ == from_rec(srecs[j as int]));
                    }
                    let ghost bcur = self.buffers_view();
                    push_buffer_exec(&mut self.messages, key.as_str(), cm);
                    proof {
                        lemma_pushbuf_unique(bcur, fk.0, cmv);
                    }
                    j += 1;
                }
                proof {
                    assert(sms.skip(srecs.len() as int) =~= Seq::<ChatMessageView>::empty());
                    assert(self.buffers_view() == extend_buffer(bs0, fk.0, sms));
                }
            } else {
                proof {
                    assert(sms.len() == 0);
                }
            }
            k += 1;
        }
        proof {
            assert(fview.skip(files@.len() as int) =~= Seq::<(Seq<char>, Seq<char>)>::empty());
        }
    }
}

} // verus!
