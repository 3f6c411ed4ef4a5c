//! Replaying the times and identifiers a file was written with, so that the
//! same file can be written again byte for byte.
//!
//! A generator script writes each fixture and records beside it, in a
//! `<name>.calls.tsv` sidecar, how it was set up and every time and
//! identifier it asked for, in order. [`Replay`] hands those same values
//! back in the same order, and notes the first time it is asked for
//! something else, which [`Replay::finish`] then reports.

use std::sync::Arc;

use vstd::cell::invcell::InvCell;
use vstd::predicate::Predicate;
use vstd::prelude::*;

use crate::auid::{parse_auid, Auid};
use crate::text::{chars_of, decimal, push_decimal, push_str, same_text, string_from};
use crate::write::sources::{Clock, IdSource};
use crate::write::value::{find, find_char, from_unix_spec, int_text, parse_int, parse_iso_spec, Timestamp};

verus! {

/// What `{:?}` writes for a string: quotes around it, with the characters
/// that need it escaped.
pub uninterp spec fn debug_str(s: Seq<char>) -> Seq<char>;

/// std's `<str as Debug>::fmt`, through `format!`: the string quoted and
/// escaped. Its result is named by `debug_str` and not spelled out.
#[verifier::external_body]
fn debug_text(s: &str) -> (r: String)
    ensures
        r@ == debug_str(s@),
{
    format!("{s:?}")
}

/// A replay's state: the values still to hand out, and the first way the
/// requests went wrong, if any did.
///
/// A request for something other than the next value in the sidecar, or for
/// one after the sidecar has run out, is answered with a placeholder and
/// remembered; the file written then differs, and
/// [`finish`](Self::finish) says why.
#[derive(Debug)]
pub struct ReplayState {
    name: String,
    calls: Vec<(String, String)>,
    error: Option<String>,
}

/// What a replay's shared state may be: any state.
pub struct AnyState {}

impl Predicate<ReplayState> for AnyState {
    open spec fn predicate(&self, v: ReplayState) -> bool {
        true
    }
}

/// The values a fixture's sidecar lists, handed back in the same order.
///
/// A clone draws from the same sequence, so one replay can serve as both a
/// writer's clock and its identifier source.
#[derive(Clone)]
pub struct Replay {
    name: String,
    state: Arc<InvCell<ReplayState, AnyState>>,
}

/// What a sidecar says about how its fixture was written.
pub struct Sidecar {
    /// The sector size the file was written with.
    pub sector_size: u32,
    /// The writer's options, by name, where the generator set any.
    pub options: Vec<(String, bool)>,
    /// The user the generator said was logged in, if it said.
    pub user: Option<String>,
    /// The times and identifiers, to be replayed.
    pub replay: Replay,
}

/// The lines of a text: split at each `\n`, a `\r` before it dropped too,
/// with no empty line after a final `\n`.
pub open spec fn lines_of(s: Seq<char>) -> Seq<Seq<char>>
    decreases s.len(),
{
    if s.len() == 0 {
        Seq::empty()
    } else {
        match find_char(s, '\n') {
            None => seq![s],
            Some(i) => if 0 <= i < s.len() {
                let l = s.take(i);
                let line = if l.len() > 0 && l.last() == '\r' { l.drop_last() } else { l };
                seq![line] + lines_of(s.skip(i + 1))
            } else {
                seq![s]
            },
        }
    }
}

/// What a sidecar has said so far: sector size, options, user and calls.
pub type SidecarModel = (u32, Seq<(Seq<char>, bool)>, Option<Seq<char>>, Seq<(Seq<char>, Seq<char>)>);

/// The error for a line that is not a sidecar line.
pub open spec fn bad_line(line: Seq<char>, number: nat) -> Seq<char> {
    "line "@ + decimal(number) + " is not a sidecar line: "@ + debug_str(line)
}

/// What one line, numbered from one, adds to a sidecar.
pub open spec fn sidecar_step(st: SidecarModel, line: Seq<char>, number: nat)
    -> core::result::Result<SidecarModel, Seq<char>> {
    if line.len() == 0 || line[0] == '#' {
        Ok(st)
    } else {
        match find_char(line, '\t') {
            None => Err(bad_line(line, number)),
            Some(t) => {
                let kind = line.take(t);
                let value = line.skip(t + 1);
                if kind == "sector_size"@ {
                    match int_text(value, false, 0, u32::MAX as int) {
                        Some(v) => Ok((v as u32, st.1, st.2, st.3)),
                        None => Err(bad_line(line, number)),
                    }
                } else if kind == "option"@ {
                    match find_char(value, '\t') {
                        None => Err(bad_line(line, number)),
                        Some(u) => Ok((st.0, st.1.push((value.take(u), value.skip(u + 1) == "true"@)), st.2, st.3)),
                    }
                } else if kind == "user"@ {
                    Ok((st.0, st.1, Some(value), st.3))
                } else if kind == "now"@ || kind == "uuid4"@ {
                    Ok((st.0, st.1, st.2, st.3.push((kind, value))))
                } else {
                    Err(bad_line(line, number))
                }
            },
        }
    }
}

/// What the lines from the `k`th on add to a sidecar.
pub open spec fn sidecar_lines(lines: Seq<Seq<char>>, k: int, st: SidecarModel)
    -> core::result::Result<SidecarModel, Seq<char>>
    decreases lines.len() - k,
{
    if k < 0 || k >= lines.len() {
        Ok(st)
    } else {
        match sidecar_step(st, lines[k], (k + 1) as nat) {
            Err(e) => Err(e),
            Ok(next) => sidecar_lines(lines, k + 1, next),
        }
    }
}

/// What a sidecar's text says, or the error for its first bad line.
pub open spec fn sidecar_spec(text: Seq<char>) -> core::result::Result<SidecarModel, Seq<char>> {
    sidecar_lines(lines_of(text), 0, (4096u32, Seq::empty(), None, Seq::empty()))
}

/// Pairs of strings as text.
pub open spec fn pair_texts(s: Seq<(String, String)>) -> Seq<(Seq<char>, Seq<char>)> {
    s.map_values(|p: (String, String)| (p.0@, p.1@))
}

/// Options as text.
pub open spec fn option_texts(s: Seq<(String, bool)>) -> Seq<(Seq<char>, bool)> {
    s.map_values(|p: (String, bool)| (p.0@, p.1))
}

/// An optional string as text.
pub open spec fn opt_chars(o: Option<String>) -> Option<Seq<char>> {
    match o {
        Some(s) => Some(s@),
        None => None,
    }
}

/// The lines of a text.
fn lines(text: &[char]) -> (r: Vec<Vec<char>>)
    ensures
        r@.len() == lines_of(text@).len(),
        forall|k: int| 0 <= k < r@.len() ==> (#[trigger] r@[k])@ == lines_of(text@)[k],
{
    let mut out: Vec<Vec<char>> = Vec::new();
    let mut start: usize = 0;
    let n = text.len();
    assert(text@.skip(0) =~= text@);
    while start < n
        invariant
            n == text@.len(),
            start <= n,
            forall|k: int| 0 <= k < out@.len() ==> (#[trigger] out@[k])@ == (lines_of(text@))[k],
            lines_of(text@) == out@.map_values(|v: Vec<char>| v@) + lines_of(text@.skip(start as int)),
        decreases n - start,
    {
        let ghost rest = text@.skip(start as int);
        let mut end = start;
        while end < n && text[end] != '\n'
            invariant
                start <= end <= n,
                n == text@.len(),
                forall|j: int| start <= j < end ==> text@[j] != '\n',
            decreases n - end,
        {
            end = end + 1;
        }
        proof {
            lemma_find_first(rest, '\n', (end - start) as int);
        }
        let cut = if end < n && end > start && text[end - 1] == '\r' { end - 1 } else { end };
        let line = crate::text::copy_range(text, start, cut);
        proof {
            let l = rest.take(end - start);
            assert(l =~= text@.subrange(start as int, end as int));
            if end < n && end > start && text@[end - 1] == '\r' {
                assert(line@ =~= l.drop_last());
            } else {
                assert(line@ =~= l);
            }
        }
        let ghost before = out@;
        out.push(line);
        let next = if end < n { end + 1 } else { n };
        proof {
            if end < n {
                assert(rest.skip(end - start + 1) =~= text@.skip(next as int));
            } else {
                assert(text@.skip(next as int) =~= Seq::<char>::empty());
                assert(lines_of(Seq::<char>::empty()) =~= Seq::<Seq<char>>::empty());
                assert(rest.take(end - start) =~= rest);
            }
            assert(lines_of(rest) == seq![line@] + lines_of(text@.skip(next as int)));
            assert(lines_of(text@) =~= out@.map_values(|v: Vec<char>| v@) + lines_of(text@.skip(next as int)));
            assert(out@.map_values(|v: Vec<char>| v@) =~= before.map_values(|v: Vec<char>| v@).push(line@));
            assert forall|k: int| 0 <= k < out@.len() implies (#[trigger] out@[k])@ == (lines_of(text@))[k] by {
                if k < before.len() {
                    assert(out@[k] == before[k]);
                } else {
                    assert(lines_of(text@)[k] == (out@.map_values(|v: Vec<char>| v@) + lines_of(text@.skip(next as int)))[k]);
                }
            }
        }
        start = next;
    }
    proof {
        assert(text@.skip(start as int) =~= Seq::<char>::empty());
        assert(lines_of(Seq::<char>::empty()) =~= Seq::<Seq<char>>::empty());
    }
    out
}

/// The first `c` in `s` is at `i` where none comes before it and `s[i]` is
/// it, and there is none where none comes before the end.
proof fn lemma_find_first(s: Seq<char>, c: char, i: int)
    requires
        0 <= i <= s.len(),
        forall|j: int| 0 <= j < i ==> s[j] != c,
        i < s.len() ==> s[i] == c,
    ensures
        find_char(s, c) == (if i < s.len() { Some(i) } else { None::<int> }),
    decreases i,
{
    if i > 0 {
        assert forall|j: int| 0 <= j < i - 1 implies s.drop_first()[j] != c by {
            assert(s.drop_first()[j] == s[j + 1]);
        }
        if i < s.len() {
            assert(s.drop_first()[i - 1] == s[i]);
        }
        lemma_find_first(s.drop_first(), c, i - 1);
    }
}

/// A replay's state: the fixture's name, the values still to hand out, and
/// the first way the requests went wrong, if any did.
pub type ReplayModel = (Seq<char>, Seq<(Seq<char>, Seq<char>)>, Option<Seq<char>>);

/// `error`, or `e` where there is none yet.
pub open spec fn first_error(error: Option<Seq<char>>, e: Seq<char>) -> Option<Seq<char>> {
    if error is Some { error } else { Some(e) }
}

/// Asking a replay for a value of `kind`: the value, where the next one is
/// of that kind, and the replay after.
pub open spec fn ask(m: ReplayModel, kind: Seq<char>) -> (Option<Seq<char>>, ReplayModel) {
    let (name, calls, error) = m;
    if calls.len() == 0 {
        (None, (name, calls, first_error(error,
            name + ": the writer asked for "@ + kind + " after pyaaf2 had stopped asking"@)))
    } else if calls[0].0 == kind {
        (Some(calls[0].1), (name, calls.drop_first(), error))
    } else {
        (None, (name, calls.drop_first(), first_error(error,
            name + ": the writer asked for "@ + kind + " where pyaaf2 asked for "@ + calls[0].0)))
    }
}

/// Asking a replay for the time: what it answers, and the replay after.
pub open spec fn ask_now(m: ReplayModel) -> (Timestamp, ReplayModel) {
    let (v, next) = ask(m, "now"@);
    match v {
        None => (from_unix_spec(0), next),
        Some(text) => match parse_iso_spec(text) {
            Some(t) => (t, next),
            None => (from_unix_spec(0), (next.0, next.1, first_error(next.2,
                next.0 + ": Some("@ + debug_str(text) + ") in the sidecar is not an ISO time"@))),
        },
    }
}

/// Asking a replay for an identifier: the bytes of what it answers, and the
/// replay after.
pub open spec fn ask_uuid(m: ReplayModel) -> (Seq<u8>, ReplayModel) {
    let (v, next) = ask(m, "uuid4"@);
    match v {
        None => (Seq::new(16, |_i: int| 0u8), next),
        Some(text) => match parse_auid(text) {
            Some(b) => (b, next),
            None => (Seq::new(16, |_i: int| 0u8), (next.0, next.1, first_error(next.2,
                next.0 + ": Some("@ + debug_str(text) + ") in the sidecar is not a UUID"@))),
        },
    }
}

/// What finishing a replay says: its error, or how many values were left
/// unasked for and the first of them.
pub open spec fn finish_spec(m: ReplayModel) -> core::result::Result<(), Seq<char>> {
    let (name, calls, error) = m;
    match error {
        Some(e) => Err(e),
        None => if calls.len() == 0 {
            Ok(())
        } else {
            Err(name + ": pyaaf2 asked for "@ + decimal(calls.len()) + " more value(s) than the writer did, starting with ("@
                + debug_str(calls[0].0) + ", "@ + debug_str(calls[0].1) + ")"@)
        },
    }
}

impl ReplayState {
    /// The replay's state.
    pub closed spec fn model(&self) -> ReplayModel {
        (self.name@, pair_texts(self.calls@), opt_chars(self.error))
    }

    /// Notes `e` as what went wrong, unless something already did.
    fn note(&mut self, e: String)
        ensures
            final(self).model() == (old(self).model().0, old(self).model().1, first_error(old(self).model().2, e@)),
    {
        if self.error.is_none() {
            self.error = Some(e);
        }
    }

    /// The next value, which must be of `kind`, or `None` after noting why
    /// not.
    fn next(&mut self, kind: &str) -> (r: Option<String>)
        ensures
            opt_chars(r) == ask(old(self).model(), kind@).0,
            final(self).model() == ask(old(self).model(), kind@).1,
    {
        let ghost m = self.model();
        if self.calls.len() == 0 {
            let mut e = String::new();
            push_str(&mut e, self.name.as_str());
            push_str(&mut e, ": the writer asked for ");
            push_str(&mut e, kind);
            push_str(&mut e, " after pyaaf2 had stopped asking");
            self.note(e);
            return None;
        }
        let (k, value) = self.calls.remove(0);
        proof {
            assert(pair_texts(self.calls@) =~= m.1.drop_first());
        }
        if same_text(k.as_str(), kind) {
            return Some(value);
        }
        let mut e = String::new();
        push_str(&mut e, self.name.as_str());
        push_str(&mut e, ": the writer asked for ");
        push_str(&mut e, kind);
        push_str(&mut e, " where pyaaf2 asked for ");
        push_str(&mut e, k.as_str());
        self.note(e);
        None
    }

    /// Whether the writer asked for exactly what the sidecar lists: every
    /// value, in order, and no more. Fails with what the writer first asked
    /// for that it did not list, or with how many values were left
    /// unasked for.
    pub fn finish(&self) -> (r: core::result::Result<(), String>)
        ensures
            match finish_spec(self.model()) {
                Ok(()) => r is Ok,
                Err(e) => r matches Err(t) && t@ == e,
            },
    {
        match &self.error {
            Some(e) => { return Err(e.clone()); },
            None => {},
        }
        if self.calls.len() == 0 {
            return Ok(());
        }
        let mut e = String::new();
        push_str(&mut e, self.name.as_str());
        push_str(&mut e, ": pyaaf2 asked for ");
        push_decimal(&mut e, self.calls.len() as u64);
        push_str(&mut e, " more value(s) than the writer did, starting with (");
        let first = debug_text(self.calls[0].0.as_str());
        push_str(&mut e, first.as_str());
        push_str(&mut e, ", ");
        let second = debug_text(self.calls[0].1.as_str());
        push_str(&mut e, second.as_str());
        push_str(&mut e, ")");
        Err(e)
    }

    /// The next time, or the epoch where the next value is not a time.
    pub fn now(&mut self) -> (r: Timestamp)
        ensures
            (r, final(self).model()) == ask_now(old(self).model()),
    {
        let value = self.next("now");
        match value {
            None => Timestamp::from_unix(0),
            Some(text) => match Timestamp::parse_iso(text.as_str()) {
                Some(t) => t,
                None => {
                    let mut e = String::new();
                    push_str(&mut e, self.name.as_str());
                    push_str(&mut e, ": Some(");
                    let d = debug_text(text.as_str());
                    push_str(&mut e, d.as_str());
                    push_str(&mut e, ") in the sidecar is not an ISO time");
                    self.note(e);
                    Timestamp::from_unix(0)
                },
            },
        }
    }

    /// The next identifier, or the nil one where the next value is not an
    /// identifier.
    pub fn uuid4(&mut self) -> (r: Auid)
        ensures
            (r@, final(self).model()) == ask_uuid(old(self).model()),
    {
        let value = self.next("uuid4");
        match value {
            None => Auid::nil(),
            Some(text) => match Auid::parse(text.as_str()) {
                Ok(id) => id,
                Err(_) => {
                    let mut e = String::new();
                    push_str(&mut e, self.name.as_str());
                    push_str(&mut e, ": Some(");
                    let d = debug_text(text.as_str());
                    push_str(&mut e, d.as_str());
                    push_str(&mut e, ") in the sidecar is not a UUID");
                    self.note(e);
                    Auid::nil()
                },
            },
        }
    }
}

/// Whether a line is `kind`.
fn is_kind(kind: &Vec<char>, word: &str) -> (r: bool)
    ensures
        r == (kind@ == word@),
{
    let k = string_from(kind.as_slice());
    same_text(k.as_str(), word)
}

impl Sidecar {
    /// Parses a sidecar's text, for the fixture called `name`.
    ///
    /// Lines are tab-separated: `sector_size` and a size, `option`, a name
    /// and `true` or `false`, `user` and a name, and then `now` and `uuid4`
    /// lines, which are the calls to replay. Lines starting `#` are
    /// comments. Fails naming the first line that is none of those.
    pub fn parse(name: &str, text: &str) -> (r: core::result::Result<Self, String>)
        ensures
            match sidecar_spec(text@) {
                Ok(m) => r matches Ok(s) && s.sector_size == m.0 && option_texts(s.options@) == m.1
                    && opt_chars(s.user) == m.2 && s.replay.name_spec() == name@,
                Err(e) => r matches Err(t) && t@ == e,
            },
    {
        let cs = chars_of(text);
        let ls = lines(cs.as_slice());
        let ghost lv = lines_of(text@);
        let mut sector_size: u32 = 4096;
        let mut options: Vec<(String, bool)> = Vec::new();
        let mut user: Option<String> = None;
        let mut calls: Vec<(String, String)> = Vec::new();
        let mut k: usize = 0;
        proof {
            assert(option_texts(options@) =~= Seq::<(Seq<char>, bool)>::empty());
            assert(pair_texts(calls@) =~= Seq::<(Seq<char>, Seq<char>)>::empty());
        }
        while k < ls.len()
            invariant
                lv == lines_of(text@),
                ls@.len() == lv.len(),
                forall|j: int| 0 <= j < ls@.len() ==> (#[trigger] ls@[j])@ == lv[j],
                k <= ls@.len(),
                sidecar_spec(text@) == sidecar_lines(lv, k as int,
                    (sector_size, option_texts(options@), opt_chars(user), pair_texts(calls@))),
            decreases ls@.len() - k,
        {
            let line = &ls[k];
            let ghost st = (sector_size, option_texts(options@), opt_chars(user), pair_texts(calls@));
            assert(line@ == lv[k as int]);
            if line.len() == 0 || line[0] == '#' {
                k = k + 1;
                continue;
            }
            let tab = find(line.as_slice(), '\t');
            let t = match tab {
                Some(t) => t,
                None => { return Err(Self::bad(line, k)); },
            };
            let kind = crate::text::copy_range(line.as_slice(), 0, t);
            let value = crate::text::copy_range(line.as_slice(), t + 1, line.len());
            assert(kind@ =~= line@.take(t as int));
            assert(value@ =~= line@.skip(t + 1));
            if is_kind(&kind, "sector_size") {
                match parse_int(value.as_slice(), false, 0, 0xFFFF_FFFF) {
                    Some(v) => { sector_size = v as u32; },
                    None => { return Err(Self::bad(line, k)); },
                }
            } else if is_kind(&kind, "option") {
                let tab2 = find(value.as_slice(), '\t');
                let u = match tab2 {
                    Some(u) => u,
                    None => { return Err(Self::bad(line, k)); },
                };
                let option = crate::text::copy_range(value.as_slice(), 0, u);
                let on = crate::text::copy_range(value.as_slice(), u + 1, value.len());
                assert(option@ =~= value@.take(u as int));
                assert(on@ =~= value@.skip(u + 1));
                let on_text = string_from(on.as_slice());
                let flag = same_text(on_text.as_str(), "true");
                let ghost before = options@;
                options.push((string_from(option.as_slice()), flag));
                assert(option_texts(options@) =~= option_texts(before).push((option@, flag)));
            } else if is_kind(&kind, "user") {
                user = Some(string_from(value.as_slice()));
            } else if is_kind(&kind, "now") || is_kind(&kind, "uuid4") {
                let ghost before = calls@;
                calls.push((string_from(kind.as_slice()), string_from(value.as_slice())));
                assert(pair_texts(calls@) =~= pair_texts(before).push((kind@, value@)));
            } else {
                return Err(Self::bad(line, k));
            }
            k = k + 1;
        }
        let mut replay_name = String::new();
        push_str(&mut replay_name, name);
        assert(replay_name@ =~= name@);
        let state = ReplayState { name: replay_name, calls, error: None };
        let replay = Replay::new(state);
        Ok(Self { sector_size, options, user, replay })
    }

    /// The error for line `k`, counted from zero.
    fn bad(line: &Vec<char>, k: usize) -> (r: String)
        requires
            k < usize::MAX,
        ensures
            r@ == bad_line(line@, (k + 1) as nat),
    {
        let mut e = String::new();
        push_str(&mut e, "line ");
        push_decimal(&mut e, (k + 1) as u64);
        push_str(&mut e, " is not a sidecar line: ");
        let l = string_from(line.as_slice());
        let d = debug_text(l.as_str());
        push_str(&mut e, d.as_str());
        e
    }

    /// Whether the generator turned `option` on.
    pub fn option(&self, option: &str) -> (r: bool)
        ensures
            r == exists|i: int| 0 <= i < self.options@.len() && (#[trigger] self.options@[i]).0@ == option@
                && self.options@[i].1,
    {
        let mut i: usize = 0;
        while i < self.options.len()
            invariant
                i <= self.options@.len(),
                forall|j: int| 0 <= j < i ==> !((#[trigger] self.options@[j]).0@ == option@ && self.options@[j].1),
            decreases self.options@.len() - i,
        {
            if same_text(self.options[i].0.as_str(), option) && self.options[i].1 {
                return true;
            }
            i = i + 1;
        }
        false
    }
}

impl Replay {
    /// The fixture's name.
    pub closed spec fn name_spec(&self) -> Seq<char> {
        self.name@
    }

    /// A replay that hands out what `state` holds, shared by its clones.
    pub fn new(state: ReplayState) -> (r: Self)
        ensures
            r.name_spec() == state.model().0,
    {
        let mut name = String::new();
        push_str(&mut name, state.name.as_str());
        assert(name@ =~= state.model().0);
        let cell = InvCell::new(state, Ghost(AnyState {}));
        Replay { name, state: Arc::new(cell) }
    }

    /// Takes the shared state out, leaving an empty one of the same fixture
    /// in its place.
    fn take(&self) -> (r: ReplayState) {
        let mut name = String::new();
        push_str(&mut name, self.name.as_str());
        let blank = ReplayState { name, calls: Vec::new(), error: None };
        self.state.replace(blank)
    }

    /// The next time, or the epoch where the next value is not a time: what
    /// the shared state, whatever it holds now, answers.
    pub fn now(&mut self) -> (r: Timestamp)
        ensures
            final(self).name_spec() == old(self).name_spec(),
            exists|m: ReplayModel| #[trigger] ask_now(m).0 == r,
    {
                let mut st = self.take();
        let ghost m = st.model();
        let r = st.now();
        self.state.replace(st);
        assert(ask_now(m).0 == r);
        r
    }

    /// The next identifier, or the nil one where the next value is not an
    /// identifier: what the shared state, whatever it holds now, answers.
    pub fn uuid4(&mut self) -> (r: Auid)
        ensures
            final(self).name_spec() == old(self).name_spec(),
            exists|m: ReplayModel| #[trigger] ask_uuid(m).0 == r@,
    {
                let mut st = self.take();
        let ghost m = st.model();
        let r = st.uuid4();
        self.state.replace(st);
        assert(ask_uuid(m).0 == r@);
        r
    }

    /// Whether the writer asked for exactly what the sidecar lists: what
    /// finishing the shared state, whatever it holds now, says.
    pub fn finish(&self) -> (r: core::result::Result<(), String>)
        ensures
            exists|m: ReplayModel| match #[trigger] finish_spec(m) {
                Ok(()) => r is Ok,
                Err(e) => r matches Err(t) && t@ == e,
            },
    {
                let st = self.take();
        let ghost m = st.model();
        let r = st.finish();
        self.state.replace(st);
        r
    }
}

impl Clock for Replay {
    fn now(&mut self) -> (r: Timestamp)
        ensures
            exists|m: ReplayModel| #[trigger] ask_now(m).0 == r,
    {
        Replay::now(self)
    }
}

impl IdSource for Replay {
    fn uuid4(&mut self) -> (r: Auid)
        ensures
            exists|m: ReplayModel| #[trigger] ask_uuid(m).0 == r@,
    {
        Replay::uuid4(self)
    }
}

} // verus!
