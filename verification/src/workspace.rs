//! What a workspace is called.
//!
//! A header may name the project folder itself; else the workspace's own file does; a
//! workspace with neither is a window that was open for a while.

use vstd::prelude::*;

use crate::fx::IdMap;
use crate::headers::{opt_text, SessionHeader};
use crate::json::{holds, json_parsed, lemma_member, member, parse, text_of, Doc, Json};
use crate::text::{from_utf8_lossy, same, utf8_lossy, views};
use crate::types::nibble;

verus! {

broadcast use vstd::string::group_string_axioms;

/// What a workspace is called.
#[derive(Debug)]
pub struct WorkspaceInfo {
    /// The last part of the project folder, or words for a window.
    pub label: String,
    /// The whole folder, where it is known.
    pub folder: Option<String>,
}

/// What a workspace is called, mathematically.
pub struct InfoView {
    pub label: Seq<char>,
    pub folder: Option<Seq<char>>,
}

impl View for WorkspaceInfo {
    type V = InfoView;

    open spec fn view(&self) -> InfoView {
        InfoView { label: self.label@, folder: opt_text(self.folder) }
    }
}

/// The value of a hexadecimal digit.
fn hexval(c: u8) -> (r: Option<u8>)
    ensures
        match r {
            Some(v) => nibble(c) == Some(v as nat) && v < 16,
            None => nibble(c) is None,
        },
{
    if 0x30 <= c && c <= 0x39 {
        Some(c - 0x30)
    } else if 0x61 <= c && c <= 0x66 {
        Some(c - 0x61 + 10)
    } else if 0x41 <= c && c <= 0x46 {
        Some(c - 0x41 + 10)
    } else {
        None
    }
}

/// The bytes begin with a percent sign and two hexadecimal digits.
pub open spec fn is_escape(b: Seq<u8>) -> bool {
    b.len() >= 3 && b[0] == 0x25 && nibble(b[1]) is Some && nibble(b[2]) is Some
}

/// The bytes with each escape replaced by what it stands for; all else stays.
pub open spec fn unescaped(b: Seq<u8>) -> Seq<u8>
    decreases b.len(),
{
    if b.len() == 0 {
        Seq::empty()
    } else if is_escape(b) {
        seq![(16 * nibble(b[1])->0 + nibble(b[2])->0) as u8] + unescaped(b.skip(3))
    } else {
        seq![b[0]] + unescaped(b.skip(1))
    }
}

/// A text with its percent escapes replaced, for showing. What is no escape stays as it is.
pub fn percent_decode(s: &str) -> (r: String)
    ensures
        r@ == utf8_lossy(unescaped(vstd::utf8::encode_utf8(s@))),
        vstd::utf8::valid_utf8(unescaped(vstd::utf8::encode_utf8(s@))) ==> r@
            == vstd::utf8::decode_utf8(unescaped(vstd::utf8::encode_utf8(s@))),
{
    let b = s.as_bytes();
    let n: usize = b.len();
    let ghost bs = b@;
    let mut out: Vec<u8> = Vec::new();
    let mut i: usize = 0;
    assert(bs.skip(0) =~= bs);
    assert(out@ + unescaped(bs.skip(0)) =~= unescaped(bs));
    while i < n
        invariant
            i <= n,
            n == bs.len(),
            bs == b@,
            out@ + unescaped(bs.skip(i as int)) == unescaped(bs),
        decreases n - i,
    {
        let ghost rest = bs.skip(i as int);
        let ghost o0 = out@;
        let mut code: Option<u8> = None;
        if b[i] == 0x25 && n - i > 2 {
            match (hexval(b[i + 1]), hexval(b[i + 2])) {
                (Some(h), Some(l)) => {
                    code = Some(h * 16 + l);
                },
                _ => {},
            }
        }
        proof {
            assert(rest[0] == bs[i as int]);
            if n - i > 2 {
                assert(rest[1] == bs[i + 1]);
                assert(rest[2] == bs[i + 2]);
            }
            assert(code is Some <==> is_escape(rest));
        }
        match code {
            Some(c) => {
                out.push(c);
                proof {
                    assert(rest.skip(3) =~= bs.skip(i + 3));
                    assert(o0 + (seq![c] + unescaped(bs.skip(i + 3))) =~= out@ + unescaped(
                        bs.skip(i + 3),
                    ));
                }
                i += 3;
            },
            None => {
                out.push(b[i]);
                proof {
                    assert(rest.skip(1) =~= bs.skip(i + 1));
                    assert(o0 + (seq![bs[i as int]] + unescaped(bs.skip(i + 1))) =~= out@
                        + unescaped(bs.skip(i + 1)));
                }
                i += 1;
            },
        }
    }
    proof {
        assert(bs.skip(i as int) =~= Seq::<u8>::empty());
        assert(out@ =~= unescaped(bs));
    }
    from_utf8_lossy(out.as_slice())
}

/// A text without the slashes at its end.
pub open spec fn unslashed(s: Seq<char>) -> Seq<char>
    decreases s.len(),
{
    if s.len() > 0 && s.last() == '/' {
        unslashed(s.drop_last())
    } else {
        s
    }
}

/// What follows the last slash.
pub open spec fn after_slash(s: Seq<char>) -> Seq<char>
    decreases s.len(),
{
    if s.len() == 0 || s.last() == '/' {
        Seq::empty()
    } else {
        after_slash(s.drop_last()).push(s.last())
    }
}

/// The last part of a path that is not empty; the path itself where there is none.
pub open spec fn last_part(folder: Seq<char>) -> Seq<char> {
    if unslashed(folder).len() == 0 {
        folder
    } else {
        after_slash(unslashed(folder))
    }
}

/// The label of a folder.
pub open spec fn folder_label(folder: Seq<char>) -> Seq<char> {
    utf8_lossy(unescaped(vstd::utf8::encode_utf8(last_part(folder))))
}

/// `str::trim_end_matches` with a slash: all slashes at the end are gone.
#[verifier::external_body]
fn trim_slashes(s: &str) -> (r: &str)
    ensures
        r@.is_prefix_of(s@),
        forall|i: int| r@.len() <= i < s@.len() ==> #[trigger] s@[i] == '/',
        r@.len() > 0 ==> r@.last() != '/',
{
    s.trim_end_matches('/')
}

/// `str::rsplit_once` with a slash: what stands before and after its last occurrence.
#[verifier::external_body]
pub(crate) fn split_last_slash(s: &str) -> (r: Option<(&str, &str)>)
    ensures
        r is Some <==> s@.contains('/'),
        r matches Some((a, b)) ==> s@ == a@.push('/') + b@ && !b@.contains('/'),
{
    s.rsplit_once('/')
}

proof fn lemma_unslashed(s: Seq<char>, t: Seq<char>)
    requires
        t.is_prefix_of(s),
        forall|i: int| t.len() <= i < s.len() ==> #[trigger] s[i] == '/',
        t.len() > 0 ==> t.last() != '/',
    ensures
        unslashed(s) == t,
    decreases s.len(),
{
    assert(t =~= s.subrange(0, t.len() as int));
    if t.len() == s.len() {
        assert(t =~= s);
    } else {
        assert(s[s.len() - 1] == '/');
        let r = s.drop_last();
        assert(t =~= r.subrange(0, t.len() as int));
        assert forall|i: int| t.len() <= i < r.len() implies #[trigger] r[i] == '/' by {
            assert(s[i] == '/');
        }
        lemma_unslashed(r, t);
    }
}

proof fn lemma_after_slash(a: Seq<char>, b: Seq<char>)
    requires
        !b.contains('/'),
    ensures
        after_slash(a.push('/') + b) == b,
        after_slash(b) == b,
    decreases b.len(),
{
    let s = a.push('/') + b;
    if b.len() == 0 {
        assert(s =~= a.push('/'));
        assert(after_slash(s) =~= b);
    } else {
        let c = b.drop_last();
        assert(b.last() != '/') by {
            assert(b.contains(b[b.len() - 1]));
        }
        assert(!c.contains('/')) by {
            if c.contains('/') {
                let i = choose|i: int| 0 <= i < c.len() && c[i] == '/';
                assert(b[i] == '/');
            }
        }
        lemma_after_slash(a, c);
        assert(s.drop_last() =~= a.push('/') + c);
        assert(s.last() == b.last());
        assert(c.push(b.last()) =~= b);
    }
}

/// The label of a folder: its last part, with escapes replaced.
pub fn label_of(folder: &str) -> (r: String)
    ensures
        r@ == folder_label(folder@),
{
    let t = trim_slashes(folder);
    proof {
        lemma_unslashed(folder@, t@);
    }
    if t.is_empty() {
        return percent_decode(folder);
    }
    match split_last_slash(t) {
        Some((a, b)) => {
            proof {
                lemma_after_slash(a@, b@);
            }
            percent_decode(b)
        },
        None => {
            proof {
                lemma_after_slash(t@, t@);
            }
            percent_decode(t)
        },
    }
}

/// The text is made of digits.
pub open spec fn all_digits(s: Seq<char>) -> bool {
    s.len() > 0 && forall|i: int| 0 <= i < s.len() ==> '0' <= #[trigger] s[i] <= '9'
}

/// The label of a workspace of which no folder is known.
pub open spec fn window_label(wid: Seq<char>) -> Seq<char> {
    if wid == "empty-window"@ {
        "(无工作区)"@
    } else if all_digits(wid) {
        "(临时窗口 "@ + wid + ")"@
    } else {
        "("@ + crate::text::head(wid, 8) + "…)"@
    }
}

/// Whether the text is made of digits.
fn is_number(s: &str) -> (r: bool)
    ensures
        r == all_digits(s@),
{
    if s.is_empty() {
        return false;
    }
    let ascii = s.is_ascii();
    let b = s.as_bytes();
    let n: usize = b.len();
    if !ascii {
        proof {
            if all_digits(s@) {
                assert(vstd::utf8::is_ascii_chars(s@));
            }
        }
        return false;
    }
    proof {
        vstd::utf8::is_ascii_chars_encode_utf8(s@);
    }
    let mut i: usize = 0;
    while i < n
        invariant
            i <= n,
            n == b@.len(),
            n == s@.len(),
            b@ == vstd::utf8::encode_utf8(s@),
            vstd::utf8::is_ascii_chars(s@),
            forall|k: int| 0 <= k < n ==> #[trigger] s@[k] as u8 == b@[k],
            forall|k: int| 0 <= k < i ==> '0' <= #[trigger] s@[k] <= '9',
        decreases n - i,
    {
        let c: u8 = b[i];
        assert(s@[i as int] as u8 == c);
        if c < 0x30 || c > 0x39 {
            return false;
        }
        i += 1;
    }
    true
}

/// What a workspace of which no folder is known is called.
pub fn fallback(wid: &str) -> (r: WorkspaceInfo)
    ensures
        r@ == (InfoView { label: window_label(wid@), folder: None }),
{
    let label = if same(wid, "empty-window") {
        "(无工作区)".to_owned()
    } else if is_number(wid) {
        crate::text::join3("(临时窗口 ", wid, ")")
    } else {
        crate::text::join3("(", crate::text::first_chars(wid, 8), "…)")
    };
    WorkspaceInfo { label, folder: None }
}

/// What a workspace with this folder is called.
pub open spec fn folder_info(folder: Seq<char>) -> InfoView {
    InfoView { label: folder_label(folder), folder: Some(folder) }
}

fn from_folder(folder: &str) -> (r: WorkspaceInfo)
    ensures
        r@ == folder_info(folder@),
{
    WorkspaceInfo { label: label_of(folder), folder: Some(folder.to_owned()) }
}

/// The folder that a workspace's file names: one folder, or a file that lists several.
pub open spec fn named_folder(d: Doc) -> Option<Seq<char>> {
    match text_of(member(d, "folder"@)) {
        Some(f) => Some(f),
        None => text_of(member(d, "workspace"@)),
    }
}

/// The folder that a workspace's document names.
pub fn folder_of_document(json: &Json) -> (r: Option<String>)
    ensures
        opt_text(r) == named_folder(json@),
{
    match json.text("folder") {
        Some(f) => Some(f),
        None => json.text("workspace"),
    }
}

/// The folder in the text of a workspace's file.
pub open spec fn file_folder(text: Seq<char>) -> Option<Seq<char>> {
    match json_parsed(text) {
        Ok(d) => named_folder(d),
        Err(_) => None,
    }
}

/// The folder in the text of a workspace's file.
pub fn folder_from_json(text: &str) -> (r: Option<String>)
    ensures
        opt_text(r) == file_folder(text@),
{
    match parse(text) {
        Ok(json) => folder_of_document(&json),
        Err(_) => None,
    }
}

/// The folder that the first header of this workspace with one names.
pub open spec fn header_folder(s: Seq<SessionHeader>, wid: Seq<char>) -> Option<Seq<char>>
    decreases s.len(),
{
    if s.len() == 0 {
        None
    } else {
        match header_folder(s.drop_last(), wid) {
            Some(f) => Some(f),
            None => if opt_text(s.last().workspace_id) == Some(wid) {
                opt_text(s.last().workspace_folder)
            } else {
                None
            },
        }
    }
}

/// Some session belongs to this workspace.
pub open spec fn is_used(s: Seq<SessionHeader>, wid: Seq<char>) -> bool {
    exists|i: int| 0 <= i < s.len() && opt_text((#[trigger] s[i]).workspace_id) == Some(wid)
}

/// What a workspace is called, from what the headers say and the text of its file.
pub open spec fn info_of(
    s: Seq<SessionHeader>,
    wid: Seq<char>,
    file: Option<Seq<char>>,
) -> InfoView {
    match header_folder(s, wid) {
        Some(f) => folder_info(f),
        None => match file {
            Some(t) => match file_folder(t) {
                Some(f) => folder_info(f),
                None => InfoView { label: window_label(wid), folder: None },
            },
            None => InfoView { label: window_label(wid), folder: None },
        },
    }
}

/// What the headers alone say.
fn from_headers(sessions: &[SessionHeader]) -> (r: IdMap<WorkspaceInfo>)
    ensures
        r.wf(),
        forall|w: Seq<char>| #[trigger]
            r@.contains_key(w) <==> header_folder(sessions@, w) is Some,
        forall|w: Seq<char>| #[trigger]
            r@.contains_key(w) ==> r@[w]@ == folder_info(header_folder(sessions@, w)->0),
{
    let ghost s = sessions@;
    let mut map: IdMap<WorkspaceInfo> = IdMap::new();
    let mut i: usize = 0;
    while i < sessions.len()
        invariant
            i <= sessions@.len(),
            s == sessions@,
            map.wf(),
            forall|w: Seq<char>| #[trigger]
                map@.contains_key(w) <==> header_folder(s.take(i as int), w) is Some,
            forall|w: Seq<char>| #[trigger]
                map@.contains_key(w) ==> map@[w]@ == folder_info(
                    header_folder(s.take(i as int), w)->0,
                ),
        decreases sessions@.len() - i,
    {
        proof {
            assert(s.take(i + 1).drop_last() =~= s.take(i as int));
            assert(s.take(i + 1).last() == s[i as int]);
        }
        match (&sessions[i].workspace_id, &sessions[i].workspace_folder) {
            (Some(wid), Some(folder)) => {
                assert(map@.contains_key(wid@) <==> header_folder(s.take(i as int), wid@) is Some);
                if !map.contains(wid.as_str()) {
                    let info = from_folder(folder.as_str());
                    map.insert(wid.clone(), info);
                }
            },
            _ => {},
        }
        i += 1;
    }
    assert(s.take(i as int) =~= s);
    map
}

/// The workspaces of `s` of which no header among `all` names the folder: each once, where
/// it is first met.
pub open spec fn unresolved_ids(all: Seq<SessionHeader>, s: Seq<SessionHeader>) -> Seq<Seq<char>>
    decreases s.len(),
{
    if s.len() == 0 {
        Seq::empty()
    } else {
        let rest = unresolved_ids(all, s.drop_last());
        match opt_text(s.last().workspace_id) {
            Some(w) => if header_folder(all, w) is None && !rest.contains(w) {
                rest.push(w)
            } else {
                rest
            },
            None => rest,
        }
    }
}

/// The workspaces of which no header names the folder, so that their files must be read:
/// each once, in the order of the sessions.
pub fn unresolved(sessions: &[SessionHeader]) -> (r: Vec<String>)
    ensures
        views(r@) == unresolved_ids(sessions@, sessions@),
        views(r@).no_duplicates(),
        forall|w: Seq<char>| #[trigger]
            views(r@).contains(w) <==> is_used(sessions@, w) && header_folder(sessions@, w) is None,
{
    let ghost s = sessions@;
    let map = from_headers(sessions);
    let mut seen = crate::fx::NameSet::new();
    let mut out: Vec<String> = Vec::new();
    let mut i: usize = 0;
    proof {
        assert(views(out@).to_set() =~= Set::<Seq<char>>::empty());
    }
    while i < sessions.len()
        invariant
            i <= sessions@.len(),
            s == sessions@,
            map.wf(),
            forall|w: Seq<char>| #[trigger] map@.contains_key(w) <==> header_folder(s, w) is Some,
            views(out@) == unresolved_ids(s, s.take(i as int)),
            views(out@).no_duplicates(),
            seen@ =~= views(out@).to_set(),
            forall|w: Seq<char>| #[trigger]
                seen@.contains(w) <==> is_used(s.take(i as int), w) && header_folder(s, w) is None,
        decreases sessions@.len() - i,
    {
        proof {
            assert(s.take(i + 1).drop_last() =~= s.take(i as int));
            assert(s.take(i + 1).last() == s[i as int]);
            assert forall|w: Seq<char>| #[trigger] is_used(s.take(i + 1), w) <==> is_used(
                s.take(i as int),
                w,
            ) || opt_text(s[i as int].workspace_id) == Some(w) by {
                lemma_used_step(s, i as int, w);
            }
        }
        match &sessions[i].workspace_id {
            Some(wid) => {
                let ghost o0 = views(out@);
                assert(map@.contains_key(wid@) <==> header_folder(s, wid@) is Some);
                if !map.contains(wid.as_str()) && seen.insert(wid.clone()) {
                    out.push(wid.clone());
                    proof {
                        assert(views(out@) =~= o0.push(wid@));
                        assert(!o0.contains(wid@)) by {
                            assert(!o0.to_set().contains(wid@));
                        }
                        crate::types::lemma_to_set_push(o0, wid@);
                    }
                }
            },
            None => {},
        }
        i += 1;
    }
    proof {
        assert(s.take(i as int) =~= s);
        assert forall|w: Seq<char>| #[trigger] views(out@).contains(w) <==> is_used(s, w)
            && header_folder(s, w) is None by {
            assert(views(out@).to_set().contains(w) <==> views(out@).contains(w));
            assert(seen@.contains(w) <==> views(out@).to_set().contains(w));
        }
    }
    out
}

proof fn lemma_used_step(s: Seq<SessionHeader>, i: int, w: Seq<char>)
    requires
        0 <= i < s.len(),
    ensures
        is_used(s.take(i + 1), w) <==> is_used(s.take(i), w) || opt_text(s[i].workspace_id) == Some(
            w,
        ),
{
    let a = s.take(i);
    let b = s.take(i + 1);
    if is_used(b, w) {
        let k = choose|k: int| 0 <= k < b.len() && opt_text((#[trigger] b[k]).workspace_id) == Some(w);
        if k < i {
            assert(opt_text(a[k].workspace_id) == Some(w));
        }
    }
    if is_used(a, w) {
        let k = choose|k: int| 0 <= k < a.len() && opt_text((#[trigger] a[k]).workspace_id) == Some(w);
        assert(opt_text(b[k].workspace_id) == Some(w));
    }
    assert(b[i] == s[i]);
}

/// The text of a workspace's file, where it was read.
pub open spec fn file_text(files: Map<Seq<char>, String>, wid: Seq<char>) -> Option<Seq<char>> {
    if files.contains_key(wid) {
        Some(files[wid]@)
    } else {
        None
    }
}

/// What each workspace of the sessions is called. `files` holds the texts of the files of
/// those that [`unresolved`] names, as far as they could be read.
pub fn resolve(sessions: &[SessionHeader], files: &IdMap<String>) -> (r: IdMap<WorkspaceInfo>)
    requires
        files.wf(),
    ensures
        r.wf(),
        forall|w: Seq<char>| #[trigger] r@.contains_key(w) <==> is_used(sessions@, w),
        forall|w: Seq<char>| #[trigger]
            r@.contains_key(w) ==> r@[w]@ == info_of(sessions@, w, file_text(files@, w)),
{
    let mut map = from_headers(sessions);
    let todo = unresolved(sessions);
    let ghost s = sessions@;
    let ghost vs = views(todo@);
    let ghost base = map@;
    let mut i: usize = 0;
    while i < todo.len()
        invariant
            i <= todo@.len(),
            vs == views(todo@),
            vs.no_duplicates(),
            files.wf(),
            map.wf(),
            forall|w: Seq<char>| #[trigger]
                vs.contains(w) <==> is_used(s, w) && header_folder(s, w) is None,
            forall|w: Seq<char>| #[trigger]
                map@.contains_key(w) <==> header_folder(s, w) is Some || vs.take(
                    i as int,
                ).contains(w),
            forall|w: Seq<char>| #[trigger]
                map@.contains_key(w) ==> map@[w]@ == info_of(s, w, file_text(files@, w)),
        decreases todo@.len() - i,
    {
        let wid = &todo[i];
        proof {
            crate::text::lemma_take_contains(vs, i as int);
            assert(vs[i as int] == wid@);
            assert(vs.contains(wid@));
        }
        let folder = match files.get(wid.as_str()) {
            Some(t) => folder_from_json(t.as_str()),
            None => None,
        };
        let info = match &folder {
            Some(f) => from_folder(f.as_str()),
            None => fallback(wid.as_str()),
        };
        map.insert(wid.clone(), info);
        i += 1;
    }
    proof {
        assert(vs.take(i as int) =~= vs);
        assert forall|w: Seq<char>| #[trigger] map@.contains_key(w) <==> is_used(s, w) by {
            lemma_folder_is_used(s, w);
            assert(vs.contains(w) <==> is_used(s, w) && header_folder(s, w) is None);
        }
    }
    map
}

proof fn lemma_folder_is_used(s: Seq<SessionHeader>, w: Seq<char>)
    ensures
        header_folder(s, w) is Some ==> is_used(s, w),
    decreases s.len(),
{
    if s.len() > 0 {
        let t = s.drop_last();
        lemma_folder_is_used(t, w);
        if is_used(t, w) {
            let k = choose|k: int|
                0 <= k < t.len() && opt_text((#[trigger] t[k]).workspace_id) == Some(w);
            assert(opt_text(s[k].workspace_id) == Some(w));
        }
        assert(s[s.len() - 1] == s.last());
    }
}

/// Bytes without a percent sign stay as they are, and an escape stands for the byte that its
/// two digits give.
pub proof fn lemma_unescaped(a: Seq<u8>, hi: u8, lo: u8, rest: Seq<u8>)
    requires
        forall|i: int| 0 <= i < a.len() ==> #[trigger] a[i] != 0x25,
        nibble(hi) is Some,
        nibble(lo) is Some,
    ensures
        unescaped(a) == a,
        unescaped(a + seq![0x25u8, hi, lo] + rest) == a + seq![
            (16 * nibble(hi)->0 + nibble(lo)->0) as u8,
        ] + unescaped(rest),
    decreases a.len(),
{
    let e = seq![0x25u8, hi, lo];
    let v = seq![(16 * nibble(hi)->0 + nibble(lo)->0) as u8];
    let all = a + e + rest;
    if a.len() == 0 {
        assert(unescaped(a) =~= a);
        assert(all =~= e + rest);
        assert(all[0] == 0x25 && all[1] == hi && all[2] == lo);
        assert(all.skip(3) =~= rest);
        assert(unescaped(all) =~= a + v + unescaped(rest));
    } else {
        let b = a.skip(1);
        assert forall|i: int| 0 <= i < b.len() implies #[trigger] b[i] != 0x25 by {
            assert(a[i + 1] != 0x25);
        }
        lemma_unescaped(b, hi, lo, rest);
        assert(a[0] != 0x25);
        assert(unescaped(a) == seq![a[0]] + unescaped(b));
        assert(unescaped(a) =~= a);
        assert(all[0] == a[0]);
        assert(all.skip(1) =~= b + e + rest);
        assert(unescaped(all) =~= a + v + unescaped(rest));
    }
}

/// The last part of a path is what stands between its last two slashes, those at its end
/// aside; a name without slashes is its own last part.
pub proof fn lemma_last_part(parent: Seq<char>, name: Seq<char>, slashes: Seq<char>)
    requires
        name.len() > 0,
        !name.contains('/'),
        forall|i: int| 0 <= i < slashes.len() ==> #[trigger] slashes[i] == '/',
    ensures
        last_part(parent + "/"@ + name + slashes) == name,
        last_part(name + slashes) == name,
{
    reveal_strlit("/");
    assert forall|i: int| 0 <= i < name.len() implies name[i] != '/' by {
        assert(name.contains(name[i]));
    }
    let a = parent + "/"@ + name;
    assert(a.last() == name.last());
    lemma_slashes_off(a, slashes);
    lemma_slashes_off(name, slashes);
    lemma_after_last_slash(parent + "/"@, name);
    lemma_after_last_slash(Seq::empty(), name);
    assert(Seq::<char>::empty() + name =~= name);
}

proof fn lemma_slashes_off(s: Seq<char>, slashes: Seq<char>)
    requires
        s.len() > 0,
        s.last() != '/',
        forall|i: int| 0 <= i < slashes.len() ==> #[trigger] slashes[i] == '/',
    ensures
        unslashed(s + slashes) == s,
    decreases slashes.len(),
{
    if slashes.len() == 0 {
        assert(s + slashes =~= s);
    } else {
        let d = slashes.drop_last();
        assert forall|i: int| 0 <= i < d.len() implies #[trigger] d[i] == '/' by {
            assert(slashes[i] == '/');
        }
        lemma_slashes_off(s, d);
        assert(slashes[slashes.len() - 1] == '/');
        assert((s + slashes).last() == '/');
        assert((s + slashes).drop_last() =~= s + d);
    }
}

proof fn lemma_after_last_slash(before: Seq<char>, name: Seq<char>)
    requires
        before.len() == 0 || before.last() == '/',
        forall|i: int| 0 <= i < name.len() ==> #[trigger] name[i] != '/',
    ensures
        after_slash(before + name) == name,
    decreases name.len(),
{
    let s = before + name;
    if name.len() == 0 {
        assert(s =~= before);
        assert(after_slash(s) =~= name);
    } else {
        let d = name.drop_last();
        assert forall|i: int| 0 <= i < d.len() implies #[trigger] d[i] != '/' by {
            assert(name[i] != '/');
        }
        lemma_after_last_slash(before, d);
        assert(name[name.len() - 1] != '/');
        assert(s.last() == name.last());
        assert(s.drop_last() =~= before + d);
        assert(after_slash(s) =~= name);
    }
}

/// The folder that headers name for a workspace is that of the first one of it that names
/// one; where none does, they name none.
pub proof fn lemma_header_folder(s: Seq<SessionHeader>, wid: Seq<char>, i: int)
    requires
        0 <= i < s.len(),
    ensures
        s[i].workspace_id is Some && s[i].workspace_id->0@ == wid && s[i].workspace_folder is Some
            && (forall|k: int|
            0 <= k < i && (#[trigger] s[k]).workspace_id is Some && s[k].workspace_id->0@ == wid
                ==> s[k].workspace_folder is None) ==> header_folder(s, wid) == Some(
            s[i].workspace_folder->0@,
        ),
        (forall|k: int|
            0 <= k < s.len() && (#[trigger] s[k]).workspace_id is Some && s[k].workspace_id->0@ == wid
                ==> s[k].workspace_folder is None) ==> header_folder(s, wid) is None,
    decreases s.len(),
{
    let d = s.drop_last();
    assert(s[s.len() - 1] == s.last());
    assert(forall|k: int| 0 <= k < d.len() ==> #[trigger] d[k] == s[k]);
    if d.len() > 0 {
        lemma_header_folder(d, wid, if i < d.len() {
            i
        } else {
            0
        });
    }
}

/// A workspace's file names its folder under `folder`, or the file that lists several under
/// `workspace`; the first goes before the second.
pub proof fn lemma_named_folder(d: Doc, f: Seq<char>)
    ensures
        holds(d, "folder"@, Doc::Str(f)) ==> named_folder(d) == Some(f),
        holds(d, "workspace"@, Doc::Str(f)) && (forall|g: Seq<char>|
            !#[trigger] holds(d, "folder"@, Doc::Str(g))) ==> named_folder(d) == Some(f),
        named_folder(d) == Some(f) ==> holds(d, "folder"@, Doc::Str(f)) || holds(
            d,
            "workspace"@,
            Doc::Str(f),
        ),
{
    lemma_member(d, "folder"@, Doc::Str(f));
    lemma_member(d, "workspace"@, Doc::Str(f));
    match member(d, "folder"@) {
        Some(Doc::Str(g)) => {
            lemma_member(d, "folder"@, Doc::Str(g));
        },
        _ => {},
    }
}

/// A workspace is called after the folder that a header names; where none does, after the one
/// that its file names; else it has no folder, and is called after its id.
pub proof fn lemma_info_of(s: Seq<SessionHeader>, wid: Seq<char>, file: Option<Seq<char>>, f: Seq<char>)
    ensures
        header_folder(s, wid) == Some(f) ==> info_of(s, wid, file).folder == Some(f),
        header_folder(s, wid) is None && (file matches Some(t) && (json_parsed(t) matches Ok(d)
            && named_folder(d) == Some(f))) ==> info_of(s, wid, file).folder == Some(f),
        header_folder(s, wid) is None && (file is None || (json_parsed(file->0) matches Ok(d)
            ==> named_folder(d) is None)) ==> info_of(s, wid, file).folder is None && info_of(
            s,
            wid,
            file,
        ).label == window_label(wid),
        info_of(s, wid, file).folder matches Some(g) ==> info_of(s, wid, file).label == utf8_lossy(
            unescaped(vstd::utf8::encode_utf8(last_part(g))),
        ),
{
}

/// A window without a folder is called so, one that is only numbered by its number, and any
/// other by the beginning of its id.
pub proof fn lemma_window_label(wid: Seq<char>)
    ensures
        wid == "empty-window"@ ==> window_label(wid) == "(无工作区)"@,
        wid.len() > 0 && (forall|i: int| 0 <= i < wid.len() ==> '0' <= #[trigger] wid[i] <= '9')
            ==> window_label(wid) == "(临时窗口 "@ + wid + ")"@,
        wid != "empty-window"@ && wid.len() >= 8 && (exists|i: int|
            0 <= i < wid.len() && !('0' <= #[trigger] wid[i] <= '9')) ==> window_label(wid) == "("@
            + wid.take(8) + "…)"@,
{
    reveal_strlit("empty-window");
    if wid == "empty-window"@ {
        assert(wid[0] == 'e');
    }
}

} // verus!
