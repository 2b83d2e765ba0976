//! Which blobs are still referred to.
//!
//! Starting from what live sessions refer to, every blob that is reached is read in every
//! way it can be read, until nothing new is found. To mark too much only keeps more.

use std::time::Duration;

use vstd::prelude::*;
use vstd::utf8::{encode_utf8, is_ascii_chars};

use crate::fx::NameSet;
use crate::json::{
    doc, docs, json_read, lemma_docs, lemma_members, members, parse_bytes, Doc, Json,
};
use crate::messages::{
    blob_ids, blob_views, expand_blob, extract_state, hexes, lemma_hexes, lemma_state_refers_to,
    names_id, state_ids, ConversationState, Readings,
};
use crate::progress::{Cancelled, Progress, ProgressView};
use crate::scan::{attribute, Attribution};
use crate::sweep::is_live_key;
use crate::text::{
    from_utf8, lemma_add_contains, lowered, same, strip_prefix, trimmed, utf8_text, views,
};
use crate::types::{
    hex_decode, hex_decode_into, hex_meaning, lemma_to_set_push, BlobHex, LiveSet,
};

verus! {

broadcast use vstd::string::group_string_axioms;

/// The value of a row.
#[derive(Debug)]
pub enum Cell {
    Text(Vec<u8>),
    Blob(Vec<u8>),
    /// No value, or a number.
    Other,
}

/// The bytes of a value.
pub open spec fn cell_bytes(c: Cell) -> Option<Seq<u8>> {
    match c {
        Cell::Text(b) => Some(b@),
        Cell::Blob(b) => Some(b@),
        Cell::Other => None,
    }
}

impl Cell {
    pub fn bytes(&self) -> (r: Option<&[u8]>)
        ensures
            match r {
                Some(b) => cell_bytes(*self) == Some(b@),
                None => cell_bytes(*self) is None,
            },
    {
        match self {
            Cell::Text(b) => Some(b.as_slice()),
            Cell::Blob(b) => Some(b.as_slice()),
            Cell::Other => None,
        }
    }
}

/// `needle` stands at `q`.
pub open spec fn occurs_at(haystack: Seq<u8>, needle: Seq<u8>, q: int) -> bool {
    0 <= q && q + needle.len() <= haystack.len() && haystack.subrange(q, q + needle.len()) == needle
}

/// `memchr::memmem::find_iter`: the places of the needle from the left, where each search
/// goes on behind the last find. Each is a place of it, no two finds overlap, and every
/// place of it overlaps a find that is not behind it.
#[verifier::external_body]
fn find_all(haystack: &[u8], needle: &[u8]) -> (r: Vec<usize>)
    requires
        needle@.len() > 0,
    ensures
        forall|i: int| 0 <= i < r@.len() ==> occurs_at(haystack@, needle@, #[trigger] r@[i] as int),
        forall|i: int, j: int|
            0 <= i < j < r@.len() ==> #[trigger] r@[i] + needle@.len() <= #[trigger] r@[j],
        forall|q: int| #[trigger]
            occurs_at(haystack@, needle@, q) ==> exists|i: int|
                0 <= i < r@.len() && #[trigger] r@[i] <= q < r@[i] + needle@.len(),
{
    memchr::memmem::find_iter(haystack, needle).collect()
}

/// How many digits follow the beginning of a content's key.
pub const HASH_LEN: usize = 64;

/// A small hexadecimal digit.
pub open spec fn is_small_hex(b: u8) -> bool {
    0x30 <= b <= 0x39 || 0x61 <= b <= 0x66
}

/// The beginning of a content's key, in bytes.
pub open spec fn content_start() -> Seq<u8> {
    encode_utf8("composer.content."@)
}

/// A content's key stands at `q`.
pub open spec fn content_at(bytes: Seq<u8>, q: int) -> bool {
    let start = q + content_start().len();
    &&& occurs_at(bytes, content_start(), q)
    &&& start + HASH_LEN <= bytes.len()
    &&& forall|i: int| start <= i < start + HASH_LEN ==> is_small_hex(#[trigger] bytes[i])
}

/// The content's key at `q`.
pub open spec fn content_key_at(bytes: Seq<u8>, q: int) -> Seq<char> {
    let start = q + content_start().len();
    "composer.content."@ + bytes.subrange(start, start + HASH_LEN).map_values(|b: u8| b as char)
}

/// The keys of contents that stand anywhere in the bytes.
pub open spec fn content_refs(bytes: Seq<u8>) -> Set<Seq<char>> {
    Set::new(
        |k: Seq<char>|
            exists|q: int| #[trigger] content_at(bytes, q) && k == content_key_at(bytes, q),
    )
}

/// The places of contents' keys before `n`, in increasing order.
pub open spec fn content_places(bytes: Seq<u8>, n: int) -> Seq<int>
    decreases n,
{
    if n <= 0 {
        Seq::empty()
    } else if content_at(bytes, n - 1) {
        content_places(bytes, n - 1).push(n - 1)
    } else {
        content_places(bytes, n - 1)
    }
}

/// The contents' keys in the bytes, from the left, one for each place.
pub open spec fn content_keys(bytes: Seq<u8>) -> Seq<Seq<char>> {
    content_places(bytes, bytes.len() as int).map_values(|q: int| content_key_at(bytes, q))
}

proof fn lemma_start_bytes()
    ensures
        content_start().len() == 17,
        forall|i: int| 0 <= i < 17 ==> #[trigger] content_start()[i] == "composer.content."@[i] as u8,
        content_start()[0] == 0x63,
        forall|i: int| 0 <= i < 17 ==> (#[trigger] content_start()[i] == 0x2e <==> i == 8 || i == 16),
{
    reveal_strlit("composer.content.");
    let t = "composer.content."@;
    assert(is_ascii_chars(t));
    vstd::utf8::is_ascii_chars_encode_utf8(t);
}

/// Two places of the beginning do not overlap.
proof fn lemma_no_overlap(bytes: Seq<u8>, p: int, q: int)
    requires
        occurs_at(bytes, content_start(), p),
        occurs_at(bytes, content_start(), q),
        p <= q < p + 17,
    ensures
        p == q,
{
    lemma_start_bytes();
    let n = content_start();
    let a = bytes.subrange(p, p + 17);
    let b = bytes.subrange(q, q + 17);
    assert(a == n && b == n);
    let d = q - p;
    if d > 0 {
        if d == 8 {
            assert(a[8] == bytes[q]);
            assert(b[0] == bytes[q]);
        } else {
            assert(a[16] == bytes[p + 16]);
            assert(b[16 - d] == bytes[p + 16]);
        }
    }
}

/// The content's key at a place of its beginning, where it goes on as one.
fn content_key(bytes: &[u8], pos: usize) -> (r: Option<String>)
    requires
        occurs_at(bytes@, content_start(), pos as int),
    ensures
        r is Some <==> content_at(bytes@, pos as int),
        r matches Some(k) ==> k@ == content_key_at(bytes@, pos as int),
{
    let ghost bs = bytes@;
    let n: usize = bytes.len();
    proof {
        lemma_start_bytes();
    }
    let start: usize = pos + 17;
    if n - start < HASH_LEN {
        return None;
    }
    let ghost m = |b: u8| b as char;
    let mut key = "composer.content.".to_owned();
    let mut k: usize = 0;
    assert(key@ =~= "composer.content."@ + bs.subrange(start as int, start as int).map_values(m));
    while k < HASH_LEN
        invariant
            k <= HASH_LEN,
            bs == bytes@,
            n == bs.len(),
            start + HASH_LEN <= n,
            m == (|b: u8| b as char),
            start == pos + content_start().len(),
            forall|i: int| start <= i < start + k ==> is_small_hex(#[trigger] bs[i]),
            key@ == "composer.content."@ + bs.subrange(start as int, start + k).map_values(m),
        decreases HASH_LEN - k,
    {
        let b: u8 = bytes[start + k];
        if !((0x30 <= b && b <= 0x39) || (0x61 <= b && b <= 0x66)) {
            assert(!is_small_hex(bs[start + k]));
            return None;
        }
        key.push(b as char);
        proof {
            let part = bs.subrange(start as int, start + k);
            assert(bs.subrange(start as int, start + k + 1) =~= part.push(b));
            assert(part.push(b).map_values(m) =~= part.map_values(m).push(b as char));
            assert(key@ =~= "composer.content."@ + part.push(b).map_values(m));
        }
        k += 1;
    }
    Some(key)
}

/// Before `n`, a place of a content's key is in the list, and no other.
proof fn lemma_content_places(bytes: Seq<u8>, n: int)
    ensures
        forall|q: int| #[trigger]
            content_places(bytes, n).contains(q) <==> 0 <= q < n && content_at(bytes, q),
    decreases n,
{
    if n > 0 {
        lemma_content_places(bytes, n - 1);
        crate::text::lemma_push_contains(content_places(bytes, n - 1), n - 1);
    }
}

/// Where no content's key stands, none is added.
proof fn lemma_content_gap(bytes: Seq<u8>, a: int, b: int)
    requires
        0 <= a <= b,
        forall|q: int| a <= q < b ==> !#[trigger] content_at(bytes, q),
    ensures
        content_places(bytes, b) == content_places(bytes, a),
    decreases b - a,
{
    if a < b {
        assert(!content_at(bytes, b - 1));
        lemma_content_gap(bytes, a, b - 1);
    }
}

/// Between two finds, and before the first and behind the last, no content's key stands.
proof fn lemma_between_finds(bytes: Seq<u8>, found: Seq<usize>, i: int, q: int)
    requires
        forall|q: int| #[trigger]
            occurs_at(bytes, content_start(), q) ==> exists|i: int|
                0 <= i < found.len() && #[trigger] found[i] <= q < found[i] + content_start().len(),
        forall|i: int|
            0 <= i < found.len() ==> occurs_at(bytes, content_start(), #[trigger] found[i] as int),
        forall|i: int, j: int|
            0 <= i < j < found.len() ==> #[trigger] found[i] + content_start().len()
                <= #[trigger] found[j],
        0 <= i <= found.len(),
        i > 0 ==> found[i - 1] < q,
        i < found.len() ==> q < found[i],
    ensures
        !content_at(bytes, q),
{
    lemma_start_bytes();
    if content_at(bytes, q) {
        assert(occurs_at(bytes, content_start(), q));
        let j = choose|j: int|
            0 <= j < found.len() && #[trigger] found[j] <= q < found[j] + content_start().len();
        lemma_no_overlap(bytes, found[j] as int, q);
        if j < i - 1 {
            assert(found[j] + content_start().len() <= found[i - 1]);
        } else if j > i {
            assert(found[i] + content_start().len() <= found[j]);
        }
    }
}

/// The places of the keys are those of the references.
pub proof fn lemma_content_keys(bytes: Seq<u8>)
    ensures
        content_keys(bytes).to_set() == content_refs(bytes),
{
    let n = bytes.len() as int;
    let ps = content_places(bytes, n);
    let ks = content_keys(bytes);
    lemma_content_places(bytes, n);
    assert forall|k: Seq<char>| ks.to_set().contains(k) <==> content_refs(bytes).contains(k) by {
        if ks.contains(k) {
            let i = choose|i: int| 0 <= i < ks.len() && ks[i] == k;
            assert(ps.contains(ps[i]));
            assert(content_at(bytes, ps[i]) && k == content_key_at(bytes, ps[i]));
        }
        if content_refs(bytes).contains(k) {
            let q = choose|q: int| #[trigger] content_at(bytes, q) && k == content_key_at(bytes, q);
            assert(0 <= q < n);
            assert(ps.contains(q));
            let i = choose|i: int| 0 <= i < ps.len() && ps[i] == q;
            assert(ks[i] == k);
        }
    }
    assert(ks.to_set() =~= content_refs(bytes));
}

/// The keys of contents that stand anywhere in the bytes, from the left, one for each place.
pub fn scan_content_keys(bytes: &[u8]) -> (r: Vec<String>)
    ensures
        views(r@) == content_keys(bytes@),
        views(r@).to_set() == content_refs(bytes@),
{
    let needle = "composer.content.".as_bytes();
    let ghost bs = bytes@;
    let ghost f = |q: int| content_key_at(bs, q);
    proof {
        lemma_start_bytes();
    }
    let found = find_all(bytes, needle);
    let mut out: Vec<String> = Vec::new();
    let mut i: usize = 0;
    let ghost mut at: int = 0;
    assert(views(out@) =~= content_places(bs, 0).map_values(f));
    while i < found.len()
        invariant
            i <= found@.len(),
            bs == bytes@,
            f == (|q: int| content_key_at(bs, q)),
            forall|q: int| #[trigger]
                occurs_at(bs, content_start(), q) ==> exists|i: int|
                    0 <= i < found@.len() && #[trigger] found@[i] <= q < found@[i]
                        + content_start().len(),
            forall|j: int|
                0 <= j < found@.len() ==> occurs_at(bs, content_start(), #[trigger] found@[j] as int),
            forall|i: int, j: int|
                0 <= i < j < found@.len() ==> #[trigger] found@[i] + content_start().len()
                    <= #[trigger] found@[j],
            at == (if i == 0 {
                0
            } else {
                found@[i - 1] + 1
            }),
            views(out@) == content_places(bs, at).map_values(f),
        decreases found@.len() - i,
    {
        let ghost before = views(out@);
        let ghost q = found@[i as int] as int;
        proof {
            assert(occurs_at(bs, content_start(), q));
            lemma_start_bytes();
            if i > 0 {
                assert(found@[i - 1] + content_start().len() <= found@[i as int]);
            }
            assert forall|x: int| at <= x < q implies !#[trigger] content_at(bs, x) by {
                lemma_between_finds(bs, found@, i as int, x);
            }
            lemma_content_gap(bs, at, q);
            assert(content_places(bs, q).push(q).map_values(f) =~= content_places(
                bs,
                q,
            ).map_values(f).push(content_key_at(bs, q)));
        }
        match content_key(bytes, found[i]) {
            Some(key) => {
                out.push(key);
                assert(views(out@) =~= before.push(key@));
            },
            None => {},
        }
        proof {
            at = q + 1;
        }
        i += 1;
    }
    proof {
        let n = bs.len() as int;
        if i > 0 {
            assert(occurs_at(bs, content_start(), found@[i - 1] as int));
            lemma_start_bytes();
        }
        assert forall|x: int| at <= x < n implies !#[trigger] content_at(bs, x) by {
            lemma_between_finds(bs, found@, i as int, x);
        }
        lemma_content_gap(bs, at, n);
        lemma_content_keys(bs);
    }
    out
}

/// What `base64`'s standard engine makes of a text: bytes, or the text of its error.
pub uninterp spec fn base64_bytes(text: Seq<char>) -> Result<Seq<u8>, Seq<char>>;

/// `base64::engine::general_purpose::STANDARD.decode`, under the name [`base64_bytes`].
#[verifier::external_body]
fn base64_decode(text: &str) -> (r: Result<Vec<u8>, String>)
    ensures
        base64_bytes(text@) == (match r {
            Ok(b) => Ok::<Seq<u8>, Seq<char>>(b@),
            Err(e) => Err(e@),
        }),
{
    base64::Engine::decode(&base64::engine::general_purpose::STANDARD, text).map_err(|e| e.to_string())
}

/// Why the state in a row could not be read.
#[derive(Debug)]
pub enum RootDecodeError {
    Base64(String),
    Hex,
}

/// What the text of a state stands for: behind a tilde it is in base64, else in
/// hexadecimal. An empty text, and one that stands for no bytes, is no state.
pub fn decode_conversation_state(field: Option<&str>) -> (r: Result<
    Option<Vec<u8>>,
    RootDecodeError,
>)
    ensures
        match field {
            None => r matches Ok(None),
            Some(s) => if s@.len() == 0 {
                r matches Ok(None)
            } else if s@[0] == '~' {
                match base64_bytes(s@.skip(1)) {
                    Ok(b) => if b.len() == 0 {
                        r matches Ok(None)
                    } else {
                        r matches Ok(Some(v)) && v@ == b
                    },
                    Err(e) => r matches Err(RootDecodeError::Base64(t)) && t@ == e,
                }
            } else {
                match hex_meaning(s@) {
                    Some(b) => if b.len() == 0 {
                        r matches Ok(None)
                    } else {
                        r matches Ok(Some(v)) && v@ == b
                    },
                    None => r matches Err(RootDecodeError::Hex),
                }
            },
        },
{
    let s = match field {
        Some(s) => s,
        None => return Ok(None),
    };
    if s.is_empty() {
        return Ok(None);
    }
    proof {
        reveal_strlit("~");
        assert("~"@.is_prefix_of(s@) <==> s@[0] == '~') by {
            if s@[0] == '~' {
                assert("~"@ =~= s@.subrange(0, 1));
            }
            if "~"@.is_prefix_of(s@) {
                assert("~"@[0] == s@.subrange(0, 1)[0]);
            }
        }
    }
    let bytes = match strip_prefix(s, "~") {
        Some(rest) => {
            assert(rest@ =~= s@.skip(1));
            match base64_decode(rest) {
                Ok(b) => b,
                Err(e) => return Err(RootDecodeError::Base64(e)),
            }
        },
        None => match hex_decode(s) {
            Some(b) => b,
            None => return Err(RootDecodeError::Hex),
        },
    };
    if bytes.len() == 0 {
        Ok(None)
    } else {
        Ok(Some(bytes))
    }
}

/// What a session's row held.
#[derive(Debug)]
pub enum RootState {
    /// A state that could be read.
    State(ConversationState),
    /// No state.
    NoState,
    /// A state that could not be read.
    Unreadable,
}

/// What a session's row held. `read` is what [`decode_conversation_state`] made of the
/// member of its document, `None` where the document could not be parsed; `decoded` is the
/// state that the bytes stand for, where there are bytes and they stand for one.
pub fn root_state(
    read: &Option<Result<Option<Vec<u8>>, RootDecodeError>>,
    decoded: Option<ConversationState>,
) -> (r: RootState)
    ensures
        match *read {
            None => r is Unreadable,
            Some(Err(_)) => r is Unreadable,
            Some(Ok(None)) => r is NoState,
            Some(Ok(Some(_))) => match decoded {
                Some(s) => r == RootState::State(s),
                None => r is Unreadable,
            },
        },
{
    match read {
        Some(Ok(Some(_))) => match decoded {
            Some(s) => RootState::State(s),
            None => RootState::Unreadable,
        },
        Some(Ok(None)) => RootState::NoState,
        _ => RootState::Unreadable,
    }
}

/// How reading a session's row went.
#[derive(Debug, Clone, Copy, PartialEq, Eq, Structural)]
pub enum RootVerdict {
    State,
    NoState,
    Error,
}

/// What a session's row refers to.
#[derive(Debug)]
pub struct RootDecode {
    pub verdict: RootVerdict,
    pub ids: Vec<BlobHex>,
    pub content_keys: Vec<String>,
}

/// The verdict on what a row held.
pub open spec fn verdict_of(s: RootState) -> RootVerdict {
    match s {
        RootState::State(_) => RootVerdict::State,
        RootState::NoState => RootVerdict::NoState,
        RootState::Unreadable => RootVerdict::Error,
    }
}

/// The blobs to which what a row held refers.
pub open spec fn root_ids(s: RootState) -> Seq<Seq<u8>> {
    match s {
        RootState::State(st) => state_ids(st, 0),
        _ => Seq::empty(),
    }
}

/// Finds what a session's row refers to. The contents it names count whether it holds a
/// state or not.
pub fn decode_root(json_bytes: &[u8], state: &RootState) -> (r: RootDecode)
    ensures
        r.verdict == verdict_of(*state),
        blob_views(r.ids@) == hexes(root_ids(*state)),
        views(r.content_keys@) == content_keys(json_bytes@),
        views(r.content_keys@).to_set() == content_refs(json_bytes@),
{
    let content_keys = scan_content_keys(json_bytes);
    let mut ids: Vec<BlobHex> = Vec::new();
    let verdict = match state {
        RootState::State(st) => {
            let ghost i0 = ids@;
            extract_state(st, &mut ids, 0);
            proof {
                assert(blob_views(i0) + hexes(state_ids(*st, 0)) =~= hexes(state_ids(*st, 0)));
            }
            RootVerdict::State
        },
        RootState::NoState => RootVerdict::NoState,
        RootState::Unreadable => RootVerdict::Error,
    };
    proof {
        if !(state is State) {
            assert(blob_views(ids@) =~= hexes(Seq::empty()));
        }
    }
    RootDecode { verdict, ids, content_keys }
}

/// The texts of the members with this name, anywhere in the document.
pub open spec fn field_texts(d: Doc, field: Seq<char>) -> Seq<Seq<char>>
    decreases d,
{
    match d {
        Doc::Obj(m) => member_texts(m, field),
        Doc::Arr(a) => item_texts(a, field),
        _ => Seq::empty(),
    }
}

pub open spec fn member_texts(m: Seq<(Seq<char>, Doc)>, field: Seq<char>) -> Seq<Seq<char>>
    decreases m,
{
    if m.len() == 0 {
        Seq::empty()
    } else {
        member_texts(m.drop_last(), field) + own_text(m.last().0, m.last().1, field) + field_texts(
            m.last().1,
            field,
        )
    }
}

pub open spec fn item_texts(a: Seq<Doc>, field: Seq<char>) -> Seq<Seq<char>>
    decreases a,
{
    if a.len() == 0 {
        Seq::empty()
    } else {
        item_texts(a.drop_last(), field) + field_texts(a.last(), field)
    }
}

/// The text of a member with this name.
pub open spec fn own_text(name: Seq<char>, d: Doc, field: Seq<char>) -> Seq<Seq<char>> {
    match d {
        Doc::Str(s) => if name == field {
            seq![s]
        } else {
            Seq::empty()
        },
        _ => Seq::empty(),
    }
}

/// Finds the texts of the members with this name, anywhere in the document.
pub fn collect_json_field(v: &Json, field: &str, out: &mut Vec<String>)
    ensures
        views(final(out)@) == views(old(out)@) + field_texts(v@, field@),
    decreases v,
{
    let ghost o0 = views(out@);
    match v {
        Json::Obj(m) => {
            let ghost ms = members(m@);
            proof {
                lemma_members(m@);
                assert(ms.take(0) =~= Seq::<(Seq<char>, Doc)>::empty());
                assert(views(out@) =~= o0 + member_texts(ms.take(0), field@));
            }
            let mut i: usize = 0;
            while i < m.len()
                invariant
                    i <= m@.len(),
                    decreases_to!(v => m@),
                    ms == members(m@),
                    ms.len() == m@.len(),
                    forall|k: int|
                        0 <= k < ms.len() ==> #[trigger] ms[k] == (m@[k].0@, doc(m@[k].1)),
                    views(out@) == o0 + member_texts(ms.take(i as int), field@),
                decreases m@.len() - i,
            {
                proof {
                    assert(ms.take(i + 1).drop_last() =~= ms.take(i as int));
                    assert(ms.take(i + 1).last() == ms[i as int]);
                    assert(decreases_to!(v => m@[i as int]));
                }
                let val = &m[i].1;
                let ghost a = views(out@);
                let ghost mine = own_text(m@[i as int].0@, val@, field@);
                if same(m[i].0.as_str(), field) {
                    match val.as_str() {
                        Some(s) => {
                            out.push(s.to_owned());
                            assert(views(out@) =~= a + mine);
                        },
                        None => {
                            assert(views(out@) =~= a + mine);
                        },
                    }
                } else {
                    assert(views(out@) =~= a + mine);
                }
                let ghost b = views(out@);
                collect_json_field(val, field, out);
                proof {
                    assert(views(out@) =~= o0 + member_texts(ms.take(i + 1), field@));
                }
                i += 1;
            }
            assert(ms.take(i as int) =~= ms);
        },
        Json::Arr(a) => {
            let ghost ds = docs(a@);
            proof {
                lemma_docs(a@);
                assert(ds.take(0) =~= Seq::<Doc>::empty());
                assert(views(out@) =~= o0 + item_texts(ds.take(0), field@));
            }
            let mut i: usize = 0;
            while i < a.len()
                invariant
                    i <= a@.len(),
                    decreases_to!(v => a@),
                    ds == docs(a@),
                    ds.len() == a@.len(),
                    forall|k: int| 0 <= k < ds.len() ==> #[trigger] ds[k] == doc(a@[k]),
                    views(out@) == o0 + item_texts(ds.take(i as int), field@),
                decreases a@.len() - i,
            {
                proof {
                    assert(ds.take(i + 1).drop_last() =~= ds.take(i as int));
                    assert(ds.take(i + 1).last() == ds[i as int]);
                }
                collect_json_field(&a[i], field, out);
                proof {
                    assert(views(out@) =~= o0 + item_texts(ds.take(i + 1), field@));
                }
                i += 1;
            }
            assert(ds.take(i as int) =~= ds);
        },
        _ => {
            assert(views(out@) =~= o0 + field_texts(v@, field@));
        },
    }
}

/// What the marking counted.
#[derive(Debug, Clone, Copy, PartialEq, Eq, Structural)]
pub struct MarkCounts {
    /// The rows of live sessions that were looked at.
    pub root_rows: u64,
    /// Those of them that held a state.
    pub root_states: u64,
    /// Those of them whose state could not be read.
    pub root_decode_errors: u64,
    pub checkpoint_roots: u64,
    pub cloud_agent_roots: u64,
    /// The blobs that are referred to and not there.
    pub missing_blobs: u64,
    pub expanded_blobs: u64,
}

/// What the marking counted, and how long it took.
#[derive(Debug)]
pub struct MarkStats {
    pub counts: MarkCounts,
    pub root_phase: Duration,
    pub pointer_phase: Duration,
    pub expand_phase: Duration,
}

/// What is still referred to.
pub struct MarkOutcome {
    /// The blobs, those among them that are not there.
    pub marked: NameSet,
    /// The keys of contents.
    pub content_keys: NameSet,
    pub stats: MarkStats,
}

/// Whatever a blob in the set refers to is in the set.
pub open spec fn is_closed(s: Set<Seq<char>>, edges: Map<Seq<char>, Set<Seq<char>>>) -> bool {
    forall|x: Seq<char>| #[trigger]
        s.contains(x) && edges.contains_key(x) ==> edges[x].subset_of(s)
}

/// The smallest set that holds the roots and is closed.
pub open spec fn is_least_closed(
    s: Set<Seq<char>>,
    roots: Set<Seq<char>>,
    edges: Map<Seq<char>, Set<Seq<char>>>,
) -> bool {
    &&& roots.subset_of(s)
    &&& is_closed(s, edges)
    &&& forall|t: Set<Seq<char>>| #[trigger]
        is_closed(t, edges) && roots.subset_of(t) ==> s.subset_of(t)
}

/// The blob that an outside text names, if it is not empty.
pub open spec fn pointed(raw: Seq<char>) -> Set<Seq<char>> {
    if trimmed(raw).len() > 0 {
        set![lowered(trimmed(raw))]
    } else {
        Set::empty()
    }
}

/// The blobs that outside texts name.
pub open spec fn pointed_all(raws: Seq<Seq<char>>) -> Set<Seq<char>>
    decreases raws.len(),
{
    if raws.len() == 0 {
        Set::empty()
    } else {
        pointed_all(raws.drop_last()).union(pointed(raws.last()))
    }
}

/// A live session owns the row with this key.
pub open spec fn key_is_live(key: Option<Seq<u8>>, live: Set<Seq<char>>) -> bool {
    key matches Some(b) && (utf8_text(b) matches Some(k) && is_live_key(live, k))
}

/// What the value of a checkpoint points to: its text, or nothing where it is none.
pub open spec fn pointer_text(b: Seq<u8>) -> Seq<char> {
    match utf8_text(b) {
        Some(t) => t,
        None => Seq::empty(),
    }
}

/// Whether a live session owns the row with this key.
fn is_live_row(key: Option<&[u8]>, live: &LiveSet) -> (r: bool)
    ensures
        r == key_is_live(
            match key {
                Some(b) => Some(b@),
                None => None,
            },
            live@,
        ),
{
    match key {
        Some(b) => match from_utf8(b) {
            Some(k) => match attribute(k) {
                Attribution::Owned(_, cid) => live.contains(cid),
                _ => false,
            },
            None => false,
        },
        None => false,
    }
}

/// The content of a blob's row: none where it is the mark of an empty blob, no bytes, or a
/// text that is not in hexadecimal.
pub open spec fn content_of(c: Cell) -> Option<Seq<u8>> {
    match c {
        Cell::Blob(b) => if b@.len() == 0 || b@ == seq![0u8] {
            None
        } else {
            Some(b@)
        },
        Cell::Text(t) => match utf8_text(t@) {
            Some(s) => match hex_meaning(s) {
                Some(b) => if b.len() == 0 {
                    None
                } else {
                    Some(b)
                },
                None => None,
            },
            None => None,
        },
        Cell::Other => None,
    }
}

/// The content of a blob's row.
pub fn blob_content(c: Cell) -> (r: Option<Vec<u8>>)
    ensures
        match r {
            Some(b) => content_of(c) == Some(b@),
            None => content_of(c) is None,
        },
{
    match c {
        Cell::Blob(b) => {
            if b.len() == 0 || (b.len() == 1 && b[0] == 0) {
                proof {
                    if b@.len() == 1 {
                        assert(b@ =~= seq![0u8]);
                    }
                }
                None
            } else {
                proof {
                    if b@ == seq![0u8] {
                        assert(b@[0] == 0);
                    }
                }
                Some(b)
            }
        },
        Cell::Text(t) => match from_utf8(t.as_slice()) {
            Some(s) => {
                let mut out: Vec<u8> = Vec::new();
                if hex_decode_into(s, &mut out) && out.len() > 0 {
                    Some(out)
                } else {
                    None
                }
            },
            None => None,
        },
        Cell::Other => None,
    }
}

/// How many expanded blobs there are between two looks at the wish to stop.
pub const EXPAND_CHECK: u64 = 512;

/// The marking under way. Blobs are settled in the order in which they were found.
pub struct Marker {
    marked: NameSet,
    /// How many of the marked blobs are settled.
    next: usize,
    content: NameSet,
    counts: MarkCounts,
    roots: Ghost<Set<Seq<char>>>,
    edges: Ghost<Map<Seq<char>, Set<Seq<char>>>>,
}

impl Marker {
    /// The blobs that were found.
    pub closed spec fn marked(&self) -> Set<Seq<char>> {
        self.marked@
    }

    /// The blobs that were found, in that order.
    pub closed spec fn order(&self) -> Seq<Seq<char>> {
        self.marked.order()
    }

    /// How many of them are settled.
    pub closed spec fn settled(&self) -> nat {
        self.next as nat
    }

    /// The blobs to which live sessions refer.
    pub closed spec fn roots(&self) -> Set<Seq<char>> {
        self.roots@
    }

    /// For each settled blob, those to which it refers.
    pub closed spec fn edges(&self) -> Map<Seq<char>, Set<Seq<char>>> {
        self.edges@
    }

    /// The keys of contents that were found.
    pub closed spec fn content(&self) -> Set<Seq<char>> {
        self.content@
    }

    pub closed spec fn counts(&self) -> MarkCounts {
        self.counts
    }

    /// What was found is what the roots lead to through settled blobs.
    pub open spec fn wf(&self) -> bool {
        &&& self.settled() <= self.order().len() <= usize::MAX
        &&& self.order().no_duplicates()
        &&& self.order().to_set() =~= self.marked()
        &&& self.edges().dom() =~= self.order().take(self.settled() as int).to_set()
        &&& is_least_closed(self.marked(), self.roots(), self.edges())
        &&& self.counts().missing_blobs + self.counts().expanded_blobs <= self.settled()
    }

    /// No counter is at its end.
    pub open spec fn can_count(&self) -> bool {
        let c = self.counts();
        c.root_rows < u64::MAX && c.root_states < u64::MAX && c.root_decode_errors < u64::MAX
            && c.checkpoint_roots < u64::MAX && c.cloud_agent_roots < u64::MAX
    }

    /// Everything but the counters is as it was.
    pub open spec fn same_marks(&self, old_marker: &Self) -> bool {
        &&& self.marked() == old_marker.marked()
        &&& self.order() == old_marker.order()
        &&& self.settled() == old_marker.settled()
        &&& self.roots() == old_marker.roots()
        &&& self.edges() == old_marker.edges()
        &&& self.content() == old_marker.content()
    }

    /// Nothing found.
    pub fn new() -> (r: Self)
        ensures
            r.wf(),
            r.roots() == Set::<Seq<char>>::empty(),
            r.edges() == Map::<Seq<char>, Set<Seq<char>>>::empty(),
            r.marked() == Set::<Seq<char>>::empty(),
            r.content() == Set::<Seq<char>>::empty(),
            r.settled() == 0,
            r.counts() == (MarkCounts {
                root_rows: 0,
                root_states: 0,
                root_decode_errors: 0,
                checkpoint_roots: 0,
                cloud_agent_roots: 0,
                missing_blobs: 0,
                expanded_blobs: 0,
            }),
    {
        let r = Marker {
            marked: NameSet::new(),
            next: 0,
            content: NameSet::new(),
            counts: MarkCounts {
                root_rows: 0,
                root_states: 0,
                root_decode_errors: 0,
                checkpoint_roots: 0,
                cloud_agent_roots: 0,
                missing_blobs: 0,
                expanded_blobs: 0,
            },
            roots: Ghost(Set::empty()),
            edges: Ghost(Map::empty()),
        };
        proof {
            assert(r.order().take(0).to_set() =~= Set::<Seq<char>>::empty());
            assert(r.order().to_set() =~= Set::<Seq<char>>::empty());
        }
        r
    }

    /// Whether no counter is at its end.
    pub fn has_room(&self) -> (r: bool)
        ensures
            r == self.can_count(),
    {
        self.counts.root_rows < u64::MAX && self.counts.root_states < u64::MAX
            && self.counts.root_decode_errors < u64::MAX && self.counts.checkpoint_roots < u64::MAX
            && self.counts.cloud_agent_roots < u64::MAX
    }

    /// A blob to which a live session refers.
    fn add_root(&mut self, id: BlobHex)
        requires
            old(self).wf(),
        ensures
            final(self).wf(),
            final(self).roots() == old(self).roots().insert(id@),
            final(self).marked() == old(self).marked().insert(id@),
            final(self).edges() == old(self).edges(),
            final(self).settled() == old(self).settled(),
            final(self).content() == old(self).content(),
            final(self).counts() == old(self).counts(),
    {
        let name = id.as_str().to_owned();
        let ghost o0 = self.marked.order();
        self.marked.insert(name);
        let n: usize = self.marked.len();
        self.roots = Ghost(self.roots@.insert(id@));
        proof {
            let a = old(self);
            assert(n == self.order().len());
            assert(self.order().take(self.settled() as int) =~= o0.take(a.settled() as int));
            assert(is_closed(self.marked(), self.edges())) by {
                assert forall|x: Seq<char>| #[trigger]
                    self.marked().contains(x) && self.edges().contains_key(x) implies self.edges()[x].subset_of(
                self.marked()) by {
                    assert(self.edges().dom().contains(x));
                    assert(o0.take(a.settled() as int).to_set().contains(x));
                    let i = choose|i: int|
                        0 <= i < o0.take(a.settled() as int).len() && o0.take(
                            a.settled() as int,
                        )[i] == x;
                    assert(o0[i] == x);
                    assert(o0.to_set().contains(x));
                    assert(a.marked().contains(x));
                }
            }
            assert forall|t: Set<Seq<char>>| #[trigger]
                is_closed(t, self.edges()) && self.roots().subset_of(t) implies self.marked().subset_of(
            t) by {
                assert(a.roots().subset_of(t));
                assert(is_closed(t, a.edges()));
                assert(self.roots().contains(id@));
            }
        }
    }

    /// Adds roots.
    fn add_roots(&mut self, ids: &Vec<BlobHex>)
        requires
            old(self).wf(),
        ensures
            final(self).wf(),
            final(self).roots() == old(self).roots().union(blob_views(ids@).to_set()),
            final(self).edges() == old(self).edges(),
            final(self).settled() == old(self).settled(),
            final(self).content() == old(self).content(),
            final(self).counts() == old(self).counts(),
    {
        let ghost vs = blob_views(ids@);
        let mut i: usize = 0;
        proof {
            assert(vs.take(0).to_set() =~= Set::<Seq<char>>::empty());
        }
        while i < ids.len()
            invariant
                i <= ids@.len(),
                vs == blob_views(ids@),
                self.wf(),
                self.roots() =~= old(self).roots().union(vs.take(i as int).to_set()),
                self.edges() == old(self).edges(),
                self.settled() == old(self).settled(),
                self.content() == old(self).content(),
                self.counts() == old(self).counts(),
            decreases ids@.len() - i,
        {
            let id = ids[i].clone();
            proof {
                assert(vs.take(i + 1) =~= vs.take(i as int).push(id@));
                lemma_to_set_push(vs.take(i as int), id@);
            }
            self.add_root(id);
            i += 1;
        }
        assert(vs.take(i as int) =~= vs);
    }

    /// Adds keys of contents.
    fn add_content(&mut self, keys: Vec<String>)
        requires
            old(self).wf(),
        ensures
            final(self).wf(),
            final(self).marked() == old(self).marked(),
            final(self).order() == old(self).order(),
            final(self).settled() == old(self).settled(),
            final(self).roots() == old(self).roots(),
            final(self).edges() == old(self).edges(),
            final(self).counts() == old(self).counts(),
            final(self).content() == old(self).content().union(views(keys@).to_set()),
    {
        let ghost vs = views(keys@);
        let mut i: usize = 0;
        proof {
            assert(vs.take(0).to_set() =~= Set::<Seq<char>>::empty());
        }
        while i < keys.len()
            invariant
                i <= keys@.len(),
                vs == views(keys@),
                self.wf(),
                self.marked() == old(self).marked(),
                self.order() == old(self).order(),
                self.settled() == old(self).settled(),
                self.roots() == old(self).roots(),
                self.edges() == old(self).edges(),
                self.counts() == old(self).counts(),
                self.content() =~= old(self).content().union(vs.take(i as int).to_set()),
            decreases keys@.len() - i,
        {
            let k = keys[i].clone();
            proof {
                assert(vs.take(i + 1) =~= vs.take(i as int).push(k@));
                lemma_to_set_push(vs.take(i as int), k@);
            }
            self.content.insert(k);
            i += 1;
        }
        assert(vs.take(i as int) =~= vs);
    }

    /// Looks at a row with a session's data: the bytes to read, where a live session owns
    /// it and it has a value.
    pub fn root_row<'a>(&mut self, key: Option<&[u8]>, cell: &'a Cell, live: &LiveSet) -> (r: Option<
        &'a [u8],
    >)
        requires
            old(self).wf(),
            old(self).can_count(),
        ensures
            final(self).wf(),
            final(self).same_marks(old(self)),
            final(self).counts() == (if key_is_live(
                match key {
                    Some(b) => Some(b@),
                    None => None,
                },
                live@,
            ) {
                MarkCounts {
                    root_rows: (old(self).counts().root_rows + 1) as u64,
                    ..old(self).counts()
                }
            } else {
                old(self).counts()
            }),
            match r {
                Some(b) => key_is_live(
                    match key {
                        Some(b) => Some(b@),
                        None => None,
                    },
                    live@,
                ) && cell_bytes(*cell) == Some(b@),
                None => !key_is_live(
                    match key {
                        Some(b) => Some(b@),
                        None => None,
                    },
                    live@,
                ) || cell_bytes(*cell) is None,
            },
    {
        if !is_live_row(key, live) {
            return None;
        }
        self.counts.root_rows = self.counts.root_rows + 1;
        cell.bytes()
    }

    /// Takes up what a session's row refers to.
    pub fn take_root(&mut self, r: RootDecode)
        requires
            old(self).wf(),
            old(self).can_count(),
        ensures
            final(self).wf(),
            final(self).roots() == old(self).roots().union(blob_views(r.ids@).to_set()),
            final(self).edges() == old(self).edges(),
            final(self).settled() == old(self).settled(),
            final(self).content() == old(self).content().union(views(r.content_keys@).to_set()),
            final(self).counts() == (match r.verdict {
                RootVerdict::State => MarkCounts {
                    root_states: (old(self).counts().root_states + 1) as u64,
                    ..old(self).counts()
                },
                RootVerdict::NoState => old(self).counts(),
                RootVerdict::Error => MarkCounts {
                    root_decode_errors: (old(self).counts().root_decode_errors + 1) as u64,
                    ..old(self).counts()
                },
            }),
    {
        match r.verdict {
            RootVerdict::State => {
                self.counts.root_states = self.counts.root_states + 1;
            },
            RootVerdict::NoState => {},
            RootVerdict::Error => {
                self.counts.root_decode_errors = self.counts.root_decode_errors + 1;
            },
        }
        assert(self.wf());
        self.add_roots(&r.ids);
        self.add_content(r.content_keys);
    }

    /// A text from outside that names a blob.
    fn push_hex(&mut self, raw: &str)
        requires
            old(self).wf(),
        ensures
            final(self).wf(),
            final(self).roots() == old(self).roots().union(pointed(raw@)),
            final(self).edges() == old(self).edges(),
            final(self).settled() == old(self).settled(),
            final(self).content() == old(self).content(),
            final(self).counts() == old(self).counts(),
    {
        match BlobHex::parse(raw) {
            Some(id) => {
                self.add_root(id);
                assert(self.roots() =~= old(self).roots().union(pointed(raw@)));
            },
            None => {
                assert(self.roots() =~= old(self).roots().union(pointed(raw@)));
            },
        }
    }

    /// A row with a checkpoint, whose value names a blob. It counts where a live session
    /// owns it and it has a value.
    pub fn pointer(&mut self, key: Option<&[u8]>, cell: &Cell, live: &LiveSet)
        requires
            old(self).wf(),
            old(self).can_count(),
        ensures
            final(self).wf(),
            final(self).edges() == old(self).edges(),
            final(self).settled() == old(self).settled(),
            final(self).content() == old(self).content(),
            match (key_is_live(
                match key {
                    Some(b) => Some(b@),
                    None => None,
                },
                live@,
            ), cell_bytes(*cell)) {
                (true, Some(b)) => final(self).roots() == old(self).roots().union(
                    pointed(pointer_text(b)),
                ) && final(self).counts() == (MarkCounts {
                    checkpoint_roots: (old(self).counts().checkpoint_roots + 1) as u64,
                    ..old(self).counts()
                }),
                _ => final(self).roots() == old(self).roots() && final(self).counts() == old(
                    self,
                ).counts(),
            },
    {
        if !is_live_row(key, live) {
            return;
        }
        match cell.bytes() {
            Some(b) => {
                self.counts.checkpoint_roots = self.counts.checkpoint_roots + 1;
                assert(self.wf());
                let text = match from_utf8(b) {
                    Some(t) => t,
                    None => {
                        proof {
                            reveal_strlit("");
                            assert(""@ =~= Seq::<char>::empty());
                        }
                        ""
                    },
                };
                self.push_hex(text);
            },
            None => {},
        }
    }

    /// The description of an agent in the cloud: every text in it that names the blob of a
    /// state.
    pub fn cloud_agent(&mut self, json: &Json)
        requires
            old(self).wf(),
            old(self).counts().cloud_agent_roots + field_texts(
                json@,
                "cloudAgentStateBlobId"@,
            ).len() <= u64::MAX,
        ensures
            final(self).wf(),
            final(self).edges() == old(self).edges(),
            final(self).settled() == old(self).settled(),
            final(self).content() == old(self).content(),
            final(self).roots() == old(self).roots().union(
                pointed_all(field_texts(json@, "cloudAgentStateBlobId"@)),
            ),
            final(self).counts() == (MarkCounts {
                cloud_agent_roots: (old(self).counts().cloud_agent_roots + field_texts(
                    json@,
                    "cloudAgentStateBlobId"@,
                ).len()) as u64,
                ..old(self).counts()
            }),
    {
        let mut found: Vec<String> = Vec::new();
        let ghost fs = field_texts(json@, "cloudAgentStateBlobId"@);
        let ghost f0 = views(found@);
        collect_json_field(json, "cloudAgentStateBlobId", &mut found);
        proof {
            assert(f0 + fs =~= fs);
            assert(fs.take(0) =~= Seq::<Seq<char>>::empty());
            assert(self.roots() =~= self.roots().union(pointed_all(fs.take(0))));
        }
        let mut i: usize = 0;
        while i < found.len()
            invariant
                i <= found@.len(),
                fs == views(found@),
                self.wf(),
                self.edges() == old(self).edges(),
                self.settled() == old(self).settled(),
                self.content() == old(self).content(),
                old(self).counts().cloud_agent_roots + fs.len() <= u64::MAX,
                self.roots() =~= old(self).roots().union(pointed_all(fs.take(i as int))),
                self.counts() == (MarkCounts {
                    cloud_agent_roots: (old(self).counts().cloud_agent_roots + i) as u64,
                    ..old(self).counts()
                }),
            decreases found@.len() - i,
        {
            self.counts.cloud_agent_roots = self.counts.cloud_agent_roots + 1;
            assert(self.wf());
            self.push_hex(found[i].as_str());
            proof {
                assert(fs.take(i + 1).drop_last() =~= fs.take(i as int));
                assert(fs.take(i + 1).last() == found@[i as int]@);
            }
            i += 1;
        }
        assert(fs.take(i as int) =~= fs);
    }

    /// The row of an agent in the cloud. One that is no JSON is passed over; `false` says
    /// that the counter has no room, and nothing was done.
    pub fn cloud_agent_row(&mut self, cell: &Cell) -> (r: bool)
        requires
            old(self).wf(),
        ensures
            final(self).wf(),
            match cell_bytes(*cell) {
                Some(b) => match json_read(b) {
                    Ok(d) => {
                        let fs = field_texts(d, "cloudAgentStateBlobId"@);
                        &&& r == (old(self).counts().cloud_agent_roots + fs.len() <= u64::MAX)
                        &&& final(self).content() == old(self).content()
                        &&& final(self).edges() == old(self).edges()
                        &&& final(self).settled() == old(self).settled()
                        &&& r ==> final(self).roots() == old(self).roots().union(pointed_all(fs))
                            && final(self).counts() == (MarkCounts {
                            cloud_agent_roots: (old(self).counts().cloud_agent_roots
                                + fs.len()) as u64,
                            ..old(self).counts()
                        })
                        &&& !r ==> *final(self) == *old(self)
                    },
                    Err(_) => r && *final(self) == *old(self),
                },
                None => r && *final(self) == *old(self),
            },
    {
        let b = match cell.bytes() {
            Some(b) => b,
            None => return true,
        };
        let json = match parse_bytes(b) {
            Ok(j) => j,
            Err(_) => return true,
        };
        let mut found: Vec<String> = Vec::new();
        let ghost f0 = views(found@);
        collect_json_field(&json, "cloudAgentStateBlobId", &mut found);
        proof {
            let fs = field_texts(json@, "cloudAgentStateBlobId"@);
            assert(f0 + fs =~= fs);
            assert(found@.len() == fs.len());
        }
        let n: u64 = found.len() as u64;
        if n > u64::MAX - self.counts.cloud_agent_roots {
            return false;
        }
        self.cloud_agent(&json);
        true
    }

    /// The next blob to settle.
    pub fn head(&self) -> (r: Option<&str>)
        requires
            self.wf(),
        ensures
            match r {
                Some(h) => self.settled() < self.order().len() && h@ == self.order()[self.settled() as int],
                None => self.settled() == self.order().len(),
            },
    {
        if self.next < self.marked.len() {
            Some(self.marked.get(self.next).as_str())
        } else {
            None
        }
    }

    /// Settles the next blob: it refers to these.
    fn settle(&mut self, ids: &Vec<BlobHex>)
        requires
            old(self).wf(),
            old(self).settled() < old(self).order().len(),
        ensures
            final(self).wf(),
            final(self).settled() == old(self).settled() + 1,
            final(self).roots() == old(self).roots(),
            final(self).edges() == old(self).edges().insert(
                old(self).order()[old(self).settled() as int],
                blob_views(ids@).to_set(),
            ),
            final(self).content() == old(self).content(),
            final(self).counts() == old(self).counts(),
    {
        let ghost a = *self;
        let ghost n = self.settled() as int;
        let ghost head = self.order()[n];
        let ghost vs = blob_views(ids@);
        let mut i: usize = 0;
        proof {
            assert(vs.take(0).to_set() =~= Set::<Seq<char>>::empty());
        }
        while i < ids.len()
            invariant
                i <= ids@.len(),
                a == *old(self),
                a.wf(),
                vs == blob_views(ids@),
                n == a.settled(),
                n < a.order().len(),
                self.marked() =~= a.marked().union(vs.take(i as int).to_set()),
                a.order().len() <= self.order().len() <= usize::MAX,
                self.order().take(a.order().len() as int) =~= a.order(),
                self.order().no_duplicates(),
                self.order().to_set() =~= self.marked(),
                self.settled() == a.settled(),
                self.roots() == a.roots(),
                self.edges() == a.edges(),
                self.content() == a.content(),
                self.counts() == a.counts(),
            decreases ids@.len() - i,
        {
            let name = ids[i].as_str().to_owned();
            let ghost o0 = self.order();
            let ghost m0 = self.marked();
            proof {
                assert(vs.take(i + 1) =~= vs.take(i as int).push(name@));
                lemma_to_set_push(vs.take(i as int), name@);
            }
            self.marked.insert(name);
            let _: usize = self.marked.len();
            i += 1;
        }
        assert(vs.take(i as int) =~= vs);
        self.next = self.next + 1;
        self.edges = Ghost(self.edges@.insert(head, vs.to_set()));
        proof {
            let o = self.order();
            assert(o[n] == head) by {
                assert(o.take(a.order().len() as int)[n] == a.order()[n]);
            }
            assert(o.take(n) =~= a.order().take(n)) by {
                assert forall|j: int| 0 <= j < n implies o[j] == a.order()[j] by {
                    assert(o.take(a.order().len() as int)[j] == a.order()[j]);
                }
            }
            assert(o.take(n + 1) =~= o.take(n).push(head));
            lemma_to_set_push(o.take(n), head);
            assert(!a.edges().contains_key(head)) by {
                if a.edges().dom().contains(head) {
                    let j = choose|j: int|
                        0 <= j < a.order().take(n).len() && a.order().take(n)[j] == head;
                    assert(a.order()[j] == a.order()[n]);
                }
            }
            assert(a.marked().contains(head)) by {
                assert(a.order().to_set().contains(head));
            }
            lemma_settle(a.marked(), a.roots(), a.edges(), head, vs.to_set());
            assert(self.marked() =~= a.marked().union(vs.to_set()));
        }
    }

    /// The next blob is not there.
    pub fn missing(&mut self)
        requires
            old(self).wf(),
            old(self).settled() < old(self).order().len(),
        ensures
            final(self).wf(),
            final(self).settled() == old(self).settled() + 1,
            final(self).roots() == old(self).roots(),
            final(self).edges() == old(self).edges().insert(
                old(self).order()[old(self).settled() as int],
                Set::empty(),
            ),
            final(self).content() == old(self).content(),
            final(self).counts() == (MarkCounts {
                missing_blobs: (old(self).counts().missing_blobs + 1) as u64,
                ..old(self).counts()
            }),
    {
        let ids: Vec<BlobHex> = Vec::new();
        assert(blob_views(ids@).to_set() =~= Set::<Seq<char>>::empty());
        self.settle(&ids);
        self.counts.missing_blobs = self.counts.missing_blobs + 1;
    }

    /// The next blob holds nothing.
    pub fn blank(&mut self)
        requires
            old(self).wf(),
            old(self).settled() < old(self).order().len(),
        ensures
            final(self).wf(),
            final(self).settled() == old(self).settled() + 1,
            final(self).roots() == old(self).roots(),
            final(self).edges() == old(self).edges().insert(
                old(self).order()[old(self).settled() as int],
                Set::empty(),
            ),
            final(self).content() == old(self).content(),
            final(self).counts() == old(self).counts(),
    {
        let ids: Vec<BlobHex> = Vec::new();
        assert(blob_views(ids@).to_set() =~= Set::<Seq<char>>::empty());
        self.settle(&ids);
    }

    /// The next blob holds this content, which can be read as `readings`, and refers to all
    /// blobs that [`expand_blob`] finds in them. Where the user asked to stop, that happens at a checkpoint, and the blob is not
    /// settled.
    pub fn expanded(&mut self, content: &[u8], readings: &Readings, p: &mut Progress) -> (r: Result<
        (),
        Cancelled,
    >)
        requires
            old(self).wf(),
            old(self).settled() < old(self).order().len(),
        ensures
            final(self).wf(),
            final(self).roots() == old(self).roots(),
            r is Err <==> old(p)@.cancelled && (old(self).counts().expanded_blobs + 1)
                % EXPAND_CHECK as int == 0,
            final(p)@ == (if (old(self).counts().expanded_blobs + 1) % EXPAND_CHECK as int == 0 {
                ProgressView {
                    done: (old(self).counts().expanded_blobs + 1) as u64,
                    ..old(p)@
                }
            } else {
                old(p)@
            }),
            r is Err ==> *final(self) == *old(self),
            r is Ok ==> {
                &&& final(self).settled() == old(self).settled() + 1
                &&& final(self).edges() == old(self).edges().insert(
                    old(self).order()[old(self).settled() as int],
                    hexes(blob_ids(*readings)).to_set(),
                )
                &&& final(self).content() == old(self).content().union(content_refs(content@))
                &&& final(self).counts() == (MarkCounts {
                    expanded_blobs: (old(self).counts().expanded_blobs + 1) as u64,
                    ..old(self).counts()
                })
            },
    {
        let n: u64 = self.counts.expanded_blobs + 1;
        if n % EXPAND_CHECK == 0 {
            p.set_done(n);
            match p.check() {
                Ok(()) => {},
                Err(c) => return Err(c),
            }
        }
        let ids = expand_blob(readings);
        self.settle(&ids);
        self.counts.expanded_blobs = n;
        assert(self.wf());
        let keys = scan_content_keys(content);
        self.add_content(keys);
        Ok(())
    }

    /// Ends the marking, when every blob that was found is settled.
    pub fn finish(self, root_phase: Duration, pointer_phase: Duration, expand_phase: Duration) -> (r:
        MarkOutcome)
        requires
            self.wf(),
            self.settled() == self.order().len(),
        ensures
            r.marked@ == self.marked(),
            r.content_keys@ == self.content(),
            r.stats.counts == self.counts(),
            is_least_closed(r.marked@, self.roots(), self.edges()),
            self.edges().dom() == r.marked@,
            r.stats.root_phase == root_phase,
            r.stats.pointer_phase == pointer_phase,
            r.stats.expand_phase == expand_phase,
    {
        proof {
            assert(self.order().take(self.settled() as int) =~= self.order());
        }
        MarkOutcome {
            marked: self.marked,
            content_keys: self.content,
            stats: MarkStats { counts: self.counts, root_phase, pointer_phase, expand_phase },
        }
    }
}

/// What is found stays the least closed set when one of its blobs turns out to refer to
/// more.
proof fn lemma_settle(
    s: Set<Seq<char>>,
    roots: Set<Seq<char>>,
    edges: Map<Seq<char>, Set<Seq<char>>>,
    head: Seq<char>,
    more: Set<Seq<char>>,
)
    requires
        is_least_closed(s, roots, edges),
        edges.dom().subset_of(s),
        s.contains(head),
        !edges.contains_key(head),
    ensures
        is_least_closed(s.union(more), roots, edges.insert(head, more)),
{
    let e2 = edges.insert(head, more);
    let s2 = s.union(more);
    assert(is_closed(s2, e2)) by {
        assert forall|x: Seq<char>| #[trigger] s2.contains(x) && e2.contains_key(x) implies e2[x].subset_of(
        s2) by {
            if x != head {
                assert(edges.dom().contains(x));
                assert(s.contains(x));
                assert(edges[x].subset_of(s));
            }
        }
    }
    assert forall|t: Set<Seq<char>>| #[trigger]
        is_closed(t, e2) && roots.subset_of(t) implies s2.subset_of(t) by {
        assert(is_closed(t, edges)) by {
            assert forall|x: Seq<char>| #[trigger]
                t.contains(x) && edges.contains_key(x) implies edges[x].subset_of(t) by {
                assert(x != head);
                assert(e2.contains_key(x));
                assert(e2[x] == edges[x]);
            }
        }
        assert(s.subset_of(t));
        assert(t.contains(head));
        assert(e2[head].subset_of(t));
    }
}

/// A blob to which a marked one refers is marked, and no blob is marked that the roots do
/// not lead to: one of which nothing that is left out speaks could be left out too.
pub proof fn lemma_marked_exactly(
    marked: Set<Seq<char>>,
    roots: Set<Seq<char>>,
    edges: Map<Seq<char>, Set<Seq<char>>>,
    x: Seq<char>,
)
    requires
        is_least_closed(marked, roots, edges),
        marked.contains(x),
    ensures
        roots.contains(x) || exists|y: Seq<char>|
            marked.contains(y) && edges.contains_key(y) && #[trigger] edges[y].contains(x),
{
    if !roots.contains(x) && !exists|y: Seq<char>|
        marked.contains(y) && edges.contains_key(y) && #[trigger] edges[y].contains(x) {
        let t = marked.remove(x);
        assert(is_closed(t, edges)) by {
            assert forall|y: Seq<char>| #[trigger]
                t.contains(y) && edges.contains_key(y) implies edges[y].subset_of(t) by {
                assert(marked.contains(y));
                assert(edges[y].subset_of(marked));
                assert(!edges[y].contains(x));
            }
        }
        assert(marked.subset_of(t));
    }
}

/// Whatever live sessions refer to is marked, and whatever a marked blob refers to.
pub proof fn lemma_marked_follows(
    marked: Set<Seq<char>>,
    roots: Set<Seq<char>>,
    edges: Map<Seq<char>, Set<Seq<char>>>,
    path: Seq<Seq<char>>,
)
    requires
        is_least_closed(marked, roots, edges),
        path.len() > 0,
        roots.contains(path[0]),
        forall|i: int|
            0 <= i < path.len() - 1 ==> edges.contains_key(#[trigger] path[i])
                && edges[path[i]].contains(path[i + 1]),
    ensures
        marked.contains(path.last()),
    decreases path.len(),
{
    if path.len() > 1 {
        let rest = path.drop_last();
        assert forall|i: int| 0 <= i < rest.len() - 1 implies edges.contains_key(
            #[trigger] rest[i],
        ) && edges[rest[i]].contains(rest[i + 1]) by {
            assert(rest[i] == path[i] && rest[i + 1] == path[i + 1]);
        }
        lemma_marked_follows(marked, roots, edges, rest);
        let x = path[path.len() - 2];
        assert(rest.last() == x);
        assert(marked.contains(x) && edges.contains_key(x));
        assert(edges[x].subset_of(marked));
    }
}

/// A text that points to a blob names it in whatever case, white space at its ends aside; a
/// text of white space names none.
pub proof fn lemma_pointed(raw: Seq<char>, x: Seq<char>)
    ensures
        pointed(raw).contains(x) <==> x == lowered(trimmed(raw)) && trimmed(raw).len() > 0,
{
}

/// Each of several texts names its blob.
pub proof fn lemma_pointed_all(raws: Seq<Seq<char>>, x: Seq<char>)
    ensures
        pointed_all(raws).contains(x) <==> exists|i: int|
            0 <= i < raws.len() && x == lowered(trimmed(#[trigger] raws[i])) && trimmed(
                raws[i],
            ).len() > 0,
    decreases raws.len(),
{
    if raws.len() > 0 {
        let rest = raws.drop_last();
        lemma_pointed_all(rest, x);
        lemma_pointed(raws.last(), x);
        if pointed_all(rest).contains(x) {
            let i = choose|i: int|
                0 <= i < rest.len() && x == lowered(trimmed(#[trigger] rest[i])) && trimmed(
                    rest[i],
                ).len() > 0;
            assert(raws[i] == rest[i]);
        }
        if pointed(raws.last()).contains(x) {
            assert(raws[raws.len() - 1] == raws.last());
        }
        if exists|i: int|
            0 <= i < raws.len() && x == lowered(trimmed(#[trigger] raws[i])) && trimmed(
                raws[i],
            ).len() > 0 {
            let i = choose|i: int|
                0 <= i < raws.len() && x == lowered(trimmed(#[trigger] raws[i])) && trimmed(
                    raws[i],
                ).len() > 0;
            if i < rest.len() {
                assert(raws[i] == rest[i]);
            }
        }
    }
}

/// A row with a state refers to what the state refers to, one without or with one that could
/// not be read to nothing; only the last counts as a failure.
pub proof fn lemma_root_refers_to(s: RootState, x: Seq<u8>)
    ensures
        root_ids(s).contains(x) <==> (s matches RootState::State(st) && state_ids(st, 0).contains(x)),
        verdict_of(s) == RootVerdict::State <==> s is State,
        verdict_of(s) == RootVerdict::NoState <==> s is NoState,
        verdict_of(s) == RootVerdict::Error <==> s is Unreadable,
{
}

/// Whatever the state of a live conversation names in one of its fields is found in its row.
pub proof fn lemma_root_is_followed(found: Seq<BlobHex>, st: ConversationState, id: Seq<u8>)
    requires
        blob_views(found) == hexes(root_ids(RootState::State(st))),
        id.len() > 0,
        names_id(st, id),
    ensures
        blob_views(found).contains(crate::types::hex_text(id)),
{
    lemma_state_refers_to(st, 0, id);
    let ids = state_ids(st, 0);
    let i = choose|i: int| 0 <= i < ids.len() && ids[i] == id;
    assert(ids[i].len() > 0);
    lemma_hexes(ids, crate::types::hex_text(id));
}

/// A text under the name is found among the members of an object and in whatever they hold,
/// and in the elements of an array; nothing else is found.
pub proof fn lemma_field_texts(d: Doc, field: Seq<char>, t: Seq<char>)
    ensures
        field_texts(d, field).contains(t) <==> match d {
            Doc::Obj(m) => exists|i: int|
                0 <= i < m.len() && ((#[trigger] m[i]) == (field, Doc::Str(t)) || field_texts(
                    m[i].1,
                    field,
                ).contains(t)),
            Doc::Arr(a) => exists|i: int|
                0 <= i < a.len() && field_texts(#[trigger] a[i], field).contains(t),
            _ => false,
        },
{
    match d {
        Doc::Obj(m) => lemma_member_texts(m, field, t),
        Doc::Arr(a) => lemma_item_texts(a, field, t),
        _ => {},
    }
}

proof fn lemma_member_texts(m: Seq<(Seq<char>, Doc)>, field: Seq<char>, t: Seq<char>)
    ensures
        member_texts(m, field).contains(t) <==> exists|i: int|
            0 <= i < m.len() && ((#[trigger] m[i]) == (field, Doc::Str(t)) || field_texts(
                m[i].1,
                field,
            ).contains(t)),
    decreases m.len(),
{
    if m.len() > 0 {
        let rest = m.drop_last();
        let x = m.last();
        let own = own_text(x.0, x.1, field);
        lemma_member_texts(rest, field, t);
        lemma_add_contains(member_texts(rest, field), own, t);
        lemma_add_contains(member_texts(rest, field) + own, field_texts(x.1, field), t);
        if x == (field, Doc::Str(t)) {
            assert(own[0] == t);
        }
        if member_texts(rest, field).contains(t) {
            let i = choose|i: int|
                0 <= i < rest.len() && ((#[trigger] rest[i]) == (field, Doc::Str(t)) || field_texts(
                    rest[i].1,
                    field,
                ).contains(t));
            assert(m[i] == rest[i]);
        }
        if own.contains(t) || field_texts(x.1, field).contains(t) {
            assert(m[m.len() - 1] == x);
        }
        if exists|i: int|
            0 <= i < m.len() && ((#[trigger] m[i]) == (field, Doc::Str(t)) || field_texts(
                m[i].1,
                field,
            ).contains(t)) {
            let i = choose|i: int|
                0 <= i < m.len() && ((#[trigger] m[i]) == (field, Doc::Str(t)) || field_texts(
                    m[i].1,
                    field,
                ).contains(t));
            if i < rest.len() {
                assert(m[i] == rest[i]);
            }
        }
    }
}

proof fn lemma_item_texts(a: Seq<Doc>, field: Seq<char>, t: Seq<char>)
    ensures
        item_texts(a, field).contains(t) <==> exists|i: int|
            0 <= i < a.len() && field_texts(#[trigger] a[i], field).contains(t),
    decreases a.len(),
{
    if a.len() > 0 {
        let rest = a.drop_last();
        lemma_item_texts(rest, field, t);
        lemma_add_contains(item_texts(rest, field), field_texts(a.last(), field), t);
        if item_texts(rest, field).contains(t) {
            let i = choose|i: int|
                0 <= i < rest.len() && field_texts(#[trigger] rest[i], field).contains(t);
            assert(a[i] == rest[i]);
        }
        if field_texts(a.last(), field).contains(t) {
            assert(a[a.len() - 1] == a.last());
        }
        if exists|i: int| 0 <= i < a.len() && field_texts(#[trigger] a[i], field).contains(t) {
            let i = choose|i: int|
                0 <= i < a.len() && field_texts(#[trigger] a[i], field).contains(t);
            if i < rest.len() {
                assert(a[i] == rest[i]);
            }
        }
    }
}

/// The key of a content is found wherever it stands in the bytes: behind its beginning there
/// are sixty-four small hexadecimal digits, whatever stands before and behind.
pub proof fn lemma_content_is_found(before: Seq<u8>, hash: Seq<u8>, behind: Seq<u8>)
    requires
        hash.len() == 64,
        forall|i: int|
            0 <= i < hash.len() ==> 0x30 <= #[trigger] hash[i] <= 0x39 || 0x61 <= hash[i] <= 0x66,
    ensures
        content_keys(before + encode_utf8("composer.content."@) + hash + behind).contains(
            "composer.content."@ + hash.map_values(|b: u8| b as char),
        ),
{
    let start = encode_utf8("composer.content."@);
    let bytes = before + start + hash + behind;
    let q = before.len() as int;
    lemma_start_bytes();
    assert(bytes.subrange(q, q + start.len()) =~= start);
    let n = q + start.len();
    assert(bytes.subrange(n, n + 64) =~= hash);
    assert forall|i: int| n <= i < n + 64 implies is_small_hex(#[trigger] bytes[i]) by {
        assert(bytes[i] == hash[i - n]);
    }
    assert(content_at(bytes, q));
    let k = "composer.content."@ + hash.map_values(|b: u8| b as char);
    assert(content_key_at(bytes, q) == k);
    assert(content_refs(bytes).contains(k));
    lemma_content_keys(bytes);
    assert(content_keys(bytes).to_set().contains(k));
}

/// A row counts for the marking exactly where its key is a text and a live session owns it.
pub proof fn lemma_key_is_live(key: Option<Seq<u8>>, live: Set<Seq<char>>)
    ensures
        key_is_live(key, live) <==> (key matches Some(b) && (utf8_text(b) matches Some(k) && (
        crate::scan::attribution(k) matches crate::scan::Owner::Owned(_, c) && live.contains(c)))),
{
}

/// A blob that is kept as bytes holds them, unless there are none or a single zero; one that
/// is kept as a text in hexadecimal digits of either case holds what they stand for.
pub proof fn lemma_content_of(c: Cell, t: Seq<char>, bytes: Seq<u8>)
    ensures
        c matches Cell::Blob(b) && b@.len() > 0 && b@ != seq![0u8] ==> content_of(c) == Some(
            c->Blob_0@,
        ),
        c matches Cell::Blob(b) && (b@.len() == 0 || b@ == seq![0u8]) ==> content_of(c) is None,
        c is Text && utf8_text(c->Text_0@) == Some(t) && crate::types::is_hex_of(t, bytes)
            && bytes.len() > 0 ==> content_of(c) == Some(bytes),
        c is Other ==> content_of(c) is None,
{
    if crate::types::is_hex_of(t, bytes) {
        crate::types::lemma_hex_either_case(t, bytes);
    }
}

/// A cell holds bytes whether it is a text or a blob.
pub proof fn lemma_cell_bytes(c: Cell)
    ensures
        c is Text ==> cell_bytes(c) == Some(c->Text_0@),
        c is Blob ==> cell_bytes(c) == Some(c->Blob_0@),
        c is Other ==> cell_bytes(c) is None,
{
}

} // verus!
