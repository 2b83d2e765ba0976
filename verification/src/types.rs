//! Domain types that carry the evidence of having been checked once.
//!
//! A value that came through its constructor needs no second check or
//! normalisation downstream.

use rustc_hash::FxHashSet;
use vstd::prelude::*;
use vstd::utf8::{encode_utf8, is_ascii_chars};

use crate::fx::{fx_names, names_add, names_has, names_new};
use crate::text::{
    decimal, decimal_text, is_white, lemma_trim_nothing, lemma_trims, lowered, split_once,
    to_ascii_lower, trim, trimmed,
};

verus! {

broadcast use vstd::string::group_string_axioms;

/// Why a text is not an id.
#[derive(Debug)]
pub enum IdError {
    Empty,
    TooShort { raw: String, min: usize },
    InvalidChars { raw: String },
}

/// The message of an [`IdError`].
pub open spec fn id_error_text(e: IdError) -> Seq<char> {
    match e {
        IdError::Empty => "id 为空"@,
        IdError::TooShort { raw, min } => "id 太短(至少 "@ + decimal(min as nat) + " 位): "@ + raw@,
        IdError::InvalidChars { raw } => "id 含非法字符(需 ASCII 且不含 ':'): "@ + raw@,
    }
}

impl IdError {
    /// What is shown to the user.
    pub fn message(&self) -> (r: String)
        ensures
            r@ == id_error_text(*self),
    {
        match self {
            IdError::Empty => "id 为空".to_owned(),
            IdError::TooShort { raw, min } => {
                let mut out = "id 太短(至少 ".to_owned();
                let n = decimal_text(*min as u64);
                out.push_str(n.as_str());
                out.push_str(" 位): ");
                out.push_str(raw.as_str());
                out
            },
            IdError::InvalidChars { raw } => {
                let mut out = "id 含非法字符(需 ASCII 且不含 ':'): ".to_owned();
                out.push_str(raw.as_str());
                out
            },
        }
    }
}

/// What makes a text a session id: it is not empty, ASCII, and free of the
/// separator `:` of the keys it becomes part of.
pub open spec fn is_composer_id(s: Seq<char>) -> bool {
    s.len() > 0 && is_ascii_chars(s) && !s.contains(':')
}

/// A session id. Constructed is proved: see [`is_composer_id`].
#[derive(Debug, Hash, PartialOrd, Eq, Ord)]
pub struct ComposerId {
    text: String,
}

impl View for ComposerId {
    type V = Seq<char>;

    closed spec fn view(&self) -> Seq<char> {
        self.text@
    }
}

impl PartialEq for ComposerId {
    fn eq(&self, other: &Self) -> (r: bool) {
        self.text == other.text
    }
}

impl vstd::std_specs::cmp::PartialEqSpecImpl for ComposerId {
    open spec fn obeys_eq_spec() -> bool {
        true
    }

    open spec fn eq_spec(&self, other: &Self) -> bool {
        self@ == other@
    }
}

impl Clone for ComposerId {
    fn clone(&self) -> (r: Self)
        ensures
            r@ == self@,
    {
        proof {
            use_type_invariant(self);
        }
        ComposerId { text: self.text.clone() }
    }
}

impl ComposerId {
    #[verifier::type_invariant]
    spec fn inv(self) -> bool {
        is_composer_id(self.text@)
    }

    /// Checks an untrusted text.
    pub fn parse(raw: &str) -> (r: Result<Self, IdError>)
        ensures
            match r {
                Ok(id) => is_composer_id(raw@) && id@ == raw@,
                Err(IdError::Empty) => raw@.len() == 0,
                Err(IdError::InvalidChars { raw: shown }) => raw@.len() > 0 && !is_composer_id(raw@)
                    && shown@ == raw@,
                Err(IdError::TooShort { .. }) => false,
            },
    {
        if raw.is_empty() {
            return Err(IdError::Empty);
        }
        if !raw.is_ascii() || split_once(raw, ':').is_some() {
            return Err(IdError::InvalidChars { raw: raw.to_owned() });
        }
        Ok(ComposerId { text: raw.to_owned() })
    }

    /// What every id satisfies.
    pub fn as_str(&self) -> (r: &str)
        ensures
            r@ == self@,
            is_composer_id(self@),
    {
        proof {
            use_type_invariant(self);
        }
        self.text.as_str()
    }

    /// The first eight characters, for lists and logs.
    pub fn short(&self) -> (r: &str)
        ensures
            r@ == crate::text::head(self@, 8),
    {
        proof {
            use_type_invariant(self);
        }
        let s = self.text.as_str();
        let n: usize = s.as_bytes().len();
        proof {
            vstd::utf8::is_ascii_chars_encode_utf8(s@);
        }
        let k: usize = if n < 8 {
            n
        } else {
            8
        };
        let r = s.substring_ascii(0, k);
        assert(r@ =~= self@.take(k as int));
        r
    }
}

/// The ids of the sessions that are alive: the one ground for telling live rows
/// from orphaned ones.
#[derive(Debug)]
pub struct LiveSet {
    names: FxHashSet<String>,
    ids: Vec<ComposerId>,
}

/// The texts of a sequence of ids.
pub open spec fn id_views(s: Seq<ComposerId>) -> Seq<Seq<char>> {
    s.map_values(|x: ComposerId| x@)
}

impl View for LiveSet {
    type V = Set<Seq<char>>;

    closed spec fn view(&self) -> Set<Seq<char>> {
        fx_names(self.names)
    }
}

impl Default for LiveSet {
    fn default() -> (r: Self)
        ensures
            r@ == Set::<Seq<char>>::empty(),
    {
        let r = LiveSet { names: names_new(), ids: Vec::new() };
        r
    }
}

impl LiveSet {
    #[verifier::type_invariant]
    spec fn inv(self) -> bool {
        &&& id_views(self.ids@).no_duplicates()
        &&& id_views(self.ids@).to_set() =~= fx_names(self.names)
    }

    /// The set of the given ids.
    pub fn from_ids(ids: Vec<ComposerId>) -> (r: Self)
        ensures
            r@ == id_views(ids@).to_set(),
    {
        let mut names = names_new();
        let mut kept: Vec<ComposerId> = Vec::new();
        let mut i: usize = 0;
        while i < ids.len()
            invariant
                i <= ids@.len(),
                id_views(kept@).no_duplicates(),
                id_views(kept@).to_set() =~= fx_names(names),
                fx_names(names) =~= id_views(ids@.take(i as int)).to_set(),
            decreases ids@.len() - i,
        {
            let id = ids[i].clone();
            let fresh = names_add(&mut names, id.as_str().to_owned());
            let ghost before = kept@;
            if fresh {
                kept.push(id);
            }
            proof {
                let a = id_views(ids@.take(i as int));
                let b = id_views(ids@.take(i + 1));
                assert(b =~= a.push(id@));
                lemma_to_set_push(a, id@);
                if fresh {
                    assert(id_views(kept@) =~= id_views(before).push(id@));
                    lemma_to_set_push(id_views(before), id@);
                    assert(!id_views(before).contains(id@)) by {
                        assert(!id_views(before).to_set().contains(id@));
                    }
                }
            }
            i += 1;
        }
        assert(ids@.take(i as int) =~= ids@);
        LiveSet { names, ids: kept }
    }

    pub fn contains(&self, owner: &str) -> (r: bool)
        ensures
            r == self@.contains(owner@),
    {
        names_has(&self.names, owner)
    }

    pub fn is_empty(&self) -> (r: bool)
        ensures
            r == (self@ =~= Set::<Seq<char>>::empty()),
    {
        proof {
            use_type_invariant(self);
            let v = id_views(self.ids@);
            if v.len() > 0 {
                assert(v.to_set().contains(v[0]));
            } else {
                assert(v.to_set() =~= Set::<Seq<char>>::empty());
            }
        }
        self.ids.is_empty()
    }

    /// The ids, each once.
    pub fn iter(&self) -> (r: &[ComposerId])
        ensures
            id_views(r@).no_duplicates(),
            id_views(r@).to_set() == self@,
    {
        proof {
            use_type_invariant(self);
        }
        self.ids.as_slice()
    }
}

/// One more element in a sequence is one more in its set.
pub proof fn lemma_to_set_push<A>(s: Seq<A>, x: A)
    ensures
        s.push(x).to_set() =~= s.to_set().insert(x),
{
    assert forall|y: A| s.push(x).to_set().contains(y) <==> s.to_set().insert(x).contains(y) by {
        if s.to_set().contains(y) {
            let i = choose|i: int| 0 <= i < s.len() && s[i] == y;
            assert(s.push(x)[i] == y);
        }
        assert(s.push(x)[s.len() as int] == x);
    }
}

/// The small hexadecimal digit for a number below sixteen.
pub open spec fn hex_digit(n: nat) -> char {
    if n < 10 {
        ('0' as u32 + n) as char
    } else {
        ('a' as u32 + n - 10) as char
    }
}

/// The capital hexadecimal digit for a number below sixteen.
pub open spec fn hex_capital(n: nat) -> char {
    if n < 10 {
        ('0' as u32 + n) as char
    } else {
        ('A' as u32 + n - 10) as char
    }
}

/// The number that the digit at a place of a hexadecimal text stands for: each byte has two
/// digits, the higher one first.
pub open spec fn nibble_at(bytes: Seq<u8>, i: int) -> nat {
    if i % 2 == 0 {
        bytes[i / 2] as nat / 16
    } else {
        bytes[i / 2] as nat % 16
    }
}

/// Bytes in hexadecimal, in small digits.
pub open spec fn hex_text(bytes: Seq<u8>) -> Seq<char> {
    Seq::new(2 * bytes.len(), |i: int| hex_digit(nibble_at(bytes, i)))
}

/// The text is that of the bytes in hexadecimal, each digit of it small or capital.
pub open spec fn is_hex_of(t: Seq<char>, bytes: Seq<u8>) -> bool {
    &&& t.len() == 2 * bytes.len()
    &&& forall|i: int|
        0 <= i < t.len() ==> #[trigger] t[i] == hex_digit(nibble_at(bytes, i)) || t[i]
            == hex_capital(nibble_at(bytes, i))
}

/// The byte is a hexadecimal digit of either case.
pub open spec fn is_hex_byte(b: u8) -> bool {
    0x30 <= b <= 0x39 || 0x41 <= b <= 0x46 || 0x61 <= b <= 0x66
}

/// The value of a hexadecimal digit, small or capital.
pub open spec fn nibble(b: u8) -> Option<nat> {
    if 0x30 <= b <= 0x39 {
        Some((b - 0x30) as nat)
    } else if 0x61 <= b <= 0x66 {
        Some((b - 0x61 + 10) as nat)
    } else if 0x41 <= b <= 0x46 {
        Some((b - 0x41 + 10) as nat)
    } else {
        None
    }
}

/// The bytes that hexadecimal digits stand for: none where their number is odd or
/// one of them is no digit.
pub open spec fn hex_value(s: Seq<u8>) -> Option<Seq<u8>> {
    if s.len() % 2 == 0 && forall|i: int| 0 <= i < s.len() ==> nibble(#[trigger] s[i]) is Some {
        Some(
            Seq::new(
                s.len() / 2,
                |i: int| (16 * nibble(s[2 * i])->0 + nibble(s[2 * i + 1])->0) as u8,
            ),
        )
    } else {
        None
    }
}

/// What a text in hexadecimal stands for, white space at its ends aside.
pub open spec fn hex_meaning(s: Seq<char>) -> Option<Seq<u8>> {
    hex_value(encode_utf8(trimmed(s)))
}

/// `faster_hex::hex_string`: the bytes as small hexadecimal digits. It panics where the
/// text would be longer than the largest `isize`.
#[verifier::external_body]
fn fast_hex_string(bytes: &[u8]) -> (r: String)
    requires
        2 * bytes@.len() <= isize::MAX,
    ensures
        r@ == hex_text(bytes@),
{
    faster_hex::hex_string(bytes)
}

/// `faster_hex::hex_encode`: writes the digits to the front of the buffer and returns
/// them, exactly where they fit; the rest of the buffer stays as it was.
#[verifier::external_body]
fn fast_hex_encode<'b>(id: &[u8], buf: &'b mut [u8; 128]) -> (r: Option<&'b str>)
    ensures
        r is Some <==> 2 * id@.len() <= 128,
        r matches Some(s) ==> s@ == hex_text(id@),
        final(buf)@ == (if 2 * id@.len() <= 128 {
            encode_utf8(hex_text(id@)) + old(buf)@.skip(2 * id@.len() as int)
        } else {
            old(buf)@
        }),
{
    faster_hex::hex_encode(id, buf).ok().map(|s| &*s)
}

/// `faster_hex::hex_decode` into a buffer of just the right length: it succeeds exactly
/// on hexadecimal digits of either case, and else leaves the buffer as it was.
#[verifier::external_body]
fn fast_hex_decode(digits: &[u8], out: &mut Vec<u8>) -> (ok: bool)
    requires
        digits@.len() == 2 * old(out)@.len(),
    ensures
        ok == hex_value(digits@) is Some,
        final(out)@ == (if ok {
            hex_value(digits@)->0
        } else {
            old(out)@
        }),
{
    faster_hex::hex_decode(digits, out).is_ok()
}

/// The id of a blob in small hexadecimal digits: the end of an `agentKv:blob:` key.
///
/// Constructed is normalised, so comparing goes by the characters.
#[derive(Debug, Hash, PartialOrd, Eq, Ord)]
pub struct BlobHex {
    text: String,
}

impl View for BlobHex {
    type V = Seq<char>;

    closed spec fn view(&self) -> Seq<char> {
        self.text@
    }
}

impl PartialEq for BlobHex {
    fn eq(&self, other: &Self) -> (r: bool) {
        self.text == other.text
    }
}

impl vstd::std_specs::cmp::PartialEqSpecImpl for BlobHex {
    open spec fn obeys_eq_spec() -> bool {
        true
    }

    open spec fn eq_spec(&self, other: &Self) -> bool {
        self@ == other@
    }
}

impl Clone for BlobHex {
    fn clone(&self) -> (r: Self)
        ensures
            r@ == self@,
    {
        BlobHex { text: self.text.clone() }
    }
}

impl BlobHex {
    /// The id of which these are the bytes.
    pub fn from_bytes(id: &[u8]) -> (r: Self)
        requires
            2 * id@.len() <= isize::MAX,
        ensures
            r@ == hex_text(id@),
    {
        BlobHex { text: hex_encode(id) }
    }

    /// Normalises a hexadecimal text from outside; the empty text is no id.
    pub fn parse(raw: &str) -> (r: Option<Self>)
        ensures
            r is Some <==> trimmed(raw@).len() > 0,
            r matches Some(b) ==> b@ == lowered(trimmed(raw@)),
    {
        let t = trim(raw);
        if t.is_empty() {
            return None;
        }
        Some(BlobHex { text: to_ascii_lower(t) })
    }

    /// The digits of `id` in the caller's buffer, without an allocation; `None` where
    /// they do not fit.
    pub fn encode_view<'b>(id: &[u8], buf: &'b mut [u8; 128]) -> (r: Option<&'b str>)
        ensures
            r is Some <==> 2 * id@.len() <= 128,
            r matches Some(s) ==> s@ == hex_text(id@),
            final(buf)@ == (if 2 * id@.len() <= 128 {
                encode_utf8(hex_text(id@)) + old(buf)@.skip(2 * id@.len() as int)
            } else {
                old(buf)@
            }),
    {
        fast_hex_encode(id, buf)
    }

    pub fn as_str(&self) -> (r: &str)
        ensures
            r@ == self@,
    {
        self.text.as_str()
    }
}

/// Bytes in small hexadecimal digits.
pub fn hex_encode(bytes: &[u8]) -> (r: String)
    requires
        2 * bytes@.len() <= isize::MAX,
    ensures
        r@ == hex_text(bytes@),
{
    fast_hex_string(bytes)
}

/// The bytes that a hexadecimal text stands for.
pub fn hex_decode(s: &str) -> (r: Option<Vec<u8>>)
    ensures
        r is Some <==> hex_meaning(s@) is Some,
        r matches Some(v) ==> v@ == hex_meaning(s@)->0,
{
    let mut out: Vec<u8> = Vec::new();
    if hex_decode_into(s, &mut out) {
        Some(out)
    } else {
        None
    }
}

/// Decodes into a buffer that is used again. White space at the ends does not count,
/// and digits of either case do.
pub fn hex_decode_into(s: &str, out: &mut Vec<u8>) -> (ok: bool)
    ensures
        ok == hex_meaning(s@) is Some,
        ok ==> final(out)@ == hex_meaning(s@)->0,
        !ok && encode_utf8(trimmed(s@)).len() % 2 != 0 ==> final(out)@ == old(out)@,
        !ok && encode_utf8(trimmed(s@)).len() % 2 == 0 ==> final(out)@ == Seq::new(
            encode_utf8(trimmed(s@)).len() / 2,
            |i: int| 0u8,
        ),
{
    let b = trim(s).as_bytes();
    if b.len() % 2 != 0 {
        return false;
    }
    out.clear();
    out.resize(b.len() / 2, 0);
    let ok = fast_hex_decode(b, out);
    proof {
        if !ok {
            assert(out@ =~= Seq::new(b@.len() / 2, |i: int| 0u8));
        }
    }
    ok
}

/// A digit of either case is ASCII and has the value that it stands for.
proof fn lemma_hex_digit(n: nat, c: char)
    requires
        n < 16,
        c == hex_digit(n) || c == hex_capital(n),
    ensures
        !is_white(c),
        (c as nat) < 128,
        nibble(c as u8) == Some(n),
{
    assert(hex_digit(n) as nat == (if n < 10 {
        0x30 + n
    } else {
        0x57 + n
    }));
    assert(hex_capital(n) as nat == (if n < 10 {
        0x30 + n
    } else {
        0x37 + n
    }));
}

/// The bytes that digits with these values stand for.
proof fn lemma_hex_value(b: Seq<u8>, bytes: Seq<u8>)
    requires
        b.len() == 2 * bytes.len(),
        forall|i: int| 0 <= i < b.len() ==> nibble(#[trigger] b[i]) == Some(nibble_at(bytes, i)),
    ensures
        hex_value(b) == Some(bytes),
{
    assert(hex_value(b)->0 =~= bytes) by {
        assert forall|i: int| 0 <= i < bytes.len() implies (hex_value(b)->0)[i] == bytes[i] by {
            assert(nibble(b[2 * i])->0 == nibble_at(bytes, 2 * i));
            assert(nibble(b[2 * i + 1])->0 == nibble_at(bytes, 2 * i + 1));
            assert((2 * i) % 2 == 0 && (2 * i) / 2 == i);
            assert((2 * i + 1) % 2 == 1 && (2 * i + 1) / 2 == i);
        }
    }
}

/// Decoding gives back what was encoded, whatever the case of each digit.
pub proof fn lemma_hex_either_case(t: Seq<char>, bytes: Seq<u8>)
    requires
        is_hex_of(t, bytes),
    ensures
        hex_meaning(t) == Some(bytes),
{
    assert forall|i: int| 0 <= i < t.len() implies !is_white(#[trigger] t[i]) && '\0' <= t[i]
        <= '\u{7f}' && nibble(t[i] as u8) == Some(nibble_at(bytes, i)) by {
        lemma_hex_digit(nibble_at(bytes, i), t[i]);
    }
    lemma_trim_nothing(t);
    assert(is_ascii_chars(t));
    vstd::utf8::is_ascii_chars_encode_utf8(t);
    lemma_hex_value(encode_utf8(t), bytes);
}

/// Decoding gives back what was encoded.
pub proof fn lemma_hex_round_trip(bytes: Seq<u8>)
    ensures
        hex_meaning(hex_text(bytes)) == Some(bytes),
{
    lemma_hex_either_case(hex_text(bytes), bytes);
}

/// White space at the ends of a hexadecimal text does not count, and a text stands for
/// bytes exactly where, without it, it is an even number of hexadecimal digits.
pub proof fn lemma_hex_decodes(s: Seq<char>)
    ensures
        hex_meaning(s) == hex_meaning(trimmed(s)),
        hex_meaning(s) is Some <==> {
            let b = encode_utf8(trimmed(s));
            b.len() % 2 == 0 && forall|i: int| 0 <= i < b.len() ==> is_hex_byte(#[trigger] b[i])
        },
{
    lemma_trims(s);
    lemma_trim_nothing(trimmed(s));
    lemma_hex_digits(encode_utf8(trimmed(s)));
}

/// A byte has a value exactly where it is a digit.
proof fn lemma_hex_digits(b: Seq<u8>)
    ensures
        hex_value(b) is Some <==> b.len() % 2 == 0 && forall|i: int|
            0 <= i < b.len() ==> is_hex_byte(#[trigger] b[i]),
{
    if forall|i: int| 0 <= i < b.len() ==> is_hex_byte(#[trigger] b[i]) {
        assert(forall|i: int| 0 <= i < b.len() ==> nibble(#[trigger] b[i]) is Some);
    }
}

} // verus!
