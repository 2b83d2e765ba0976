//! Reading the database while its owner may run.
//!
//! A connection that takes no locks sees a snapshot, which a checkpoint of the owner can
//! tear. A torn snapshot is no damage: a new connection reads again.

use vstd::prelude::*;

use crate::error::{innermost, sqlite_code, Error, FaultCode};
use crate::text::join3;
use crate::workspace::unescaped;
use vstd::utf8::{decode_utf8, encode_scalar, encode_utf8, is_ascii_chars, valid_utf8};

verus! {

broadcast use vstd::string::group_string_axioms;

/// What a character becomes in an address of the database.
pub open spec fn escaped_char(c: char) -> Seq<char> {
    if c == '%' {
        "%25"@
    } else if c == '?' {
        "%3F"@
    } else if c == '#' {
        "%23"@
    } else {
        seq![c]
    }
}

/// A path as part of an address.
pub open spec fn escaped(s: Seq<char>) -> Seq<char>
    decreases s.len(),
{
    if s.len() == 0 {
        Seq::empty()
    } else {
        escaped(s.drop_last()) + escaped_char(s.last())
    }
}

/// A path as part of an address: the three characters that mean something there are
/// replaced.
pub fn uri_escape(s: &str) -> (r: String)
    ensures
        r@ == escaped(s@),
{
    let ghost cs = s@;
    let mut out = String::new();
    let n: usize = s.unicode_len();
    let mut i: usize = 0;
    assert(cs.take(0) =~= Seq::<char>::empty());
    while i < n
        invariant
            i <= n,
            n == cs.len(),
            cs == s@,
            out@ == escaped(cs.take(i as int)),
        decreases n - i,
    {
        let c = s.get_char(i);
        proof {
            assert(cs.take(i + 1).drop_last() =~= cs.take(i as int));
            assert(cs.take(i + 1).last() == c);
        }
        let ghost o0 = out@;
        if c == '%' {
            out.push_str("%25");
        } else if c == '?' {
            out.push_str("%3F");
        } else if c == '#' {
            out.push_str("%23");
        } else {
            out.push(c);
            assert(out@ =~= o0 + seq![c]);
        }
        i += 1;
    }
    assert(cs.take(i as int) =~= cs);
    out
}

/// The address by which the database is opened for reading without locks.
pub fn analysis_uri(path: &str) -> (r: String)
    ensures
        r@ == "file:"@ + escaped(path@) + "?immutable=1"@,
{
    let p = uri_escape(path);
    join3("file:", p.as_str(), "?immutable=1")
}

/// No character of the path is left that would end it in an address.
pub proof fn lemma_escaped_is_plain(s: Seq<char>)
    ensures
        !escaped(s).contains('?'),
        !escaped(s).contains('#'),
    decreases s.len(),
{
    reveal_strlit("%25");
    reveal_strlit("%3F");
    reveal_strlit("%23");
    if s.len() > 0 {
        let a = escaped(s.drop_last());
        let b = escaped_char(s.last());
        lemma_escaped_is_plain(s.drop_last());
        assert forall|i: int| 0 <= i < (a + b).len() implies (a + b)[i] != '?' && (a + b)[i]
            != '#' by {
            if i < a.len() {
                assert(a.contains(a[i]));
            }
        }
    }
}

/// A percent sign in an escaped path begins one of the three replacements.
pub open spec fn begins_escape(t: Seq<char>, i: int) -> bool {
    i + 3 <= t.len() && (t.subrange(i, i + 3) == "%25"@ || t.subrange(i, i + 3) == "%3F"@
        || t.subrange(i, i + 3) == "%23"@)
}

/// Every percent sign in an escaped path begins one of the three replacements.
pub proof fn lemma_escaped_percents(s: Seq<char>, i: int)
    requires
        0 <= i < escaped(s).len(),
        escaped(s)[i] == '%',
    ensures
        begins_escape(escaped(s), i),
    decreases s.len(),
{
    reveal_strlit("%25");
    reveal_strlit("%3F");
    reveal_strlit("%23");
    let a = escaped(s.drop_last());
    let b = escaped_char(s.last());
    if i < a.len() {
        lemma_escaped_percents(s.drop_last(), i);
        assert((a + b).subrange(i, i + 3) =~= a.subrange(i, i + 3));
    } else {
        assert((a + b)[i] == b[i - a.len()]);
        assert(b.len() == 3 && i == a.len());
        assert((a + b).subrange(i, i + 3) =~= b);
    }
}

/// A path without the three characters is its own escaped form.
pub proof fn lemma_escaped_unchanged(s: Seq<char>)
    requires
        !s.contains('%'),
        !s.contains('?'),
        !s.contains('#'),
    ensures
        escaped(s) == s,
    decreases s.len(),
{
    if s.len() > 0 {
        let d = s.drop_last();
        assert forall|c: char| d.contains(c) implies s.contains(c) by {
            let k = choose|k: int| 0 <= k < d.len() && d[k] == c;
            assert(s[k] == c);
        }
        assert(s.contains(s[s.len() - 1]));
        lemma_escaped_unchanged(d);
        assert(escaped(s) =~= s);
    } else {
        assert(s =~= Seq::<char>::empty());
    }
}

proof fn lemma_escaped_front(s: Seq<char>)
    requires
        s.len() > 0,
    ensures
        escaped(s) == escaped_char(s[0]) + escaped(s.drop_first()),
    decreases s.len(),
{
    let d = s.drop_last();
    if d.len() == 0 {
        assert(s.drop_first() =~= Seq::<char>::empty());
        assert(d =~= Seq::<char>::empty());
        assert(escaped(d) =~= Seq::<char>::empty());
        assert(escaped(s.drop_first()) =~= Seq::<char>::empty());
        assert(s.last() == s[0]);
        assert(escaped(s) =~= escaped_char(s[0]) + escaped(s.drop_first()));
    } else {
        lemma_escaped_front(d);
        let r = s.drop_first();
        assert(r.drop_last() =~= d.drop_first());
        assert(r.last() == s.last());
        assert(escaped(s) =~= escaped_char(s[0]) + escaped(r));
    }
}

proof fn lemma_encode_add(a: Seq<char>, b: Seq<char>)
    ensures
        encode_utf8(a + b) == encode_utf8(a) + encode_utf8(b),
    decreases a.len(),
{
    if a.len() == 0 {
        assert(a + b =~= b);
        assert(encode_utf8(a) + encode_utf8(b) =~= encode_utf8(b));
    } else {
        assert((a + b).drop_first() =~= a.drop_first() + b);
        lemma_encode_add(a.drop_first(), b);
        assert(encode_utf8(a + b) =~= encode_utf8(a) + encode_utf8(b));
    }
}

/// No other character has the byte of the percent sign in its encoding.
proof fn lemma_no_percent(c: char)
    requires
        c != '%',
    ensures
        forall|i: int|
            0 <= i < encode_scalar(c as u32).len() ==> #[trigger] encode_scalar(c as u32)[i] != 0x25,
{
    let u = c as u32;
    assert(u != 0x25) by {
        vstd::utf8::char_u32_cast(c, u);
        vstd::utf8::char_u32_cast('%', 0x25);
    }
    assert(u < 0x80 && u != 0x25 ==> ((u & 0x7F) as u8) != 0x25) by (bit_vector);
    assert forall|x: u8| #[trigger] (0x80u8 | x) != 0x25 by {
        assert((0x80u8 | x) != 0x25) by (bit_vector);
    }
    assert forall|x: u8| #[trigger] (0xC0u8 | x) != 0x25 by {
        assert((0xC0u8 | x) != 0x25) by (bit_vector);
    }
    assert forall|x: u8| #[trigger] (0xE0u8 | x) != 0x25 by {
        assert((0xE0u8 | x) != 0x25) by (bit_vector);
    }
    assert forall|x: u8| #[trigger] (0xF0u8 | x) != 0x25 by {
        assert((0xF0u8 | x) != 0x25) by (bit_vector);
    }
}

proof fn lemma_unescaped_plain(a: Seq<u8>, b: Seq<u8>)
    requires
        forall|i: int| 0 <= i < a.len() ==> #[trigger] a[i] != 0x25,
    ensures
        unescaped(a + b) == a + unescaped(b),
    decreases a.len(),
{
    if a.len() == 0 {
        assert(a + b =~= b);
        assert(a + unescaped(b) =~= unescaped(b));
    } else {
        let r = a.skip(1);
        assert forall|i: int| 0 <= i < r.len() implies #[trigger] r[i] != 0x25 by {
            assert(a[i + 1] != 0x25);
        }
        lemma_unescaped_plain(r, b);
        assert((a + b)[0] == a[0]);
        assert(a[0] != 0x25);
        assert((a + b).skip(1) =~= r + b);
        assert(unescaped(a + b) =~= a + unescaped(b));
    }
}

/// A percent sign, two digits, and more.
proof fn lemma_unescaped_code(t: Seq<char>, c: char, b: Seq<u8>)
    requires
        c == '%' && t == "%25"@ || c == '?' && t == "%3F"@ || c == '#' && t == "%23"@,
    ensures
        unescaped(encode_utf8(t) + b) == encode_utf8(seq![c]) + unescaped(b),
{
    reveal_strlit("%25");
    reveal_strlit("%3F");
    reveal_strlit("%23");
    assert(is_ascii_chars(t));
    assert(is_ascii_chars(seq![c]));
    vstd::utf8::is_ascii_chars_encode_utf8(t);
    vstd::utf8::is_ascii_chars_encode_utf8(seq![c]);
    let e = encode_utf8(t);
    let all = e + b;
    assert(t[0] as u8 == e[0] && t[1] as u8 == e[1] && t[2] as u8 == e[2]);
    assert(all[0] == e[0] && all[1] == e[1] && all[2] == e[2]);
    assert(all.skip(3) =~= b);
    assert(seq![c][0] as u8 == encode_utf8(seq![c])[0]);
    assert(unescaped(all) =~= encode_utf8(seq![c]) + unescaped(b));
}

/// Decoding the escaped path gives the path back.
pub proof fn lemma_escape_round_trip(s: Seq<char>)
    ensures
        unescaped(encode_utf8(escaped(s))) == encode_utf8(s),
        valid_utf8(unescaped(encode_utf8(escaped(s)))),
        decode_utf8(unescaped(encode_utf8(escaped(s)))) == s,
    decreases s.len(),
{
    if s.len() == 0 {
        assert(unescaped(encode_utf8(escaped(s))) =~= encode_utf8(s));
    } else {
        let c = s[0];
        let r = s.drop_first();
        let e = escaped_char(c);
        let b = encode_utf8(escaped(r));
        lemma_escape_round_trip(r);
        lemma_escaped_front(s);
        lemma_encode_add(e, escaped(r));
        assert(seq![c] + r =~= s);
        lemma_encode_add(seq![c], r);
        if c == '%' || c == '?' || c == '#' {
            lemma_unescaped_code(e, c, b);
        } else {
            lemma_no_percent(c);
            assert(seq![c].drop_first() =~= Seq::<char>::empty());
            assert(encode_utf8(seq![c]) =~= encode_scalar(c as u32)) by {
                reveal_with_fuel(encode_utf8, 2);
            }
            lemma_unescaped_plain(encode_utf8(e), b);
        }
    }
    vstd::utf8::encode_utf8_valid_utf8(s);
    vstd::utf8::encode_utf8_decode_utf8(s);
}

/// Different paths have different escaped forms.
pub proof fn lemma_escaped_injective(a: Seq<char>, b: Seq<char>)
    requires
        escaped(a) == escaped(b),
    ensures
        a == b,
{
    lemma_escape_round_trip(a);
    lemma_escape_round_trip(b);
}

/// How often a read is tried.
pub const MAX_ATTEMPTS: u32 = 3;

/// Whether a read is tried again after its `attempt`-th try failed.
pub fn try_again(attempt: u32, e: &Error) -> (r: bool)
    ensures
        r == (attempt < MAX_ATTEMPTS && sqlite_code(innermost(*e)) == Some(FaultCode::Corrupt)),
        attempt >= 3 ==> !r,
        attempt < 3 && sqlite_code(innermost(*e)) == Some(FaultCode::Corrupt) ==> r,
{
    attempt < MAX_ATTEMPTS && e.is_snapshot_torn()
}

} // verus!
