//! Text primitives: the standard string operations that the library relies on,
//! stated over sequences of characters, and the small functions built on them.

use vstd::prelude::*;
use vstd::utf8::{decode_utf8, valid_utf8};

verus! {

broadcast use vstd::string::group_string_axioms;

/// `a` sorts strictly before `b`: lexicographic order by code point.
pub open spec fn lex_lt(a: Seq<char>, b: Seq<char>) -> bool
    decreases a.len(),
{
    if b.len() == 0 {
        false
    } else if a.len() == 0 {
        true
    } else if a[0] != b[0] {
        (a[0] as u32) < (b[0] as u32)
    } else {
        lex_lt(a.drop_first(), b.drop_first())
    }
}

/// `a` sorts before `b` or equals it.
pub open spec fn lex_le(a: Seq<char>, b: Seq<char>) -> bool {
    a == b || lex_lt(a, b)
}

/// The views of a sequence of strings.
pub open spec fn views(s: Seq<String>) -> Seq<Seq<char>> {
    s.map_values(|x: String| x@)
}

/// Strictly increasing in [`lex_lt`]; so also free of repetitions.
pub open spec fn lex_increasing(s: Seq<Seq<char>>) -> bool {
    forall|i: int, j: int| 0 <= i < j < s.len() ==> lex_lt(#[trigger] s[i], #[trigger] s[j])
}

/// Increasing in [`lex_le`].
pub open spec fn lex_sorted(s: Seq<Seq<char>>) -> bool {
    forall|i: int, j: int| 0 <= i < j < s.len() ==> lex_le(#[trigger] s[i], #[trigger] s[j])
}

/// Different characters have different codes.
proof fn lemma_char_code(a: char, b: char)
    ensures
        a == b <==> a as u32 == b as u32,
{
}

pub proof fn lemma_lex_irreflexive(a: Seq<char>)
    ensures
        !lex_lt(a, a),
    decreases a.len(),
{
    if a.len() > 0 {
        lemma_lex_irreflexive(a.drop_first());
    }
}

pub proof fn lemma_lex_total(a: Seq<char>, b: Seq<char>)
    ensures
        a == b || lex_lt(a, b) || lex_lt(b, a),
    decreases a.len(),
{
    if a.len() > 0 && b.len() > 0 && a[0] == b[0] {
        lemma_lex_total(a.drop_first(), b.drop_first());
        if a.drop_first() == b.drop_first() {
            assert(a =~= seq![a[0]] + a.drop_first());
            assert(b =~= seq![b[0]] + b.drop_first());
        }
    } else if a.len() == 0 && b.len() == 0 {
        assert(a =~= b);
    } else if a.len() > 0 && b.len() > 0 {
        lemma_char_code(a[0], b[0]);
    }
}

pub proof fn lemma_lex_transitive(a: Seq<char>, b: Seq<char>, c: Seq<char>)
    requires
        lex_lt(a, b),
        lex_lt(b, c),
    ensures
        lex_lt(a, c),
    decreases a.len(),
{
    if a.len() > 0 && b.len() > 0 && c.len() > 0 && a[0] == b[0] && b[0] == c[0] {
        lemma_lex_transitive(a.drop_first(), b.drop_first(), c.drop_first());
    }
}

/// Two strings with a common beginning are ordered as their ends are.
pub proof fn lemma_lex_common_prefix(p: Seq<char>, a: Seq<char>, b: Seq<char>)
    ensures
        lex_lt(p + a, p + b) == lex_lt(a, b),
    decreases p.len(),
{
    if p.len() == 0 {
        assert(p + a =~= a);
        assert(p + b =~= b);
    } else {
        assert((p + a).drop_first() =~= p.drop_first() + a);
        assert((p + b).drop_first() =~= p.drop_first() + b);
        lemma_lex_common_prefix(p.drop_first(), a, b);
    }
}

/// The strings from `p` followed by the character `c` up to, and without, `p`
/// followed by `c`'s successor are those that begin with `p` and `c`.
pub proof fn lemma_prefix_range(p: Seq<char>, c: char, next: char, k: Seq<char>)
    requires
        next as u32 == c as u32 + 1,
    ensures
        (lex_le(p.push(c), k) && lex_lt(k, p.push(next))) <==> p.push(c).is_prefix_of(k),
    decreases p.len(),
{
    let lo = p.push(c);
    let hi = p.push(next);
    lemma_lex_irreflexive(lo);
    if p.len() == 0 {
        if k.len() > 0 {
            assert(lo.drop_first() =~= Seq::<char>::empty());
            assert(hi.drop_first() =~= Seq::<char>::empty());
            if k[0] == c {
                assert(lo.is_prefix_of(k)) by {
                    assert(k.subrange(0, 1) =~= lo);
                }
                if k.drop_first().len() == 0 {
                    assert(k =~= lo);
                } else {
                    assert(lex_lt(lo.drop_first(), k.drop_first()));
                }
            } else {
                assert(!lo.is_prefix_of(k)) by {
                    if lo.is_prefix_of(k) {
                        assert(k.subrange(0, 1)[0] == k[0]);
                        assert(lo[0] == c);
                    }
                }
                if lex_le(lo, k) && lex_lt(k, hi) {
                    assert(lex_lt(lo, k));
                    assert((c as u32) < (k[0] as u32));
                    if k[0] == next {
                        assert(!lex_lt(k.drop_first(), hi.drop_first()));
                        assert(!lex_lt(k, hi));
                    }
                    assert((k[0] as u32) < (next as u32));
                }
            }
        }
    } else if k.len() == 0 {
    } else if k[0] == p[0] {
        assert(lo.drop_first() =~= p.drop_first().push(c));
        assert(hi.drop_first() =~= p.drop_first().push(next));
        lemma_prefix_range(p.drop_first(), c, next, k.drop_first());
        assert(lo[0] == k[0]);
        assert(lo == k <==> lo.drop_first() == k.drop_first()) by {
            assert(lo =~= seq![lo[0]] + lo.drop_first());
            assert(k =~= seq![k[0]] + k.drop_first());
        }
        assert(lo.is_prefix_of(k) <==> lo.drop_first().is_prefix_of(k.drop_first())) by {
            if lo.is_prefix_of(k) {
                assert(lo.drop_first() =~= k.drop_first().subrange(
                    0,
                    lo.drop_first().len() as int,
                ));
            }
            if lo.drop_first().is_prefix_of(k.drop_first()) {
                let rest = lo.drop_first();
                assert(rest == k.drop_first().subrange(0, rest.len() as int));
                assert forall|i: int| 0 <= i < lo.len() implies lo[i] == k[i] by {
                    if i > 0 {
                        assert(lo[i] == rest[i - 1]);
                        assert(k[i] == k.drop_first()[i - 1]);
                        assert(k.drop_first().subrange(0, rest.len() as int)[i - 1]
                            == k.drop_first()[i - 1]);
                    }
                }
                assert(lo =~= k.subrange(0, lo.len() as int));
            }
        }
    } else {
        assert(!lo.is_prefix_of(k)) by {
            if lo.is_prefix_of(k) {
                assert(k.subrange(0, lo.len() as int)[0] == k[0]);
            }
        }
    }
}

/// The position of the first `c` in `s`, or the length of `s` where there is none.
pub open spec fn first_index(s: Seq<char>, c: char) -> int
    decreases s.len(),
{
    if s.len() == 0 || s[0] == c {
        0
    } else {
        1 + first_index(s.drop_first(), c)
    }
}

/// What stands before the first `c` in `s`; all of `s` where there is none.
pub open spec fn before(s: Seq<char>, c: char) -> Seq<char> {
    s.take(first_index(s, c))
}

pub proof fn lemma_first_index(s: Seq<char>, c: char)
    ensures
        0 <= first_index(s, c) <= s.len(),
        forall|i: int| 0 <= i < first_index(s, c) ==> s[i] != c,
        first_index(s, c) < s.len() ==> s[first_index(s, c)] == c,
    decreases s.len(),
{
    if s.len() > 0 && s[0] != c {
        lemma_first_index(s.drop_first(), c);
        assert forall|i: int| 0 <= i < first_index(s, c) implies s[i] != c by {
            if i > 0 {
                assert(s[i] == s.drop_first()[i - 1]);
            }
        }
    }
}

/// A position with no `c` before it, and `c` or the end at it, is the first index.
pub proof fn lemma_first_index_unique(s: Seq<char>, c: char, k: int)
    requires
        0 <= k <= s.len(),
        forall|i: int| 0 <= i < k ==> s[i] != c,
        k < s.len() ==> s[k] == c,
    ensures
        first_index(s, c) == k,
{
    lemma_first_index(s, c);
    let f = first_index(s, c);
    if f < k {
        assert(s[f] != c);
    }
}

/// The white space characters of Unicode.
pub open spec fn is_white(c: char) -> bool {
    let u = c as u32;
    ||| 0x9 <= u <= 0xd
    ||| u == 0x20
    ||| u == 0x85
    ||| u == 0xa0
    ||| u == 0x1680
    ||| 0x2000 <= u <= 0x200a
    ||| u == 0x2028
    ||| u == 0x2029
    ||| u == 0x202f
    ||| u == 0x205f
    ||| u == 0x3000
}

/// `t` is `s` without the white space at its two ends.
pub open spec fn is_trimmed(s: Seq<char>, t: Seq<char>) -> bool {
    exists|i: int, j: int|
        0 <= i <= j <= s.len() && t == #[trigger] s.subrange(i, j) && (forall|k: int|
            0 <= k < i || j <= k < s.len() ==> is_white(#[trigger] s[k])) && (i < j ==> !is_white(
            s[i],
        ) && !is_white(s[j - 1]))
}

/// `s` without the white space at its two ends.
pub open spec fn trimmed(s: Seq<char>) -> Seq<char> {
    choose|t: Seq<char>| is_trimmed(s, t)
}

/// A string can be trimmed, and what is left neither begins nor ends with white space.
pub proof fn lemma_trims(s: Seq<char>)
    ensures
        is_trimmed(s, trimmed(s)),
        trimmed(s).len() > 0 ==> !is_white(trimmed(s)[0]) && !is_white(
            trimmed(s)[trimmed(s).len() - 1],
        ),
{
    let i = lemma_first_dark(s, 0);
    if i == s.len() {
        assert(s.subrange(i, i) =~= Seq::<char>::empty());
        assert(is_trimmed(s, s.subrange(i, i)));
    } else {
        let j = lemma_last_dark(s, s.len() as int, i);
        assert(is_trimmed(s, s.subrange(i, j)));
    }
}

/// Where there is no white space at the ends, nothing is trimmed.
pub proof fn lemma_trim_nothing(s: Seq<char>)
    requires
        s.len() > 0 ==> !is_white(s[0]) && !is_white(s[s.len() - 1]),
    ensures
        trimmed(s) == s,
{
    assert(s.subrange(0, s.len() as int) =~= s);
    assert(is_trimmed(s, s));
    lemma_trimmed_unique(s, s);
}

/// The first place from `i` on that holds no white space.
proof fn lemma_first_dark(s: Seq<char>, i: int) -> (r: int)
    requires
        0 <= i <= s.len(),
    ensures
        i <= r <= s.len(),
        forall|k: int| i <= k < r ==> is_white(#[trigger] s[k]),
        r < s.len() ==> !is_white(s[r]),
    decreases s.len() - i,
{
    if i < s.len() && is_white(s[i]) {
        lemma_first_dark(s, i + 1)
    } else {
        i
    }
}

/// The end of the last place before `j` that holds no white space.
proof fn lemma_last_dark(s: Seq<char>, j: int, i: int) -> (r: int)
    requires
        0 <= i < j <= s.len(),
        !is_white(s[i]),
    ensures
        i < r <= j,
        forall|k: int| r <= k < j ==> is_white(#[trigger] s[k]),
        !is_white(s[r - 1]),
    decreases j,
{
    if is_white(s[j - 1]) {
        lemma_last_dark(s, j - 1, i)
    } else {
        j
    }
}

/// There is only one way to trim a string.
pub proof fn lemma_trimmed_unique(s: Seq<char>, t: Seq<char>)
    requires
        is_trimmed(s, t),
    ensures
        trimmed(s) == t,
{
    let u = trimmed(s);
    assert(is_trimmed(s, u));
    let (i, j) = choose|i: int, j: int|
        0 <= i <= j <= s.len() && t == #[trigger] s.subrange(i, j) && (forall|k: int|
            0 <= k < i || j <= k < s.len() ==> is_white(#[trigger] s[k])) && (i < j ==> !is_white(
            s[i],
        ) && !is_white(s[j - 1]));
    let (a, b) = choose|i: int, j: int|
        0 <= i <= j <= s.len() && u == #[trigger] s.subrange(i, j) && (forall|k: int|
            0 <= k < i || j <= k < s.len() ==> is_white(#[trigger] s[k])) && (i < j ==> !is_white(
            s[i],
        ) && !is_white(s[j - 1]));
    if i < j {
        assert(a <= i) by {
            if i < a {
                assert(is_white(s[i]));
            }
        }
        assert(j <= b) by {
            if b < j {
                assert(is_white(s[j - 1]));
            }
        }
        assert(a < b);
        assert(i <= a) by {
            if a < i {
                assert(is_white(s[a]));
            }
        }
        assert(b <= j) by {
            if j < b {
                assert(is_white(s[b - 1]));
            }
        }
    } else {
        if a < b {
            assert(is_white(s[a]));
        }
        assert(t =~= u);
    }
}

/// `c` with an ASCII capital replaced by its small letter.
pub open spec fn ascii_lower(c: char) -> char {
    if 'A' <= c && c <= 'Z' {
        ((c as u32 + 32) as u32) as char
    } else {
        c
    }
}

/// `s` with each ASCII capital replaced by its small letter.
pub open spec fn lowered(s: Seq<char>) -> Seq<char> {
    s.map_values(|c: char| ascii_lower(c))
}

/// `needle` occurs in `s`.
pub open spec fn occurs(needle: Seq<char>, s: Seq<char>) -> bool {
    exists|i: int|
        0 <= i <= s.len() - needle.len() && #[trigger] s.subrange(i, i + needle.len()) == needle
}

/// The text that `bytes` encode, where they are valid UTF-8.
pub open spec fn utf8_text(bytes: Seq<u8>) -> Option<Seq<char>> {
    if valid_utf8(bytes) {
        Some(decode_utf8(bytes))
    } else {
        None
    }
}

/// `String::push` appends one character.
pub assume_specification[ String::push ](s: &mut String, c: char)
    ensures
        final(s)@ == old(s)@.push(c),
;

/// `String::push_str` appends a string.
pub assume_specification[ String::push_str ](s: &mut String, t: &str)
    ensures
        final(s)@ == old(s)@ + t@,
;

/// `String::pop` takes the last character off, where there is one.
pub assume_specification[ String::pop ](s: &mut String) -> (r: Option<char>)
    ensures
        old(s)@.len() == 0 ==> r is None && final(s)@ == old(s)@,
        old(s)@.len() > 0 ==> r == Some(old(s)@.last()) && final(s)@ == old(s)@.drop_last(),
;

/// `String::clear` leaves the empty string.
pub assume_specification[ String::clear ](s: &mut String)
    ensures
        final(s)@ == Seq::<char>::empty(),
;

/// `==` on `str`: equal exactly where the characters are.
#[verifier::external_body]
pub(crate) fn same(a: &str, b: &str) -> (r: bool)
    ensures
        r == (a@ == b@),
{
    a == b
}

/// `<` on `str`: lexicographic by the code points.
#[verifier::external_body]
pub(crate) fn sorts_before(a: &str, b: &str) -> (r: bool)
    ensures
        r == lex_lt(a@, b@),
{
    a < b
}

/// `str::strip_prefix`: what follows the prefix, where the string begins with it.
#[verifier::external_body]
pub(crate) fn strip_prefix<'a>(s: &'a str, prefix: &str) -> (r: Option<&'a str>)
    ensures
        r is Some <==> prefix@.is_prefix_of(s@),
        r matches Some(rest) ==> s@ == prefix@ + rest@,
{
    s.strip_prefix(prefix)
}

/// `str::strip_suffix`: what precedes the suffix, where the string ends with it.
#[verifier::external_body]
pub(crate) fn strip_suffix<'a>(s: &'a str, suffix: &str) -> (r: Option<&'a str>)
    ensures
        r is Some <==> suffix@.is_suffix_of(s@),
        r matches Some(rest) ==> s@ == rest@ + suffix@,
{
    s.strip_suffix(suffix)
}

/// `str::split_once` with a character: what stands before and after its first occurrence.
#[verifier::external_body]
pub(crate) fn split_once<'a>(s: &'a str, c: char) -> (r: Option<(&'a str, &'a str)>)
    ensures
        r is Some <==> s@.contains(c),
        r matches Some((a, b)) ==> s@ == a@.push(c) + b@ && !a@.contains(c),
{
    s.split_once(c)
}

/// `str::trim` removes the white space at both ends.
#[verifier::external_body]
fn std_trim(s: &str) -> (r: &str)
    ensures
        is_trimmed(s@, r@),
{
    s.trim()
}

/// `s` without the white space at its two ends.
pub(crate) fn trim(s: &str) -> (r: &str)
    ensures
        r@ == trimmed(s@),
        is_trimmed(s@, r@),
{
    let r = std_trim(s);
    proof {
        lemma_trimmed_unique(s@, r@);
    }
    r
}

/// `str::to_ascii_lowercase` maps the ASCII capitals and keeps every other character.
#[verifier::external_body]
pub(crate) fn to_ascii_lower(s: &str) -> (r: String)
    ensures
        r@ == lowered(s@),
{
    s.to_ascii_lowercase()
}

/// What `str::to_lowercase` makes of a string: the Unicode lower case mapping.
pub uninterp spec fn unicode_lower(s: Seq<char>) -> Seq<char>;

/// `str::to_lowercase`, under the name [`unicode_lower`].
#[verifier::external_body]
pub(crate) fn to_lower(s: &str) -> (r: String)
    ensures
        r@ == unicode_lower(s@),
{
    s.to_lowercase()
}

/// `str::contains` with a string: whether it occurs anywhere.
#[verifier::external_body]
pub(crate) fn contains_text(s: &str, needle: &str) -> (r: bool)
    ensures
        r == occurs(needle@, s@),
{
    s.contains(needle)
}

/// `std::str::from_utf8`: the text, exactly where the bytes are valid UTF-8.
#[verifier::external_body]
pub(crate) fn from_utf8(bytes: &[u8]) -> (r: Option<&str>)
    ensures
        r is Some <==> valid_utf8(bytes@),
        r matches Some(s) ==> s@ == decode_utf8(bytes@),
{
    std::str::from_utf8(bytes).ok()
}

/// What `String::from_utf8_lossy` makes of bytes.
pub uninterp spec fn utf8_lossy(bytes: Seq<u8>) -> Seq<char>;

/// `String::from_utf8_lossy`, under the name [`utf8_lossy`]; valid UTF-8 is decoded as it is.
#[verifier::external_body]
pub(crate) fn from_utf8_lossy(bytes: &[u8]) -> (r: String)
    ensures
        r@ == utf8_lossy(bytes@),
        valid_utf8(bytes@) ==> r@ == decode_utf8(bytes@),
{
    String::from_utf8_lossy(bytes).into_owned()
}

/// `slice::sort` on strings: a permutation of what was there, in increasing order.
#[verifier::external_body]
fn std_sort(v: &mut Vec<String>)
    ensures
        final(v)@.to_multiset() == old(v)@.to_multiset(),
        lex_sorted(views(final(v)@)),
{
    v.sort()
}

/// One text more.
pub(crate) fn put(out: &mut Vec<String>, s: String)
    ensures
        views(final(out)@) == views(old(out)@).push(s@),
{
    let ghost v = out@;
    let ghost t = s@;
    out.push(s);
    assert(views(out@) =~= views(v).push(t));
}

/// The part of `s` before the first `c`.
pub(crate) fn segment(s: &str, c: char) -> (r: &str)
    ensures
        r@ == before(s@, c),
{
    match split_once(s, c) {
        Some((a, b)) => {
            proof {
                let k = a@.len() as int;
                assert(s@[k] == c) by {
                    assert((a@.push(c) + b@)[k] == c);
                }
                assert forall|i: int| 0 <= i < k implies s@[i] != c by {
                    assert((a@.push(c) + b@)[i] == a@[i]);
                    assert(a@.contains(a@[i]));
                }
                lemma_first_index_unique(s@, c, k);
                assert(s@.take(k) =~= a@);
            }
            a
        },
        None => {
            proof {
                assert forall|i: int| 0 <= i < s@.len() implies s@[i] != c by {
                    assert(s@.contains(s@[i]));
                }
                lemma_first_index_unique(s@, c, s@.len() as int);
                assert(s@.take(s@.len() as int) =~= s@);
            }
            s
        },
    }
}

/// Whether `s` begins with `prefix`.
pub(crate) fn starts_with(s: &str, prefix: &str) -> (r: bool)
    ensures
        r == prefix@.is_prefix_of(s@),
{
    strip_prefix(s, prefix).is_some()
}

/// `a` and then `b`.
pub(crate) fn join2(a: &str, b: &str) -> (r: String)
    ensures
        r@ == a@ + b@,
{
    let mut out = a.to_owned();
    out.push_str(b);
    out
}

/// `a`, `b` and then `c`.
pub(crate) fn join3(a: &str, b: &str, c: &str) -> (r: String)
    ensures
        r@ == a@ + b@ + c@,
{
    let mut out = join2(a, b);
    out.push_str(c);
    out
}

pub proof fn lemma_views_multiset(a: Seq<String>, b: Seq<String>)
    requires
        a.to_multiset() == b.to_multiset(),
    ensures
        views(a).to_multiset() == views(b).to_multiset(),
        a.len() == b.len(),
    decreases a.len(),
{
    broadcast use vstd::multiset::group_multiset_axioms;
    broadcast use vstd::seq_lib::to_multiset_len;
    a.to_multiset_ensures();
    b.to_multiset_ensures();
    if a.len() == 0 {
        assert(b.len() == 0);
        assert(views(a) =~= views(b));
    } else {
        let x = a.last();
        assert(a.to_multiset().count(x) > 0) by {
            assert(a.contains(x));
        }
        assert(b.contains(x));
        let i = choose|i: int| 0 <= i < b.len() && b[i] == x;
        let a2 = a.drop_last();
        let b2 = b.remove(i);
        assert(a =~= a2.push(x));
        a2.to_multiset_ensures();
        assert(a2.to_multiset() =~= a.to_multiset().remove(x)) by {
            assert(a2.push(x).to_multiset() =~= a2.to_multiset().insert(x));
            assert(a2.to_multiset().insert(x).remove(x) =~= a2.to_multiset());
        }
        assert(b2.to_multiset() =~= b.to_multiset().remove(x));
        lemma_views_multiset(a2, b2);
        assert(views(a) =~= views(a2).push(x@));
        views(a2).to_multiset_ensures();
        views(b2).to_multiset_ensures();
        views(b).to_multiset_ensures();
        assert(views(b2) =~= views(b).remove(i));
        assert(views(b).to_multiset().remove(x@) =~= views(b2).to_multiset());
        assert(views(b).contains(x@)) by {
            assert(views(b)[i] == x@);
        }
        assert(views(b).to_multiset().count(x@) > 0);
        assert(views(b).to_multiset() =~= views(b2).to_multiset().insert(x@));
        assert(views(a).to_multiset() =~= views(a2).to_multiset().insert(x@));
    }
}

/// Sorts strings in place.
pub(crate) fn sort_texts(v: &mut Vec<String>)
    ensures
        views(final(v)@).to_multiset() == views(old(v)@).to_multiset(),
        lex_sorted(views(final(v)@)),
        final(v)@.len() == old(v)@.len(),
{
    std_sort(v);
    proof {
        lemma_views_multiset(v@, old(v)@);
    }
}

/// The decimal digit for `d`.
pub open spec fn digit(d: nat) -> char {
    ('0' as u32 + d) as char
}

/// `n` in decimal, without leading zeros.
pub open spec fn decimal(n: nat) -> Seq<char>
    decreases n,
{
    if n < 10 {
        seq![digit(n)]
    } else {
        decimal(n / 10).push(digit(n % 10))
    }
}

/// The digit character for a number below ten.
fn digit_char(d: u64) -> (c: char)
    requires
        d < 10,
    ensures
        c == digit(d as nat),
{
    let b: u8 = 48u8 + (d as u8);
    b as char
}

/// `n` in decimal.
pub(crate) fn decimal_text(n: u64) -> (r: String)
    ensures
        r@ == decimal(n as nat),
    decreases n,
{
    let mut out = if n < 10 {
        String::new()
    } else {
        decimal_text(n / 10)
    };
    out.push(digit_char(n % 10));
    proof {
        if n < 10 {
            assert(out@ =~= seq![digit(n as nat)]);
        }
    }
    out
}

/// The first `n` characters, or all where there are fewer.
pub open spec fn head(s: Seq<char>, n: int) -> Seq<char> {
    s.take(if s.len() < n {
        s.len() as int
    } else {
        n
    })
}

/// The first `n` characters, or all where there are fewer.
pub(crate) fn first_chars(s: &str, n: usize) -> (r: &str)
    ensures
        r@ == head(s@, n as int),
{
    let len: usize = s.unicode_len();
    let k: usize = if len < n {
        len
    } else {
        n
    };
    let r = s.substring_char(0, k);
    assert(r@ =~= head(s@, n as int));
    r
}

/// The parts with a separator between them.
pub open spec fn joined(parts: Seq<Seq<char>>, sep: Seq<char>) -> Seq<char>
    decreases parts.len(),
{
    if parts.len() == 0 {
        Seq::empty()
    } else if parts.len() == 1 {
        parts[0]
    } else {
        joined(parts.drop_last(), sep) + sep + parts.last()
    }
}

/// The parts with `sep` between them.
pub(crate) fn join(parts: &[String], sep: &str) -> (r: String)
    ensures
        r@ == joined(views(parts@), sep@),
{
    let mut out = String::new();
    let ghost vs = views(parts@);
    let mut i: usize = 0;
    assert(vs.take(0) =~= Seq::<Seq<char>>::empty());
    while i < parts.len()
        invariant
            i <= parts@.len(),
            vs == views(parts@),
            out@ == joined(vs.take(i as int), sep@),
        decreases parts@.len() - i,
    {
        if i > 0 {
            out.push_str(sep);
        }
        out.push_str(parts[i].as_str());
        proof {
            let t = vs.take(i + 1);
            assert(t.drop_last() =~= vs.take(i as int));
            assert(t.last() == parts@[i as int]@);
            if i == 0 {
                assert(out@ =~= t[0]);
            }
        }
        i += 1;
    }
    assert(vs.take(i as int) =~= vs);
    out
}

/// A number of bytes in the largest unit that suits it, as `bytesize` shows it.
pub uninterp spec fn byte_size(n: u64) -> Seq<char>;

/// `Display` of `bytesize::ByteSize`, under the name [`byte_size`].
#[verifier::external_body]
pub(crate) fn size_text(n: u64) -> (r: String)
    ensures
        r@ == byte_size(n),
{
    bytesize::ByteSize::b(n).to_string()
}

/// What formatting a string for debugging gives: quoted and escaped.
pub uninterp spec fn quoted(s: Seq<char>) -> Seq<char>;

/// `Debug` of `str`, under the name [`quoted`].
#[verifier::external_body]
pub(crate) fn quote(s: &str) -> (r: String)
    ensures
        r@ == quoted(s@),
{
    format!("{s:?}")
}

/// A permutation of a sequence without repetitions has none, and holds the same values.
pub proof fn lemma_permutation<A>(a: Seq<A>, b: Seq<A>)
    requires
        a.to_multiset() == b.to_multiset(),
    ensures
        a.to_set() =~= b.to_set(),
        a.len() == b.len(),
        a.no_duplicates() ==> b.no_duplicates(),
{
    broadcast use vstd::seq_lib::to_multiset_len;
    a.to_multiset_ensures();
    b.to_multiset_ensures();
    assert forall|x: A| a.to_set().contains(x) <==> b.to_set().contains(x) by {
        assert(a.contains(x) <==> a.to_multiset().count(x) > 0);
        assert(b.contains(x) <==> b.to_multiset().count(x) > 0);
    }
    if a.no_duplicates() {
        a.lemma_multiset_has_no_duplicates();
        b.lemma_multiset_has_no_duplicates_conv();
    }
}

/// What a sequence holds after one more element came to its end.
pub proof fn lemma_push_contains<A>(s: Seq<A>, x: A)
    ensures
        forall|y: A| #[trigger] s.push(x).contains(y) <==> s.contains(y) || y == x,
{
    assert forall|y: A| #[trigger] s.push(x).contains(y) <==> s.contains(y) || y == x by {
        if s.contains(y) {
            let i = choose|i: int| 0 <= i < s.len() && s[i] == y;
            assert(s.push(x)[i] == y);
        }
        assert(s.push(x)[s.len() as int] == x);
    }
}

/// A text stands in itself.
pub proof fn lemma_occurs_self(s: Seq<char>)
    ensures
        occurs(s, s),
{
    let i: int = 0;
    assert(s.subrange(i, i + s.len()) =~= s);
}

/// What stands in a text still stands there when more follows.
pub proof fn lemma_occurs_grows(part: Seq<char>, s: Seq<char>, more: Seq<char>)
    requires
        occurs(part, s),
    ensures
        occurs(part, s + more),
{
    let i = choose|i: int|
        0 <= i <= s.len() - part.len() && #[trigger] s.subrange(i, i + part.len()) == part;
    assert((s + more).subrange(i, i + part.len()) =~= part);
}

/// A value that was written behind a label stands directly behind it.
pub proof fn lemma_follows(before: Seq<char>, label: Seq<char>, value: Seq<char>)
    ensures
        occurs(label + value, before + label + value),
{
    let s = before + label + value;
    let n = before.len() as int;
    assert(s.subrange(n, n + (label + value).len()) =~= label + value);
}

/// What was written last stands in the text.
pub proof fn lemma_stands(before: Seq<char>, part: Seq<char>)
    ensures
        occurs(part, before + part),
{
    let s = before + part;
    let n = before.len() as int;
    assert(s.subrange(n, n + part.len()) =~= part);
}

/// What two sequences hold together.
pub proof fn lemma_add_contains<A>(a: Seq<A>, b: Seq<A>, x: A)
    ensures
        (a + b).contains(x) <==> a.contains(x) || b.contains(x),
{
    if a.contains(x) {
        let i = choose|i: int| 0 <= i < a.len() && a[i] == x;
        assert((a + b)[i] == x);
    }
    if b.contains(x) {
        let i = choose|i: int| 0 <= i < b.len() && b[i] == x;
        assert((a + b)[a.len() + i] == x);
    }
    if (a + b).contains(x) {
        let i = choose|i: int| 0 <= i < (a + b).len() && (a + b)[i] == x;
        if i < a.len() {
            assert(a[i] == x);
        } else {
            assert(b[i - a.len()] == x);
        }
    }
}

/// What the beginning of a sequence holds, one element further.
pub proof fn lemma_take_contains<A>(s: Seq<A>, i: int)
    requires
        0 <= i < s.len(),
    ensures
        s.take(i + 1) == s.take(i).push(s[i]),
        forall|y: A| #[trigger] s.take(i + 1).contains(y) <==> s.take(i).contains(y) || y == s[i],
        s.no_duplicates() ==> !s.take(i).contains(s[i]),
{
    assert(s.take(i + 1) =~= s.take(i).push(s[i]));
    lemma_push_contains(s.take(i), s[i]);
    if s.no_duplicates() && s.take(i).contains(s[i]) {
        let k = choose|k: int| 0 <= k < i && s.take(i)[k] == s[i];
        assert(s[k] == s[i]);
    }
}

/// Nothing occurs twice in an increasing sequence.
pub proof fn lemma_increasing_distinct(s: Seq<Seq<char>>)
    requires
        lex_increasing(s),
    ensures
        s.no_duplicates(),
{
    assert forall|i: int, j: int| 0 <= i < j < s.len() implies s[i] != s[j] by {
        assert(lex_lt(s[i], s[j]));
        lemma_lex_irreflexive(s[i]);
    }
}

/// Only one increasing sequence holds given texts.
pub proof fn lemma_increasing_unique(a: Seq<Seq<char>>, b: Seq<Seq<char>>)
    requires
        lex_increasing(a),
        lex_increasing(b),
        forall|x: Seq<char>| a.contains(x) <==> b.contains(x),
    ensures
        a == b,
    decreases a.len(),
{
    if a.len() == 0 {
        if b.len() > 0 {
            assert(b.contains(b[0]));
        }
    } else {
        let x = a.last();
        assert(a.contains(x)) by {
            assert(a[a.len() - 1] == x);
        }
        let i = choose|i: int| 0 <= i < b.len() && b[i] == x;
        let y = b.last();
        assert(b.contains(y)) by {
            assert(b[b.len() - 1] == y);
        }
        let j = choose|j: int| 0 <= j < a.len() && a[j] == y;
        if i < b.len() - 1 {
            assert(lex_lt(b[i], b[b.len() - 1]));
            if j < a.len() - 1 {
                assert(lex_lt(a[j], a[a.len() - 1]));
                lemma_lex_transitive(x, y, x);
            }
            lemma_lex_irreflexive(x);
        }
        assert(x == y);
        assert forall|z: Seq<char>| a.drop_last().contains(z) <==> b.drop_last().contains(z) by {
            lemma_without_last(a, z);
            lemma_without_last(b, z);
        }
        lemma_increasing_unique(a.drop_last(), b.drop_last());
        assert(a =~= a.drop_last().push(x));
        assert(b =~= b.drop_last().push(y));
    }
}

/// What an increasing sequence holds before its last text.
proof fn lemma_without_last(s: Seq<Seq<char>>, z: Seq<char>)
    requires
        lex_increasing(s),
        s.len() > 0,
    ensures
        s.drop_last().contains(z) <==> s.contains(z) && z != s.last(),
{
    let rest = s.drop_last();
    if rest.contains(z) {
        let i = choose|i: int| 0 <= i < rest.len() && rest[i] == z;
        assert(s[i] == z);
        assert(lex_lt(s[i], s[s.len() - 1]));
        lemma_lex_irreflexive(z);
    }
    if s.contains(z) && z != s.last() {
        let i = choose|i: int| 0 <= i < s.len() && s[i] == z;
        assert(rest[i] == z);
    }
}

/// Sorted and free of repetitions is strictly increasing.
pub proof fn lemma_sorted_distinct(s: Seq<Seq<char>>)
    requires
        lex_sorted(s),
        s.no_duplicates(),
    ensures
        lex_increasing(s),
{
}

/// `n` blanks.
pub open spec fn blanks(n: int) -> Seq<char> {
    Seq::new(if n > 0 {
        n as nat
    } else {
        0
    }, |i: int| ' ')
}

/// `s` with blanks behind it up to `n` characters.
pub open spec fn left_aligned(s: Seq<char>, n: int) -> Seq<char> {
    s + blanks(n - s.len())
}

/// `s` with blanks before it up to `n` characters.
pub open spec fn right_aligned(s: Seq<char>, n: int) -> Seq<char> {
    blanks(n - s.len()) + s
}

pub(crate) fn push_blanks(out: &mut String, n: usize)
    ensures
        final(out)@ == old(out)@ + blanks(n as int),
{
    let ghost s = out@;
    let mut i: usize = 0;
    assert(out@ =~= s + blanks(0));
    while i < n
        invariant
            i <= n,
            out@ == s + blanks(i as int),
        decreases n - i,
    {
        out.push(' ');
        assert(out@ =~= s + blanks(i + 1));
        i += 1;
    }
}

/// The blanks that `s` lacks to `n` characters.
fn lacking(s: &str, n: usize) -> (r: usize)
    ensures
        blanks(r as int) == blanks(n - s@.len()),
{
    let len: usize = s.unicode_len();
    if len < n {
        n - len
    } else {
        assert(blanks(0) =~= blanks(n - s@.len()));
        0
    }
}

/// Appends `s`, and blanks up to `n` characters.
pub(crate) fn push_left(out: &mut String, s: &str, n: usize)
    ensures
        final(out)@ == old(out)@ + left_aligned(s@, n as int),
{
    let ghost o = out@;
    out.push_str(s);
    push_blanks(out, lacking(s, n));
    assert(out@ =~= o + left_aligned(s@, n as int));
}

/// Appends blanks up to `n` characters, and `s`.
pub(crate) fn push_right(out: &mut String, s: &str, n: usize)
    ensures
        final(out)@ == old(out)@ + right_aligned(s@, n as int),
{
    let ghost o = out@;
    push_blanks(out, lacking(s, n));
    out.push_str(s);
    assert(out@ =~= o + right_aligned(s@, n as int));
}

/// Appends a number.
pub(crate) fn push_number(out: &mut String, n: u64)
    ensures
        final(out)@ == old(out)@ + decimal(n as nat),
{
    out.push_str(decimal_text(n).as_str());
}

/// Appends a number of bytes.
pub(crate) fn push_size(out: &mut String, n: u64)
    ensures
        final(out)@ == old(out)@ + byte_size(n),
{
    out.push_str(size_text(n).as_str());
}

/// The number that digits stand for.
pub open spec fn number(s: Seq<char>) -> nat
    decreases s.len(),
{
    if s.len() == 0 {
        0
    } else {
        (number(s.drop_last()) * 10 + (s.last() as u32 - '0' as u32)) as nat
    }
}

/// A number in decimal reads as that number, so different numbers are written differently.
pub proof fn lemma_decimal(n: nat, m: nat)
    ensures
        number(decimal(n)) == n,
        n != m ==> decimal(n) != decimal(m),
{
    lemma_decimal_reads(n);
    lemma_decimal_reads(m);
}

proof fn lemma_decimal_reads(n: nat)
    ensures
        number(decimal(n)) == n,
    decreases n,
{
    reveal_with_fuel(number, 2);
    if n < 10 {
        assert(decimal(n).drop_last() =~= Seq::<char>::empty());
        assert(digit(n) as u32 == '0' as u32 + n);
    } else {
        lemma_decimal_reads(n / 10);
        assert(decimal(n).drop_last() =~= decimal(n / 10));
        assert(digit(n % 10) as u32 == '0' as u32 + n % 10);
    }
}

} // verus!
