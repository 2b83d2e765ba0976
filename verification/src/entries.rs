//! The list of sessions: its rows, the orders in which they can be shown, and the
//! filters that choose among them.

use std::cmp::Ordering;

use crate::headers::opt_text;
use crate::lineage::Attach;
use crate::text::{
    contains_text, lemma_lex_irreflexive, lemma_lex_total, lemma_lex_transitive, lex_lt, occurs,
    same, sorts_before, starts_with, to_lower, unicode_lower,
};
use vstd::prelude::*;

verus! {

broadcast use vstd::string::group_string_axioms;

/// A row of the list: a session, or the rows in the store of one that has no header.
pub struct Entry {
    pub composer_id: String,
    pub name: Option<String>,
    pub recency: i64,
    pub is_archived: bool,
    /// Where the session stands; nothing for rows without a header.
    pub attach: Option<Attach>,
    pub rows: u64,
    /// Known once the sizes have been read.
    pub bytes: Option<u64>,
    /// How many subagents stand below it.
    pub descendants: usize,
    pub workspace_id: Option<String>,
    /// The short name of its workspace.
    pub ws_label: Option<String>,
}

impl Entry {
    /// Whether a session stands behind the row.
    pub fn has_header(&self) -> (r: bool)
        ensures
            r == self.attach is Some,
    {
        self.attach.is_some()
    }

    /// Whether the row stands in the list; attached subagents stand in the tree of their session.
    pub fn in_chat_list(&self) -> (r: bool)
        ensures
            r == (self.attach != Some(Attach::Attached)),
    {
        !matches!(self.attach, Some(Attach::Attached))
    }

    /// Whether it is a subagent whose parent is gone.
    pub fn is_dangling(&self) -> (r: bool)
        ensures
            r == (self.attach == Some(Attach::Dangling)),
    {
        matches!(self.attach, Some(Attach::Dangling))
    }
}

/// What the list is sorted by.
#[derive(Debug, Clone, Copy, PartialEq, Eq, Structural)]
pub enum SortKey {
    Bytes,
    Rows,
    Recency,
    Name,
    Workspace,
}

/// The key after this one.
pub open spec fn next_key(k: SortKey) -> SortKey {
    match k {
        SortKey::Bytes => SortKey::Rows,
        SortKey::Rows => SortKey::Recency,
        SortKey::Recency => SortKey::Name,
        SortKey::Name => SortKey::Workspace,
        SortKey::Workspace => SortKey::Bytes,
    }
}

/// The name of a key on the screen.
pub open spec fn key_label(k: SortKey) -> Seq<char> {
    match k {
        SortKey::Bytes => "体积"@,
        SortKey::Rows => "行数"@,
        SortKey::Recency => "时间"@,
        SortKey::Name => "名称"@,
        SortKey::Workspace => "工作区"@,
    }
}

impl SortKey {
    pub fn next(self) -> (r: Self)
        ensures
            r == next_key(self),
    {
        match self {
            SortKey::Bytes => SortKey::Rows,
            SortKey::Rows => SortKey::Recency,
            SortKey::Recency => SortKey::Name,
            SortKey::Name => SortKey::Workspace,
            SortKey::Workspace => SortKey::Bytes,
        }
    }

    pub fn label(self) -> (r: &'static str)
        ensures
            r@ == key_label(self),
    {
        match self {
            SortKey::Bytes => "体积",
            SortKey::Rows => "行数",
            SortKey::Recency => "时间",
            SortKey::Name => "名称",
            SortKey::Workspace => "工作区",
        }
    }
}

/// Which rows are looked at.
#[derive(Debug, Clone, Copy, PartialEq, Eq, Structural)]
pub enum Lens {
    All,
    Orphans,
    Archived,
}

/// The choice after this one.
pub open spec fn next_lens(v: Lens) -> Lens {
    match v {
        Lens::All => Lens::Orphans,
        Lens::Orphans => Lens::Archived,
        Lens::Archived => Lens::All,
    }
}

/// The name of a choice on the screen.
pub open spec fn lens_label(v: Lens) -> Seq<char> {
    match v {
        Lens::All => "全部"@,
        Lens::Orphans => "孤儿"@,
        Lens::Archived => "归档"@,
    }
}

impl Lens {
    pub fn next(self) -> (r: Self)
        ensures
            r == next_lens(self),
    {
        match self {
            Lens::All => Lens::Orphans,
            Lens::Orphans => Lens::Archived,
            Lens::Archived => Lens::All,
        }
    }

    pub fn label(self) -> (r: &'static str)
        ensures
            r@ == lens_label(self),
    {
        match self {
            Lens::All => "全部",
            Lens::Orphans => "孤儿",
            Lens::Archived => "归档",
        }
    }
}

/// Each key comes round again, and no sooner than all have been seen; so does each choice
/// of rows.
pub proof fn lemma_cycles(k: SortKey, v: Lens)
    ensures
        next_key(next_key(next_key(next_key(next_key(k))))) == k,
        next_key(k) != k,
        next_key(next_key(k)) != k,
        next_key(next_key(next_key(k))) != k,
        next_key(next_key(next_key(next_key(k)))) != k,
        next_lens(next_lens(next_lens(v))) == v,
        next_lens(v) != v,
        next_lens(next_lens(v)) != v,
{
}

/// The value, or nought where there is none.
pub open spec fn or_zero(o: Option<u64>) -> u64 {
    match o {
        Some(n) => n,
        None => 0,
    }
}

/// The value, or nought where there is none.
pub(crate) fn value_or_zero(o: Option<u64>) -> (r: u64)
    ensures
        r == or_zero(o),
{
    match o {
        Some(n) => n,
        None => 0,
    }
}

/// The text, or the last of all characters, so that what has no name comes last.
pub open spec fn or_last(o: Option<String>) -> Seq<char> {
    match o {
        Some(s) => s@,
        None => "\u{10FFFF}"@,
    }
}

fn text_or_last(o: &Option<String>) -> (r: &str)
    ensures
        r@ == or_last(*o),
{
    match o {
        Some(s) => s.as_str(),
        None => "\u{10FFFF}",
    }
}

/// The order of optional texts: none comes before any.
pub open spec fn opt_lt(a: Option<Seq<char>>, b: Option<Seq<char>>) -> bool {
    match (a, b) {
        (None, Some(_)) => true,
        (Some(x), Some(y)) => lex_lt(x, y),
        _ => false,
    }
}

/// `a` stands before `b` in the order of a key.
pub open spec fn first_by(key: SortKey, a: Entry, b: Entry) -> bool {
    match key {
        SortKey::Bytes => or_zero(a.bytes) > or_zero(b.bytes) || (or_zero(a.bytes) == or_zero(
            b.bytes,
        ) && a.rows > b.rows),
        SortKey::Rows => a.rows > b.rows,
        SortKey::Recency => a.recency > b.recency,
        SortKey::Name => lex_lt(or_last(a.name), or_last(b.name)),
        SortKey::Workspace => {
            let la = or_last(a.ws_label);
            let lb = or_last(b.ws_label);
            let wa = opt_text(a.workspace_id);
            let wb = opt_text(b.workspace_id);
            lex_lt(la, lb) || (la == lb && (opt_lt(wa, wb) || (wa == wb && a.recency
                > b.recency)))
        },
    }
}

/// `a` stands before `b` on the screen.
pub open spec fn first(key: SortKey, reverse: bool, a: Entry, b: Entry) -> bool {
    if reverse {
        first_by(key, b, a)
    } else {
        first_by(key, a, b)
    }
}

fn opt_before(a: &Option<String>, b: &Option<String>) -> (r: bool)
    ensures
        r == opt_lt(opt_text(*a), opt_text(*b)),
{
    match (a, b) {
        (None, Some(_)) => true,
        (Some(x), Some(y)) => sorts_before(x.as_str(), y.as_str()),
        _ => false,
    }
}

fn stands_first(key: SortKey, a: &Entry, b: &Entry) -> (r: bool)
    ensures
        r == first_by(key, *a, *b),
{
    match key {
        SortKey::Bytes => {
            let x: u64 = value_or_zero(a.bytes);
            let y: u64 = value_or_zero(b.bytes);
            x > y || (x == y && a.rows > b.rows)
        },
        SortKey::Rows => a.rows > b.rows,
        SortKey::Recency => a.recency > b.recency,
        SortKey::Name => sorts_before(text_or_last(&a.name), text_or_last(&b.name)),
        SortKey::Workspace => {
            let la = text_or_last(&a.ws_label);
            let lb = text_or_last(&b.ws_label);
            proof {
                let wa = opt_text(a.workspace_id);
                let wb = opt_text(b.workspace_id);
                if wa is Some && wb is Some {
                    lemma_lex_total(wa->0, wb->0);
                    lemma_lex_irreflexive(wa->0);
                }
            }
            sorts_before(la, lb) || (same(la, lb) && (opt_before(&a.workspace_id, &b.workspace_id)
                || (!opt_before(&b.workspace_id, &a.workspace_id) && a.recency > b.recency)))
        },
    }
}

/// How two rows stand to each other on the screen.
pub fn compare(key: SortKey, reverse: bool, a: &Entry, b: &Entry) -> (r: Ordering)
    ensures
        r == Ordering::Less <==> first(key, reverse, *a, *b),
        r == Ordering::Greater <==> first(key, reverse, *b, *a),
{
    proof {
        lemma_first(key, reverse, *a, *b, *a);
        lemma_first(key, reverse, *a, *a, *a);
    }
    let ab = if reverse {
        stands_first(key, b, a)
    } else {
        stands_first(key, a, b)
    };
    let ba = if reverse {
        stands_first(key, a, b)
    } else {
        stands_first(key, b, a)
    };
    if ab {
        Ordering::Less
    } else if ba {
        Ordering::Greater
    } else {
        Ordering::Equal
    }
}

proof fn lemma_opt_lt(a: Option<Seq<char>>, b: Option<Seq<char>>, c: Option<Seq<char>>)
    ensures
        !opt_lt(a, a),
        opt_lt(a, b) || opt_lt(b, a) || a == b,
        opt_lt(a, b) && opt_lt(b, c) ==> opt_lt(a, c),
{
    if a is Some {
        lemma_lex_irreflexive(a->0);
        if b is Some {
            lemma_lex_total(a->0, b->0);
            if c is Some && opt_lt(a, b) && opt_lt(b, c) {
                lemma_lex_transitive(a->0, b->0, c->0);
            }
        }
    }
}

proof fn lemma_lex_order(a: Seq<char>, b: Seq<char>, c: Seq<char>)
    ensures
        !lex_lt(a, a),
        lex_lt(a, b) || lex_lt(b, a) || a == b,
        lex_lt(a, b) && lex_lt(b, c) ==> lex_lt(a, c),
{
    lemma_opt_lt(Some(a), Some(b), Some(c));
}

proof fn lemma_first_by(key: SortKey, a: Entry, b: Entry, c: Entry)
    ensures
        !(first_by(key, a, b) && first_by(key, b, a)),
        !first_by(key, b, a) && !first_by(key, c, b) ==> !first_by(key, c, a),
{
    let (na, nb, nc) = (or_last(a.name), or_last(b.name), or_last(c.name));
    lemma_lex_order(na, nb, na);
    lemma_lex_order(na, nc, nb);
    lemma_lex_order(nb, nc, na);
    lemma_lex_order(nc, na, nb);
    lemma_lex_order(nc, nb, na);
    lemma_lex_order(nb, na, nc);
    let (la, lb, lc) = (or_last(a.ws_label), or_last(b.ws_label), or_last(c.ws_label));
    lemma_lex_order(la, lb, la);
    lemma_lex_order(la, lc, lb);
    lemma_lex_order(lb, lc, la);
    lemma_lex_order(lc, la, lb);
    lemma_lex_order(lc, lb, la);
    lemma_lex_order(lb, la, lc);
    let (wa, wb, wc) = (
        opt_text(a.workspace_id),
        opt_text(b.workspace_id),
        opt_text(c.workspace_id),
    );
    lemma_opt_lt(wa, wb, wa);
    lemma_opt_lt(wa, wc, wb);
    lemma_opt_lt(wb, wc, wa);
    lemma_opt_lt(wc, wa, wb);
    lemma_opt_lt(wc, wb, wa);
    lemma_opt_lt(wb, wa, wc);
}

/// The orders of the list are orders: of two rows at most one stands before the other, and
/// a row that does not follow a second, which does not follow a third, does not follow it.
pub proof fn lemma_first(key: SortKey, reverse: bool, a: Entry, b: Entry, c: Entry)
    ensures
        !(first(key, reverse, a, b) && first(key, reverse, b, a)),
        !first(key, reverse, b, a) && !first(key, reverse, c, b) ==> !first(key, reverse, c, a),
{
    lemma_first_by(key, a, b, c);
    lemma_first_by(key, c, b, a);
}

/// A sorted list with one row more: behind all that it does not stand before.
pub open spec fn placed(key: SortKey, reverse: bool, s: Seq<Entry>, x: Entry) -> Seq<Entry>
    decreases s.len(),
{
    if s.len() == 0 || !first(key, reverse, x, s.last()) {
        s.push(x)
    } else {
        placed(key, reverse, s.drop_last(), x).push(s.last())
    }
}

/// The rows in order; of two that stand alike, the earlier stays before the later.
pub open spec fn in_order(key: SortKey, reverse: bool, s: Seq<Entry>) -> Seq<Entry>
    decreases s.len(),
{
    if s.len() == 0 {
        Seq::empty()
    } else {
        placed(key, reverse, in_order(key, reverse, s.drop_last()), s.last())
    }
}

/// No row stands behind one that it should stand before.
pub open spec fn is_sorted(key: SortKey, reverse: bool, s: Seq<Entry>) -> bool {
    forall|i: int, j: int|
        0 <= i < j < s.len() ==> !first(key, reverse, #[trigger] s[j], #[trigger] s[i])
}

proof fn lemma_placed(key: SortKey, reverse: bool, s: Seq<Entry>, x: Entry)
    requires
        is_sorted(key, reverse, s),
    ensures
        is_sorted(key, reverse, placed(key, reverse, s, x)),
        placed(key, reverse, s, x).to_multiset() == s.to_multiset().insert(x),
        placed(key, reverse, s, x).len() == s.len() + 1,
        forall|y: Entry|
            #![trigger first(key, reverse, y, x)]
            !first(key, reverse, y, x) && (s.len() > 0 ==> !first(key, reverse, y, s.last()))
                ==> forall|i: int|
                0 <= i < s.len() + 1 ==> !first(
                    key,
                    reverse,
                    y,
                    #[trigger] placed(key, reverse, s, x)[i],
                ),
    decreases s.len(),
{
    s.to_multiset_ensures();
    let r = placed(key, reverse, s, x);
    if s.len() == 0 || !first(key, reverse, x, s.last()) {
        assert forall|i: int, j: int| 0 <= i < j < r.len() implies !first(
            key,
            reverse,
            #[trigger] r[j],
            #[trigger] r[i],
        ) by {
            if j == s.len() {
                if i < s.len() - 1 {
                    assert(!first(key, reverse, s[s.len() - 1], s[i]));
                }
                lemma_first(key, reverse, r[i], s.last(), x);
            }
        }
        assert forall|y: Entry|
            #![trigger first(key, reverse, y, x)]
            !first(key, reverse, y, x) && (s.len() > 0 ==> !first(
                key,
                reverse,
                y,
                s.last(),
            )) implies forall|i: int|
            0 <= i < s.len() + 1 ==> !first(key, reverse, y, #[trigger] r[i]) by {
            assert forall|i: int| 0 <= i < s.len() + 1 implies !first(
                key,
                reverse,
                y,
                #[trigger] r[i],
            ) by {
                if i < s.len() - 1 {
                    assert(!first(key, reverse, s[s.len() - 1], s[i]));
                    lemma_first(key, reverse, s[i], s.last(), y);
                }
            }
        }
    } else {
        let rest = s.drop_last();
        assert(is_sorted(key, reverse, rest)) by {
            assert forall|i: int, j: int| 0 <= i < j < rest.len() implies !first(
                key,
                reverse,
                #[trigger] rest[j],
                #[trigger] rest[i],
            ) by {
                assert(!first(key, reverse, s[j], s[i]));
            }
        }
        lemma_placed(key, reverse, rest, x);
        let t = placed(key, reverse, rest, x);
        assert(s =~= rest.push(s.last()));
        rest.to_multiset_ensures();
        t.to_multiset_ensures();
        assert(r.to_multiset() =~= s.to_multiset().insert(x));
        lemma_first(key, reverse, x, s.last(), x);
        assert(!first(key, reverse, s.last(), x));
        if rest.len() > 0 {
            assert(!first(key, reverse, s[s.len() - 1], s[s.len() - 2]));
        }
        assert forall|i: int, j: int| 0 <= i < j < r.len() implies !first(
            key,
            reverse,
            #[trigger] r[j],
            #[trigger] r[i],
        ) by {
            if j < t.len() {
                assert(!first(key, reverse, t[j], t[i]));
            } else {
                assert(r[i] == t[i]);
            }
        }
        assert forall|y: Entry|
            #![trigger first(key, reverse, y, x)]
            !first(key, reverse, y, x) && (s.len() > 0 ==> !first(
                key,
                reverse,
                y,
                s.last(),
            )) implies forall|i: int|
            0 <= i < s.len() + 1 ==> !first(key, reverse, y, #[trigger] r[i]) by {
            if rest.len() > 0 {
                lemma_first(key, reverse, rest.last(), s.last(), y);
            }
            assert forall|i: int| 0 <= i < s.len() + 1 implies !first(
                key,
                reverse,
                y,
                #[trigger] r[i],
            ) by {
                if i < t.len() {
                    assert(r[i] == t[i]);
                }
            }
        }
    }
}

/// Sorting keeps every row, adds none, and leaves none behind one that it should stand
/// before.
pub proof fn lemma_in_order(key: SortKey, reverse: bool, s: Seq<Entry>)
    ensures
        in_order(key, reverse, s).to_multiset() == s.to_multiset(),
        in_order(key, reverse, s).len() == s.len(),
        is_sorted(key, reverse, in_order(key, reverse, s)),
    decreases s.len(),
{
    if s.len() > 0 {
        let rest = s.drop_last();
        lemma_in_order(key, reverse, rest);
        lemma_placed(key, reverse, in_order(key, reverse, rest), s.last());
        assert(s =~= rest.push(s.last()));
        rest.to_multiset_ensures();
    } else {
        assert(s =~= Seq::<Entry>::empty());
    }
}

/// Sorting a sorted list changes nothing.
pub proof fn lemma_sorting_again(key: SortKey, reverse: bool, s: Seq<Entry>)
    requires
        is_sorted(key, reverse, s),
    ensures
        in_order(key, reverse, s) == s,
    decreases s.len(),
{
    if s.len() > 0 {
        let rest = s.drop_last();
        assert forall|i: int, j: int| 0 <= i < j < rest.len() implies !first(
            key,
            reverse,
            #[trigger] rest[j],
            #[trigger] rest[i],
        ) by {
            assert(!first(key, reverse, s[j], s[i]));
        }
        lemma_sorting_again(key, reverse, rest);
        if rest.len() > 0 {
            assert(!first(key, reverse, s[s.len() - 1], s[s.len() - 2]));
        }
        assert(s =~= rest.push(s.last()));
    } else {
        assert(s =~= Seq::<Entry>::empty());
    }
}

/// `slice::sort_by` with [`compare`]: the stable order [`in_order`].
#[verifier::external_body]
pub(crate) fn sort_entries(v: &mut Vec<Entry>, key: SortKey, reverse: bool)
    ensures
        final(v)@ == in_order(key, reverse, old(v)@),
{
    v.sort_by(|a, b| compare(key, reverse, a, b))
}

/// The text filter finds the row by the start of its id, by its name or by its workspace.
pub open spec fn found_by(e: Entry, query: Seq<char>) -> bool {
    ||| query.len() == 0
    ||| query.is_prefix_of(e.composer_id@)
    ||| (e.name is Some && occurs(query, unicode_lower(e.name->0@)))
    ||| (e.ws_label is Some && occurs(query, unicode_lower(e.ws_label->0@)))
}

/// The row passes the choice of rows.
pub open spec fn seen_through(e: Entry, view: Lens) -> bool {
    match view {
        Lens::All => true,
        Lens::Orphans => e.attach is None || e.attach == Some(Attach::Dangling),
        Lens::Archived => e.is_archived,
    }
}

/// The row belongs to the chosen workspace; the empty name chooses what belongs to none.
pub open spec fn of_workspace(e: Entry, ws: Option<Seq<char>>) -> bool {
    match ws {
        None => true,
        Some(w) => if w.len() == 0 {
            e.workspace_id is None
        } else {
            opt_text(e.workspace_id) == Some(w)
        },
    }
}

/// The row is shown in the list.
pub open spec fn shows(e: Entry, view: Lens, ws: Option<Seq<char>>, query: Seq<char>) -> bool {
    &&& e.attach != Some(Attach::Attached)
    &&& seen_through(e, view)
    &&& of_workspace(e, ws)
    &&& found_by(e, query)
}

/// The places of the rows that are shown, in increasing order.
pub open spec fn shown(
    s: Seq<Entry>,
    view: Lens,
    ws: Option<Seq<char>>,
    query: Seq<char>,
) -> Seq<int>
    decreases s.len(),
{
    if s.len() == 0 {
        Seq::empty()
    } else {
        let rest = shown(s.drop_last(), view, ws, query);
        if shows(s.last(), view, ws, query) {
            rest.push(s.len() - 1)
        } else {
            rest
        }
    }
}

/// The places shown are exactly those of the rows that pass every filter, each once and in
/// the order of the list.
pub proof fn lemma_shown(s: Seq<Entry>, view: Lens, ws: Option<Seq<char>>, query: Seq<char>)
    ensures
        forall|i: int| #[trigger]
            shown(s, view, ws, query).contains(i) <==> 0 <= i < s.len() && shows(
                s[i],
                view,
                ws,
                query,
            ),
        forall|a: int, b: int|
            0 <= a < b < shown(s, view, ws, query).len() ==> #[trigger] shown(s, view, ws, query)[a]
                < #[trigger] shown(s, view, ws, query)[b],
    decreases s.len(),
{
    let t = shown(s, view, ws, query);
    if s.len() > 0 {
        let d = s.drop_last();
        let rest = shown(d, view, ws, query);
        lemma_shown(d, view, ws, query);
        if shows(s.last(), view, ws, query) {
            crate::text::lemma_push_contains(rest, s.len() - 1);
        }
        assert forall|i: int| #[trigger] t.contains(i) <==> 0 <= i < s.len() && shows(
            s[i],
            view,
            ws,
            query,
        ) by {
            assert(rest.contains(i) <==> 0 <= i < d.len() && shows(d[i], view, ws, query));
        }
        assert forall|a: int, b: int| 0 <= a < b < t.len() implies #[trigger] t[a]
            < #[trigger] t[b] by {
            if b == rest.len() {
                assert(rest.contains(rest[a]));
            }
        }
    }
}

/// Whether a row is shown, for a text filter in lower case.
fn passes(e: &Entry, view: Lens, ws: &Option<String>, query: &str) -> (r: bool)
    ensures
        r == shows(*e, view, opt_text(*ws), query@),
{
    if !e.in_chat_list() {
        return false;
    }
    let seen = match view {
        Lens::All => true,
        Lens::Orphans => !e.has_header() || e.is_dangling(),
        Lens::Archived => e.is_archived,
    };
    if !seen {
        return false;
    }
    let here = match ws {
        None => true,
        Some(w) => if w.as_str().is_empty() {
            e.workspace_id.is_none()
        } else {
            match &e.workspace_id {
                Some(id) => same(id.as_str(), w.as_str()),
                None => false,
            }
        },
    };
    if !here {
        return false;
    }
    if query.is_empty() || starts_with(e.composer_id.as_str(), query) {
        return true;
    }
    if let Some(n) = &e.name {
        if contains_text(to_lower(n.as_str()).as_str(), query) {
            return true;
        }
    }
    match &e.ws_label {
        Some(l) => contains_text(to_lower(l.as_str()).as_str(), query),
        None => false,
    }
}

/// The places in `v`, as mathematical integers.
pub open spec fn places(v: Seq<usize>) -> Seq<int> {
    v.map_values(|i: usize| i as int)
}

/// The places of the rows that are shown.
pub fn visible_entries(entries: &[Entry], view: Lens, ws: &Option<String>, filter: &str) -> (r: Vec<
    usize,
>)
    ensures
        places(r@) == shown(entries@, view, opt_text(*ws), unicode_lower(filter@)),
{
    let query = to_lower(filter);
    let mut out: Vec<usize> = Vec::new();
    let mut i: usize = 0;
    assert(places(out@) =~= shown(entries@.take(0), view, opt_text(*ws), query@));
    while i < entries.len()
        invariant
            i <= entries@.len(),
            places(out@) == shown(entries@.take(i as int), view, opt_text(*ws), query@),
        decreases entries@.len() - i,
    {
        let ghost before = out@;
        if passes(&entries[i], view, ws, query.as_str()) {
            out.push(i);
        }
        proof {
            let t = entries@.take(i + 1);
            assert(t.drop_last() =~= entries@.take(i as int));
            if out@.len() > before.len() {
                assert(places(out@) =~= places(before).push(i as int));
            }
        }
        i += 1;
    }
    assert(entries@.take(i as int) =~= entries@);
    out
}

/// The first place in the list at which the row with this id is shown, or the length.
pub open spec fn row_of(s: Seq<Entry>, visible: Seq<int>, id: Seq<char>) -> int
    decreases visible.len(),
{
    if visible.len() == 0 {
        0
    } else if s[visible[0]].composer_id@ == id {
        0
    } else {
        1 + row_of(s, visible.drop_first(), id)
    }
}

/// Where the cursor stands once the list is built anew: on the row that it stood on, or on
/// the first where that is no longer shown.
pub open spec fn kept_cursor(s: Seq<Entry>, visible: Seq<int>, keep: Option<Seq<char>>) -> int {
    match keep {
        Some(id) => if row_of(s, visible, id) < visible.len() {
            row_of(s, visible, id)
        } else {
            0
        },
        None => 0,
    }
}

proof fn lemma_row_of(s: Seq<Entry>, visible: Seq<int>, id: Seq<char>, k: int)
    requires
        0 <= k <= visible.len(),
        forall|j: int| 0 <= j < k ==> s[#[trigger] visible[j]].composer_id@ != id,
        k < visible.len() ==> s[visible[k]].composer_id@ == id,
    ensures
        row_of(s, visible, id) == k,
    decreases visible.len(),
{
    if visible.len() > 0 && k > 0 {
        assert(s[visible[0]].composer_id@ != id);
        let rest = visible.drop_first();
        assert forall|j: int| 0 <= j < k - 1 implies s[#[trigger] rest[j]].composer_id@ != id by {
            assert(s[visible[j + 1]].composer_id@ != id);
        }
        lemma_row_of(s, rest, id, k - 1);
    }
}

/// Where the cursor stands in a list that was built anew.
pub fn keep_cursor(entries: &[Entry], visible: &[usize], keep: &Option<String>) -> (r: usize)
    requires
        forall|j: int| 0 <= j < visible@.len() ==> #[trigger] visible@[j] < entries@.len(),
    ensures
        r == kept_cursor(entries@, places(visible@), opt_text(*keep)),
        r < visible@.len() || r == 0,
{
    match keep {
        None => 0,
        Some(id) => {
            let mut k: usize = 0;
            while k < visible.len()
                invariant
                    k <= visible@.len(),
                    *keep == Some(*id),
                    forall|j: int| 0 <= j < visible@.len() ==> #[trigger] visible@[j] < entries@.len(),
                    forall|j: int|
                        0 <= j < k ==> entries@[#[trigger] places(visible@)[j]].composer_id@ != id@,
                decreases visible@.len() - k,
            {
                assert(visible@[k as int] < entries@.len());
                if same(entries[visible[k]].composer_id.as_str(), id.as_str()) {
                    proof {
                        lemma_row_of(entries@, places(visible@), id@, k as int);
                    }
                    return k;
                }
                k += 1;
            }
            proof {
                lemma_row_of(entries@, places(visible@), id@, k as int);
            }
            0
        },
    }
}

/// What an entry weighs; what was not read counts as nothing.
pub open spec fn heft(e: Entry) -> int {
    match e.bytes {
        Some(n) => n as int,
        None => 0,
    }
}

/// Sorted by size the list falls from the largest entry to the smallest, and entries of the
/// same size from the most rows to the fewest; reversed, it rises.
pub proof fn lemma_sorted_by_size(s: Seq<Entry>, i: int, j: int)
    requires
        0 <= i < j < s.len(),
    ensures
        ({
            let t = in_order(SortKey::Bytes, false, s);
            heft(t[i]) > heft(t[j]) || (heft(t[i]) == heft(t[j]) && t[i].rows >= t[j].rows)
        }),
        ({
            let t = in_order(SortKey::Bytes, true, s);
            heft(t[i]) < heft(t[j]) || (heft(t[i]) == heft(t[j]) && t[i].rows <= t[j].rows)
        }),
{
    lemma_in_order(SortKey::Bytes, false, s);
    lemma_in_order(SortKey::Bytes, true, s);
    let t = in_order(SortKey::Bytes, false, s);
    let u = in_order(SortKey::Bytes, true, s);
    assert(!first(SortKey::Bytes, false, t[j], t[i]));
    assert(!first(SortKey::Bytes, true, u[j], u[i]));
}

/// Sorted by rows the list falls from the most rows to the fewest; reversed, it rises.
pub proof fn lemma_sorted_by_rows(s: Seq<Entry>, i: int, j: int)
    requires
        0 <= i < j < s.len(),
    ensures
        in_order(SortKey::Rows, false, s)[i].rows >= in_order(SortKey::Rows, false, s)[j].rows,
        in_order(SortKey::Rows, true, s)[i].rows <= in_order(SortKey::Rows, true, s)[j].rows,
{
    lemma_in_order(SortKey::Rows, false, s);
    lemma_in_order(SortKey::Rows, true, s);
    let t = in_order(SortKey::Rows, false, s);
    let u = in_order(SortKey::Rows, true, s);
    assert(!first(SortKey::Rows, false, t[j], t[i]));
    assert(!first(SortKey::Rows, true, u[j], u[i]));
}

/// Sorted by time the list falls from the most recent to the oldest; reversed, it rises.
pub proof fn lemma_sorted_by_time(s: Seq<Entry>, i: int, j: int)
    requires
        0 <= i < j < s.len(),
    ensures
        in_order(SortKey::Recency, false, s)[i].recency >= in_order(
            SortKey::Recency,
            false,
            s,
        )[j].recency,
        in_order(SortKey::Recency, true, s)[i].recency <= in_order(
            SortKey::Recency,
            true,
            s,
        )[j].recency,
{
    lemma_in_order(SortKey::Recency, false, s);
    lemma_in_order(SortKey::Recency, true, s);
    let t = in_order(SortKey::Recency, false, s);
    let u = in_order(SortKey::Recency, true, s);
    assert(!first(SortKey::Recency, false, t[j], t[i]));
    assert(!first(SortKey::Recency, true, u[j], u[i]));
}

/// Of two texts that may be missing the first does not come behind the second; a missing one
/// stands where the last of all characters does.
pub open spec fn not_behind(a: Option<String>, b: Option<String>) -> bool {
    match (a, b) {
        (Some(x), Some(y)) => !lex_lt(y@, x@),
        (Some(x), None) => !lex_lt("\u{10FFFF}"@, x@),
        (None, Some(y)) => !lex_lt(y@, "\u{10FFFF}"@),
        (None, None) => true,
    }
}

/// Sorted by name the names rise; reversed, they fall.
pub proof fn lemma_sorted_by_name(s: Seq<Entry>, i: int, j: int)
    requires
        0 <= i < j < s.len(),
    ensures
        not_behind(
            in_order(SortKey::Name, false, s)[i].name,
            in_order(SortKey::Name, false, s)[j].name,
        ),
        not_behind(
            in_order(SortKey::Name, true, s)[j].name,
            in_order(SortKey::Name, true, s)[i].name,
        ),
{
    lemma_in_order(SortKey::Name, false, s);
    lemma_in_order(SortKey::Name, true, s);
    let t = in_order(SortKey::Name, false, s);
    let u = in_order(SortKey::Name, true, s);
    assert(!first(SortKey::Name, false, t[j], t[i]));
    assert(!first(SortKey::Name, true, u[j], u[i]));
}

/// Sorted by workspace the names of the workspaces rise, and within one workspace the list
/// falls from the most recent entry to the oldest; reversed, it is the other way round.
pub proof fn lemma_sorted_by_workspace(s: Seq<Entry>, i: int, j: int)
    requires
        0 <= i < j < s.len(),
    ensures
        ({
            let t = in_order(SortKey::Workspace, false, s);
            &&& not_behind(t[i].ws_label, t[j].ws_label)
            &&& opt_text(t[i].ws_label) == opt_text(t[j].ws_label) && opt_text(t[i].workspace_id)
                == opt_text(t[j].workspace_id) ==> t[i].recency >= t[j].recency
        }),
        ({
            let t = in_order(SortKey::Workspace, true, s);
            &&& not_behind(t[j].ws_label, t[i].ws_label)
            &&& opt_text(t[i].ws_label) == opt_text(t[j].ws_label) && opt_text(t[i].workspace_id)
                == opt_text(t[j].workspace_id) ==> t[i].recency <= t[j].recency
        }),
{
    lemma_in_order(SortKey::Workspace, false, s);
    lemma_in_order(SortKey::Workspace, true, s);
    let t = in_order(SortKey::Workspace, false, s);
    let u = in_order(SortKey::Workspace, true, s);
    assert(!first(SortKey::Workspace, false, t[j], t[i]));
    assert(!first(SortKey::Workspace, true, u[j], u[i]));
}

/// Rows of one workspace stand together: between two of them, sorted by workspace, there is
/// none of another one of the same name.
pub proof fn lemma_workspaces_stand_together(s: Seq<Entry>, reverse: bool, i: int, k: int, j: int)
    requires
        0 <= i < k < j < s.len(),
        ({
            let t = in_order(SortKey::Workspace, reverse, s);
            &&& opt_text(t[i].ws_label) == opt_text(t[k].ws_label)
            &&& opt_text(t[k].ws_label) == opt_text(t[j].ws_label)
            &&& opt_text(t[i].workspace_id) == opt_text(t[j].workspace_id)
        }),
    ensures
        opt_text(in_order(SortKey::Workspace, reverse, s)[k].workspace_id) == opt_text(
            in_order(SortKey::Workspace, reverse, s)[i].workspace_id,
        ),
{
    lemma_in_order(SortKey::Workspace, reverse, s);
    let t = in_order(SortKey::Workspace, reverse, s);
    assert(!first(SortKey::Workspace, reverse, t[k], t[i]));
    assert(!first(SortKey::Workspace, reverse, t[j], t[k]));
    lemma_opt_lt(opt_text(t[i].workspace_id), opt_text(t[k].workspace_id), None);
    lemma_opt_lt(opt_text(t[k].workspace_id), opt_text(t[i].workspace_id), None);
    lemma_lex_order(or_last(t[i].ws_label), or_last(t[k].ws_label), or_last(t[j].ws_label));
}

/// Whatever the choice, the workspace and the text, a subagent that stands below a session is
/// not in the list; any other entry is there where nothing is chosen and no text is typed.
pub proof fn lemma_what_is_listed(e: Entry, view: Lens, ws: Option<Seq<char>>, query: Seq<char>)
    ensures
        e.attach == Some(Attach::Attached) ==> !shows(e, view, ws, query),
        e.attach != Some(Attach::Attached) ==> shows(e, Lens::All, None, Seq::empty()),
        shows(e, view, ws, query) ==> shows(e, Lens::All, ws, query) && shows(e, view, None, query)
            && shows(e, view, ws, Seq::empty()),
        shows(e, Lens::All, ws, query) && shows(e, view, None, query) ==> shows(e, view, ws, query),
        shows(e, Lens::Orphans, ws, query) ==> e.attach is None || e.attach == Some(
            Attach::Dangling,
        ),
        (e.attach is None || e.attach == Some(Attach::Dangling)) && shows(
            e,
            Lens::All,
            ws,
            query,
        ) ==> shows(e, Lens::Orphans, ws, query),
        shows(e, Lens::Archived, ws, query) ==> e.is_archived,
        e.is_archived && shows(e, Lens::All, ws, query) ==> shows(e, Lens::Archived, ws, query),
        ws is Some && ws->0.len() > 0 && shows(e, view, ws, query) ==> e.workspace_id is Some
            && e.workspace_id->0@ == ws->0,
        e.workspace_id is Some && e.workspace_id->0@.len() > 0 && shows(e, view, None, query)
            ==> shows(e, view, Some(e.workspace_id->0@), query),
        shows(e, view, Some(Seq::empty()), query) <==> shows(e, view, None, query)
            && e.workspace_id is None,
        shows(e, view, ws, Seq::empty()) && (query.is_prefix_of(e.composer_id@) || (e.name
            matches Some(n) && occurs(query, unicode_lower(n@))) || (e.ws_label matches Some(l)
            && occurs(query, unicode_lower(l@)))) ==> shows(e, view, ws, query),
        shows(e, view, ws, query) && query.len() > 0 ==> query.is_prefix_of(e.composer_id@) || (
        e.name matches Some(n) && occurs(query, unicode_lower(n@))) || (e.ws_label matches Some(l)
            && occurs(query, unicode_lower(l@))),
{
}

} // verus!
