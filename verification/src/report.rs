//! The texts of the commands: the report on a database, and what the plans hold.

use crate::delete::{DeletePlan, Target};
use crate::gc::GcPlan;
use crate::headers::SessionHeader;
use crate::lineage::{collect_by_id, exists_id, header_of, lemma_header_of};
use crate::panes::wrapped;
use crate::scan::{
    is_orphan, kind_at, kind_stat_ok, lemma_kinds_make_owned, prefix_name, rank, scan_ok, tally,
    weigh, Prefix, PrefixStat, RowView, ScanResult, Sel, PREFIXES,
};
use crate::summary::{
    kind_lines, kind_texts, name_text, owned_bytes, shown_name, sum_kinds, KindFormat,
};
use crate::sweep::SweepPlan;
use crate::text::{
    byte_size, decimal, decimal_text, first_chars, head, join2, left_aligned, lemma_follows,
    lemma_occurs_grows, lemma_occurs_self, lemma_stands, occurs, push_left, push_number,
    push_right, push_size, put, right_aligned, size_text, views,
};
use crate::trim::TrimPlan;
use crate::vacuum::{shrink_text, Shrink};
use vstd::prelude::*;

verus! {

broadcast use vstd::string::group_string_axioms;

/// A place in a list, and a weight.
pub type Item = (usize, u64);

/// A list from the heaviest down with one item more: behind all that weigh as much.
pub open spec fn weighed_in(s: Seq<Item>, x: Item) -> Seq<Item>
    decreases s.len(),
{
    if s.len() == 0 || s.last().1 >= x.1 {
        s.push(x)
    } else {
        weighed_in(s.drop_last(), x).push(s.last())
    }
}

/// The items from the heaviest down; those of the same weight keep their order.
pub open spec fn heaviest_first(s: Seq<Item>) -> Seq<Item>
    decreases s.len(),
{
    if s.len() == 0 {
        Seq::empty()
    } else {
        weighed_in(heaviest_first(s.drop_last()), s.last())
    }
}

/// The first `k`, or all where there are fewer.
pub open spec fn at_most(s: Seq<Item>, k: nat) -> Seq<Item> {
    if s.len() <= k {
        s
    } else {
        s.take(k as int)
    }
}

/// No item stands behind a lighter one.
pub open spec fn falling(s: Seq<Item>) -> bool {
    forall|i: int, j: int| 0 <= i < j < s.len() ==> (#[trigger] s[i]).1 >= (#[trigger] s[j]).1
}

proof fn lemma_weighed_in(s: Seq<Item>, x: Item)
    requires
        falling(s),
    ensures
        falling(weighed_in(s, x)),
        weighed_in(s, x).to_multiset() == s.to_multiset().insert(x),
        weighed_in(s, x).len() == s.len() + 1,
        forall|i: int|
            0 <= i < s.len() + 1 ==> (#[trigger] weighed_in(s, x)[i]).1 >= x.1 || (s.len() > 0
                && weighed_in(s, x)[i].1 >= s.last().1),
    decreases s.len(),
{
    s.to_multiset_ensures();
    let r = weighed_in(s, x);
    if s.len() == 0 || s.last().1 >= x.1 {
        assert forall|i: int, j: int| 0 <= i < j < r.len() implies (#[trigger] r[i]).1 >= (
        #[trigger] r[j]).1 by {
            if j == s.len() {
                assert(s[i].1 >= s[s.len() - 1].1);
            } else {
                assert(s[i].1 >= s[j].1);
            }
        }
    } else {
        let rest = s.drop_last();
        lemma_weighed_in(rest, x);
        let t = weighed_in(rest, x);
        assert(s =~= rest.push(s.last()));
        rest.to_multiset_ensures();
        t.to_multiset_ensures();
        assert(r.to_multiset() =~= s.to_multiset().insert(x));
        if rest.len() > 0 {
            assert(s[s.len() - 2].1 >= s[s.len() - 1].1);
        }
        assert forall|i: int, j: int| 0 <= i < j < r.len() implies (#[trigger] r[i]).1 >= (
        #[trigger] r[j]).1 by {
            if j < t.len() {
                assert(t[i].1 >= t[j].1);
            } else {
                assert(r[i] == t[i]);
            }
        }
        assert forall|i: int| 0 <= i < s.len() + 1 implies (#[trigger] r[i]).1 >= x.1 || (s.len()
            > 0 && r[i].1 >= s.last().1) by {
            if i < t.len() {
                assert(r[i] == t[i]);
            }
        }
    }
}

/// Sorting keeps every item and leaves none behind a lighter one.
pub proof fn lemma_heaviest_first(s: Seq<Item>)
    ensures
        falling(heaviest_first(s)),
        heaviest_first(s).to_multiset() == s.to_multiset(),
        heaviest_first(s).len() == s.len(),
    decreases s.len(),
{
    if s.len() > 0 {
        lemma_heaviest_first(s.drop_last());
        lemma_weighed_in(heaviest_first(s.drop_last()), s.last());
        assert(s =~= s.drop_last().push(s.last()));
        s.drop_last().to_multiset_ensures();
    } else {
        assert(s =~= Seq::<Item>::empty());
    }
}

/// The first `k` of a longer list depend on the first `k` of the list before alone.
proof fn lemma_at_most(s: Seq<Item>, x: Item, k: nat)
    requires
        falling(s),
    ensures
        at_most(weighed_in(s, x), k) == at_most(weighed_in(at_most(s, k), x), k),
    decreases s.len(),
{
    lemma_weighed_in(s, x);
    if s.len() > k {
        let t = s.take(k as int);
        if s.last().1 >= x.1 {
            if k > 0 {
                assert(s[k - 1].1 >= s[s.len() - 1].1);
            }
            assert(weighed_in(t, x) == t.push(x));
            assert(at_most(t.push(x), k) =~= t);
            assert(at_most(s.push(x), k) =~= t);
        } else {
            let d = s.drop_last();
            assert(falling(d)) by {
                assert forall|i: int, j: int| 0 <= i < j < d.len() implies (#[trigger] d[i]).1 >= (
                #[trigger] d[j]).1 by {
                    assert(s[i].1 >= s[j].1);
                }
            }
            lemma_at_most(d, x, k);
            lemma_weighed_in(d, x);
            assert(d.take(k as int) =~= t);
            assert(at_most(d, k) =~= t);
            assert(at_most(weighed_in(s, x), k) =~= at_most(weighed_in(d, x), k));
        }
    }
}

/// The `k` heaviest items.
fn top(items: &[Item], k: usize) -> (r: Vec<Item>)
    ensures
        r@ == at_most(heaviest_first(items@), k as nat),
{
    let mut out: Vec<Item> = Vec::new();
    let mut i: usize = 0;
    assert(out@ =~= at_most(heaviest_first(items@.take(0)), k as nat));
    while i < items.len()
        invariant
            i <= items@.len(),
            out@ == at_most(heaviest_first(items@.take(i as int)), k as nat),
            out@.len() <= k,
        decreases items@.len() - i,
    {
        let x: Item = items[i];
        let ghost s = heaviest_first(items@.take(i as int));
        let ghost before = out@;
        proof {
            lemma_heaviest_first(items@.take(i as int));
            lemma_at_most(s, x, k as nat);
            assert(items@.take(i + 1).drop_last() =~= items@.take(i as int));
        }
        let mut at: usize = out.len();
        proof {
            assert(before.skip(at as int) =~= Seq::<Item>::empty());
            assert(before.take(at as int) =~= before);
            assert(weighed_in(before, x) =~= weighed_in(before.take(at as int), x) + before.skip(
                at as int,
            ));
        }
        while at > 0 && out[at - 1].1 < x.1
            invariant
                at <= out@.len(),
                out@ == before,
                weighed_in(before, x) == weighed_in(before.take(at as int), x) + before.skip(
                    at as int,
                ),
            decreases at,
        {
            proof {
                let t = before.take(at as int);
                assert(t.drop_last() =~= before.take(at - 1));
                assert(t.last() == before[at - 1]);
                assert(weighed_in(t, x) == weighed_in(before.take(at - 1), x).push(before[at - 1]));
                assert(before.skip(at - 1) =~= seq![before[at - 1]] + before.skip(at as int));
                assert(weighed_in(before, x) =~= weighed_in(before.take(at - 1), x) + before.skip(
                    at - 1,
                ));
            }
            at -= 1;
        }
        out.insert(at, x);
        proof {
            let t = before.take(at as int);
            assert(weighed_in(t, x) == t.push(x));
            assert(out@ =~= t.push(x) + before.skip(at as int));
            assert(out@ == weighed_in(before, x));
        }
        if out.len() > k {
            let ghost full = out@;
            out.truncate(k);
            assert(out@ =~= at_most(full, k as nat));
        }
        i += 1;
    }
    assert(items@.take(i as int) =~= items@);
    out
}

/// The places of the kinds of which there are rows among the first `n`, with their rows.
pub open spec fn kind_items(t: Seq<PrefixStat>, n: int) -> Seq<Item>
    decreases n,
{
    if n <= 0 {
        Seq::empty()
    } else if t[n - 1].rows > 0 {
        kind_items(t, n - 1).push(((n - 1) as usize, t[n - 1].rows))
    } else {
        kind_items(t, n - 1)
    }
}

/// A line on the orphans of a kind; `percent` is their share.
pub open spec fn orphan_text(
    name: Seq<char>,
    s: PrefixStat,
    percent: Seq<char>,
    deep: bool,
) -> Seq<char> {
    let l = "  "@ + left_aligned(name, 36) + " "@ + right_aligned(decimal(s.rows as nat), 8) + " "@
        + right_aligned(decimal(s.orphan_rows as nat), 8) + " "@ + right_aligned(percent, 5) + "%"@;
    if deep {
        l + "  "@ + right_aligned(byte_size(s.bytes), 10) + "(孤儿 "@ + byte_size(s.orphan_bytes) + ")"@
    } else {
        l
    }
}

fn orphan_line(p: Prefix, s: PrefixStat, percent: &str, deep: bool) -> (r: String)
    ensures
        r@ == orphan_text(prefix_name(p), s, percent@, deep),
{
    let mut out = "  ".to_owned();
    push_left(&mut out, p.name(), 36);
    out.push_str(" ");
    push_right(&mut out, decimal_text(s.rows).as_str(), 8);
    out.push_str(" ");
    push_right(&mut out, decimal_text(s.orphan_rows).as_str(), 8);
    out.push_str(" ");
    push_right(&mut out, percent, 5);
    out.push_str("%");
    if deep {
        out.push_str("  ");
        push_right(&mut out, size_text(s.bytes).as_str(), 10);
        out.push_str("(孤儿 ");
        push_size(&mut out, s.orphan_bytes);
        out.push_str(")");
    }
    out
}

/// The lines on the orphans of the kinds, the kind with the most rows first.
pub open spec fn orphan_texts(
    t: Seq<PrefixStat>,
    percents: Seq<Seq<char>>,
    deep: bool,
) -> Seq<Seq<char>> {
    heaviest_first(kind_items(t, PREFIXES as int)).map_values(
        |x: Item|
            orphan_text(prefix_name(kind_at(x.0 as int)), t[x.0 as int], percents[x.0 as int], deep),
    )
}

/// How many sessions pass a test.
pub open spec fn how_many(s: Seq<SessionHeader>, f: spec_fn(SessionHeader) -> bool) -> nat
    decreases s.len(),
{
    if s.len() == 0 {
        0
    } else {
        how_many(s.drop_last(), f) + if f(s.last()) {
            1nat
        } else {
            0
        }
    }
}

/// How the sessions were found, and how many look like tombstones.
pub struct Census {
    pub in_table: u64,
    pub in_blob: u64,
    pub table_only: u64,
    pub blob_only: u64,
    pub tombstones: u64,
}

/// The numbers are those of the sessions.
pub open spec fn is_census(c: Census, s: Seq<SessionHeader>) -> bool {
    &&& c.in_table == how_many(s, |h: SessionHeader| h.in_header_table)
    &&& c.in_blob == how_many(s, |h: SessionHeader| h.in_legacy_blob)
    &&& c.table_only == how_many(s, |h: SessionHeader| h.in_header_table && !h.in_legacy_blob)
    &&& c.blob_only == how_many(s, |h: SessionHeader| !h.in_header_table && h.in_legacy_blob)
    &&& c.tombstones == how_many(s, |h: SessionHeader| h.is_archived && h.name is None)
}

fn one_if(b: bool) -> (r: u64)
    ensures
        r == (if b {
            1u64
        } else {
            0
        }),
{
    if b {
        1
    } else {
        0
    }
}

/// Counts how the sessions were found, and how many look like tombstones.
pub fn census(sessions: &[SessionHeader]) -> (r: Census)
    ensures
        is_census(r, sessions@),
{
    let mut c = Census { in_table: 0, in_blob: 0, table_only: 0, blob_only: 0, tombstones: 0 };
    let n: usize = sessions.len();
    let mut i: usize = 0;
    while i < n
        invariant
            i <= n,
            n == sessions@.len(),
            is_census(c, sessions@.take(i as int)),
            c.in_table <= i,
            c.in_blob <= i,
            c.table_only <= i,
            c.blob_only <= i,
            c.tombstones <= i,
        decreases n - i,
    {
        let h = &sessions[i];
        proof {
            let t = sessions@.take(i + 1);
            assert(t.drop_last() =~= sessions@.take(i as int));
            assert(t.last() == *h);
        }
        c.in_table += one_if(h.in_header_table);
        c.in_blob += one_if(h.in_legacy_blob);
        c.table_only += one_if(h.in_header_table && !h.in_legacy_blob);
        c.blob_only += one_if(!h.in_header_table && h.in_legacy_blob);
        c.tombstones += one_if(h.is_archived && h.name.is_none());
        i += 1;
    }
    assert(sessions@.take(i as int) =~= sessions@);
    c
}

/// The sessions are found in one source or both; those in both count for each.
pub proof fn lemma_census(c: Census, s: Seq<SessionHeader>)
    requires
        is_census(c, s),
    ensures
        c.table_only <= c.in_table,
        c.blob_only <= c.in_blob,
        c.in_table - c.table_only == c.in_blob - c.blob_only,
{
    lemma_census_of(s);
}

proof fn lemma_census_of(s: Seq<SessionHeader>)
    ensures
        how_many(s, |h: SessionHeader| h.in_header_table) - how_many(
            s,
            |h: SessionHeader| h.in_header_table && !h.in_legacy_blob,
        ) == how_many(s, |h: SessionHeader| h.in_legacy_blob) - how_many(
            s,
            |h: SessionHeader| !h.in_header_table && h.in_legacy_blob,
        ),
        how_many(s, |h: SessionHeader| h.in_header_table && !h.in_legacy_blob) <= how_many(
            s,
            |h: SessionHeader| h.in_header_table,
        ),
    decreases s.len(),
{
    if s.len() > 0 {
        lemma_census_of(s.drop_last());
    }
}

/// The first lines of the report: where the sessions were found.
pub open spec fn source_texts(c: Census, all: nat, ghosts: u64) -> Seq<Seq<char>> {
    seq![
        "== 存活会话来源 =="@,
        "  composerHeaders 表:     "@ + decimal(c.in_table as nat),
        "  ItemTable 旧 blob:      "@ + decimal(c.in_blob as nat),
        "  并集(存活判定):         "@ + decimal(all),
        "  仅在表里 / 仅在 blob 里: "@ + decimal(c.table_only as nat) + " / "@ + decimal(
            c.blob_only as nat,
        ),
        "\n== header/data 一致性 =="@,
        "  疑似墓碑(isArchived=1 且无 name): "@ + decimal(c.tombstones as nat),
        "  幽灵 header(无对应 composerData): "@ + decimal(ghosts as nat),
    ]
}

/// The lines on what the table holds.
pub open spec fn total_texts(scan: ScanResult, deep: bool) -> Seq<Seq<char>> {
    let l = seq![
        "  孤儿 composerId 数: "@ + decimal(scan.orphan_composers@.len()),
        "  agentKv:blob / composer.content / 其它: "@ + decimal(scan.blob.rows as nat) + " / "@ + decimal(
            scan.content.rows as nat,
        ) + " / "@ + decimal(scan.other.rows as nat) + " 行"@,
    ];
    if deep {
        l.push(
            "  体积: 会话自有 "@ + byte_size(
                wrapped(owned_bytes(scan.per_prefix@, PREFIXES as int)),
            ) + " + agentKv:blob "@ + byte_size(scan.blob.bytes) + " + composer.content "@ + byte_size(
                scan.content.bytes,
            ) + " + 其它 "@ + byte_size(scan.other.bytes),
        )
    } else {
        l
    }
}

/// The places of the owners of rows, with their bytes.
pub open spec fn owner_items(scan: ScanResult, n: int) -> Seq<Item>
    decreases n,
{
    if n <= 0 {
        Seq::empty()
    } else {
        owner_items(scan, n - 1).push(
            ((n - 1) as usize, scan.per_composer@[scan.per_composer.order()[n - 1]].bytes),
        )
    }
}

/// A line on a session that takes much room.
pub open spec fn large_text(s: Seq<SessionHeader>, scan: ScanResult, id: Seq<char>) -> Seq<char> {
    let c = scan.per_composer@[id];
    "  "@ + right_aligned(byte_size(c.bytes), 10) + "  "@ + right_aligned(decimal(c.rows as nat), 7)
        + " 行  "@ + (if exists_id(s, id) {
        name_text(s[header_of(s, id)].name)
    } else {
        "*(孤儿)"@
    }) + "  "@ + head(id, 8)
}

/// How many sessions are listed by size.
pub const LARGEST: usize = 15;

/// How many sessions are listed by time.
pub const LATEST: usize = 10;

/// The lines on the sessions that take the most room.
pub open spec fn large_texts(s: Seq<SessionHeader>, scan: ScanResult) -> Seq<Seq<char>> {
    let order = scan.per_composer.order();
    at_most(heaviest_first(owner_items(scan, order.len() as int)), LARGEST as nat).map_values(
        |x: Item| large_text(s, scan, order[x.0 as int]),
    )
}

/// A line on a session that was used of late.
pub open spec fn late_text(h: SessionHeader, time: Seq<char>) -> Seq<char> {
    "  "@ + time + "  "@ + (if h.is_archived {
        "[归档] "@
    } else {
        ""@
    }) + name_text(h.name) + "  "@ + head(h.composer_id@, 8)
}

/// The lines on the first `n` sessions.
pub open spec fn late_texts(s: Seq<SessionHeader>, times: Seq<Seq<char>>, n: int) -> Seq<Seq<char>>
    decreases n,
{
    if n <= 0 {
        Seq::empty()
    } else {
        late_texts(s, times, n - 1).push(late_text(s[n - 1], times[n - 1]))
    }
}

/// How many of `n` sessions are listed by time.
pub open spec fn late_count(n: nat) -> nat {
    if n < LATEST {
        n
    } else {
        LATEST as nat
    }
}

/// The report. `percents` are the shares of orphans of the kinds, and `times` the times at
/// which the first sessions were last used.
pub open spec fn report_text(
    c: Census,
    s: Seq<SessionHeader>,
    scan: ScanResult,
    deep: bool,
    percents: Seq<Seq<char>>,
    times: Seq<Seq<char>>,
) -> Seq<Seq<char>> {
    let l = source_texts(c, s.len(), scan.ghost_headers).push(
        "\n== 孤儿行统计 == (cursorDiskKV 共 "@ + decimal(scan.total_rows as nat) + " 行)"@,
    ) + orphan_texts(scan.per_prefix@, percents, deep) + total_texts(scan, deep);
    let l = if deep {
        l.push("\n== 会话体积 Top 15 =="@) + large_texts(s, scan)
    } else {
        l
    };
    l.push("\n最近 10 个会话:"@) + late_texts(s, times, late_count(s.len()) as int)
}

fn put_all(out: &mut Vec<String>, more: Vec<String>)
    ensures
        views(final(out)@) == views(old(out)@) + views(more@),
{
    let ghost v = views(out@);
    let ghost m = views(more@);
    let mut i: usize = 0;
    assert(v + m.take(0) =~= v);
    while i < more.len()
        invariant
            i <= more@.len(),
            m == views(more@),
            views(out@) == v + m.take(i as int),
        decreases more@.len() - i,
    {
        put(out, more[i].clone());
        proof {
            assert(m.take(i + 1) =~= m.take(i as int).push(m[i as int]));
            assert(views(out@) =~= v + m.take(i + 1));
        }
        i += 1;
    }
    assert(m.take(i as int) =~= m);
}

fn with_number(text: &str, n: u64) -> (r: String)
    ensures
        r@ == text@ + decimal(n as nat),
{
    let mut out = text.to_owned();
    push_number(&mut out, n);
    out
}

fn source_lines(c: &Census, all: usize, ghosts: u64) -> (r: Vec<String>)
    ensures
        views(r@) == source_texts(*c, all as nat, ghosts),
{
    let mut out: Vec<String> = Vec::new();
    put(&mut out, "== 存活会话来源 ==".to_owned());
    put(&mut out, with_number("  composerHeaders 表:     ", c.in_table));
    put(&mut out, with_number("  ItemTable 旧 blob:      ", c.in_blob));
    put(&mut out, with_number("  并集(存活判定):         ", all as u64));
    let mut only = with_number("  仅在表里 / 仅在 blob 里: ", c.table_only);
    only.push_str(" / ");
    push_number(&mut only, c.blob_only);
    put(&mut out, only);
    put(&mut out, "\n== header/data 一致性 ==".to_owned());
    put(&mut out, with_number("  疑似墓碑(isArchived=1 且无 name): ", c.tombstones));
    put(&mut out, with_number("  幽灵 header(无对应 composerData): ", ghosts));
    assert(views(out@) =~= source_texts(*c, all as nat, ghosts));
    out
}

proof fn lemma_kind_items(t: Seq<PrefixStat>, n: int)
    requires
        n <= PREFIXES,
    ensures
        forall|i: int| 0 <= i < kind_items(t, n).len() ==> (#[trigger] kind_items(t, n)[i]).0 < n,
    decreases n,
{
    if n > 0 {
        lemma_kind_items(t, n - 1);
        let rest = kind_items(t, n - 1);
        assert forall|i: int| 0 <= i < kind_items(t, n).len() implies (#[trigger] kind_items(
            t,
            n,
        )[i]).0 < n by {
            if i < rest.len() {
                assert(rest[i].0 < n - 1);
            }
        }
    }
}

/// What holds of all items holds of the sorted ones.
proof fn lemma_bound_kept(s: Seq<Item>, n: int)
    requires
        forall|i: int| 0 <= i < s.len() ==> (#[trigger] s[i]).0 < n,
    ensures
        forall|i: int|
            0 <= i < heaviest_first(s).len() ==> (#[trigger] heaviest_first(s)[i]).0 < n,
{
    lemma_heaviest_first(s);
    let t = heaviest_first(s);
    assert forall|i: int| 0 <= i < t.len() implies (#[trigger] t[i]).0 < n by {
        t.to_multiset_ensures();
        s.to_multiset_ensures();
        assert(t.to_multiset().contains(t[i]));
        assert(s.contains(t[i]));
        let k = choose|k: int| 0 <= k < s.len() && s[k] == t[i];
        assert(s[k].0 < n);
    }
}

fn orphan_lines(scan: &ScanResult, percents: &[String], deep: bool) -> (r: Vec<String>)
    requires
        scan.per_prefix.wf(),
        percents@.len() == PREFIXES,
    ensures
        views(r@) == orphan_texts(scan.per_prefix@, views(percents@), deep),
{
    let ghost t = scan.per_prefix@;
    let ghost ps = views(percents@);
    let mut items: Vec<Item> = Vec::new();
    let mut i: usize = 0;
    while i < PREFIXES
        invariant
            i <= PREFIXES,
            scan.per_prefix.wf(),
            t == scan.per_prefix@,
            items@ == kind_items(t, i as int),
        decreases PREFIXES - i,
    {
        let s = scan.per_prefix.get(Prefix::at(i));
        if s.rows > 0 {
            items.push((i, s.rows));
        }
        i += 1;
    }
    let n: usize = items.len();
    let sorted = top(items.as_slice(), n);
    let ghost hs = heaviest_first(items@);
    proof {
        lemma_heaviest_first(items@);
        lemma_kind_items(t, PREFIXES as int);
        lemma_bound_kept(items@, PREFIXES as int);
        assert(sorted@ == hs);
    }
    let ghost all = orphan_texts(t, ps, deep);
    let mut out: Vec<String> = Vec::new();
    let mut k: usize = 0;
    assert(views(out@) =~= all.take(0));
    while k < sorted.len()
        invariant
            k <= sorted@.len(),
            sorted@ == hs,
            hs == heaviest_first(kind_items(t, PREFIXES as int)),
            forall|j: int| 0 <= j < hs.len() ==> (#[trigger] hs[j]).0 < PREFIXES,
            scan.per_prefix.wf(),
            t == scan.per_prefix@,
            ps == views(percents@),
            percents@.len() == PREFIXES,
            all == orphan_texts(t, ps, deep),
            views(out@) == all.take(k as int),
        decreases sorted@.len() - k,
    {
        let x: Item = sorted[k];
        assert(hs[k as int].0 < PREFIXES);
        let place: usize = x.0;
        let p = Prefix::at(place);
        assert(p == kind_at(place as int));
        let line = orphan_line(p, scan.per_prefix.get(p), percents[place].as_str(), deep);
        put(&mut out, line);
        proof {
            assert(all[k as int] == line@);
            assert(all.take(k + 1) =~= all.take(k as int).push(all[k as int]));
        }
        k += 1;
    }
    assert(all.take(k as int) =~= all);
    out
}

fn total_lines(scan: &ScanResult, deep: bool) -> (r: Vec<String>)
    requires
        scan.per_prefix.wf(),
    ensures
        views(r@) == total_texts(*scan, deep),
{
    let mut out: Vec<String> = Vec::new();
    put(&mut out, with_number("  孤儿 composerId 数: ", scan.orphan_composers.len() as u64));
    let mut rows = with_number("  agentKv:blob / composer.content / 其它: ", scan.blob.rows);
    rows.push_str(" / ");
    push_number(&mut rows, scan.content.rows);
    rows.push_str(" / ");
    push_number(&mut rows, scan.other.rows);
    rows.push_str(" 行");
    put(&mut out, rows);
    assert(views(out@) =~= seq![
        "  孤儿 composerId 数: "@ + decimal(scan.orphan_composers@.len()),
        "  agentKv:blob / composer.content / 其它: "@ + decimal(scan.blob.rows as nat) + " / "@ + decimal(
            scan.content.rows as nat,
        ) + " / "@ + decimal(scan.other.rows as nat) + " 行"@,
    ]);
    if deep {
        let sums = sum_kinds(&scan.per_prefix);
        let mut sizes = "  体积: 会话自有 ".to_owned();
        push_size(&mut sizes, sums.bytes);
        sizes.push_str(" + agentKv:blob ");
        push_size(&mut sizes, scan.blob.bytes);
        sizes.push_str(" + composer.content ");
        push_size(&mut sizes, scan.content.bytes);
        sizes.push_str(" + 其它 ");
        push_size(&mut sizes, scan.other.bytes);
        put(&mut out, sizes);
    }
    out
}

proof fn lemma_owner_items(scan: ScanResult, n: int)
    requires
        n <= usize::MAX,
    ensures
        forall|i: int|
            0 <= i < owner_items(scan, n).len() ==> (#[trigger] owner_items(scan, n)[i]).0 < n,
    decreases n,
{
    if n > 0 {
        lemma_owner_items(scan, n - 1);
        let rest = owner_items(scan, n - 1);
        assert forall|i: int| 0 <= i < owner_items(scan, n).len() implies (#[trigger] owner_items(
            scan,
            n,
        )[i]).0 < n by {
            if i < rest.len() {
                assert(rest[i].0 < n - 1);
            }
        }
    }
}

fn large_lines(sessions: &[SessionHeader], scan: &ScanResult) -> (r: Vec<String>)
    requires
        scan.per_composer.wf(),
    ensures
        views(r@) == large_texts(sessions@, *scan),
{
    let ghost order = scan.per_composer.order();
    let by_id = collect_by_id(sessions);
    let n: usize = scan.per_composer.len();
    let mut items: Vec<Item> = Vec::new();
    let mut i: usize = 0;
    while i < n
        invariant
            i <= n,
            n == order.len(),
            order == scan.per_composer.order(),
            scan.per_composer.wf(),
            items@ == owner_items(*scan, i as int),
        decreases n - i,
    {
        let c = scan.per_composer.value(i);
        items.push((i, c.bytes));
        i += 1;
    }
    let sorted = top(items.as_slice(), LARGEST);
    let ghost hs = at_most(heaviest_first(owner_items(*scan, order.len() as int)), LARGEST as nat);
    proof {
        lemma_owner_items(*scan, n as int);
        lemma_bound_kept(items@, n as int);
        assert forall|j: int| 0 <= j < hs.len() implies (#[trigger] hs[j]).0 < n by {
            assert(hs[j] == heaviest_first(items@)[j]);
        }
    }
    let ghost all = large_texts(sessions@, *scan);
    let mut out: Vec<String> = Vec::new();
    let mut k: usize = 0;
    assert(views(out@) =~= all.take(0));
    while k < sorted.len()
        invariant
            k <= sorted@.len(),
            sorted@ == hs,
            n == order.len(),
            order == scan.per_composer.order(),
            hs == at_most(heaviest_first(owner_items(*scan, order.len() as int)), LARGEST as nat),
            forall|j: int| 0 <= j < hs.len() ==> (#[trigger] hs[j]).0 < n,
            scan.per_composer.wf(),
            by_id.wf(),
            forall|x: Seq<char>| #[trigger] by_id@.contains_key(x) <==> exists_id(sessions@, x),
            forall|x: Seq<char>| #[trigger]
                by_id@.contains_key(x) ==> by_id@[x] == header_of(sessions@, x),
            all == large_texts(sessions@, *scan),
            views(out@) == all.take(k as int),
        decreases sorted@.len() - k,
    {
        let x: Item = sorted[k];
        assert(hs[k as int].0 < n);
        let place: usize = x.0;
        let id = scan.per_composer.key(place);
        let c = scan.per_composer.value(place);
        let mut line = "  ".to_owned();
        push_right(&mut line, size_text(c.bytes).as_str(), 10);
        line.push_str("  ");
        push_right(&mut line, decimal_text(c.rows).as_str(), 7);
        line.push_str(" 行  ");
        match by_id.get(id.as_str()) {
            Some(i) => {
                let i: usize = *i;
                proof {
                    lemma_header_of(sessions@, id@);
                }
                line.push_str(shown_name(&sessions[i].name));
            },
            None => line.push_str("*(孤儿)"),
        }
        line.push_str("  ");
        line.push_str(first_chars(id.as_str(), 8));
        put(&mut out, line);
        proof {
            assert(all[k as int] == large_text(sessions@, *scan, id@));
            assert(all.take(k + 1) =~= all.take(k as int).push(all[k as int]));
        }
        k += 1;
    }
    assert(all.take(k as int) =~= all);
    out
}

fn late_lines(sessions: &[SessionHeader], times: &[String]) -> (r: Vec<String>)
    requires
        times@.len() == late_count(sessions@.len()),
    ensures
        views(r@) == late_texts(
            sessions@,
            views(times@),
            late_count(sessions@.len()) as int,
        ),
{
    let mut out: Vec<String> = Vec::new();
    let mut i: usize = 0;
    assert(views(out@) =~= Seq::<Seq<char>>::empty());
    while i < times.len()
        invariant
            i <= times@.len(),
            times@.len() == late_count(sessions@.len()),
            views(out@) == late_texts(sessions@, views(times@), i as int),
        decreases times@.len() - i,
    {
        let h = &sessions[i];
        let mut line = "  ".to_owned();
        line.push_str(times[i].as_str());
        line.push_str("  ");
        line.push_str(
            if h.is_archived {
                "[归档] "
            } else {
                ""
            },
        );
        line.push_str(shown_name(&h.name));
        line.push_str("  ");
        line.push_str(first_chars(h.composer_id.as_str(), 8));
        put(&mut out, line);
        i += 1;
    }
    out
}

/// The report on a database. `percents` are the shares of orphans of the kinds in the order
/// of their names, and `times` the times at which the first sessions were last used.
pub fn report(
    sessions: &[SessionHeader],
    scan: &ScanResult,
    deep: bool,
    percents: &[String],
    times: &[String],
) -> (r: Vec<String>)
    requires
        scan.wf(),
        percents@.len() == PREFIXES,
        times@.len() == late_count(sessions@.len()),
    ensures
        exists|c: Census| #[trigger]
            is_census(c, sessions@) && views(r@) == report_text(
                c,
                sessions@,
                *scan,
                deep,
                views(percents@),
                views(times@),
            ),
{
    let c = census(sessions);
    let mut out = source_lines(&c, sessions.len(), scan.ghost_headers);
    let mut total = with_number("\n== 孤儿行统计 == (cursorDiskKV 共 ", scan.total_rows);
    total.push_str(" 行)");
    put(&mut out, total);
    put_all(&mut out, orphan_lines(scan, percents, deep));
    put_all(&mut out, total_lines(scan, deep));
    if deep {
        put(&mut out, "\n== 会话体积 Top 15 ==".to_owned());
        put_all(&mut out, large_lines(sessions, scan));
    }
    put(&mut out, "\n最近 10 个会话:".to_owned());
    put_all(&mut out, late_lines(sessions, times));
    assert(is_census(c, sessions@));
    out
}

/// The form of a line on a kind in a plan.
pub open spec fn plan_format() -> KindFormat {
    KindFormat { name: 36, rows: 8, gap: " 行  ", bytes: 10 }
}

/// What a sweep will do.
pub open spec fn sweep_plan_texts(plan: SweepPlan) -> Seq<Seq<char>> {
    if plan.keys@.len() == 0 {
        seq!["没有可清扫的孤儿数据。"@]
    } else {
        seq![
            "可清扫: "@ + decimal(plan.keys@.len()) + " 行"@ + (if plan.total_bytes > 0 {
                " / "@ + byte_size(plan.total_bytes)
            } else {
                ""@
            }) + ",涉及 "@ + decimal(plan.orphan_composers as nat) + " 个孤儿 composer,其中墓碑行 "@ + decimal(
                plan.tombstone_rows as nat,
            ),
        ] + kind_texts(plan_format(), plan.per_prefix@, PREFIXES as int)
    }
}

/// What a sweep will do.
pub fn sweep_plan_lines(plan: &SweepPlan) -> (r: Vec<String>)
    requires
        plan.per_prefix.wf(),
    ensures
        views(r@) == sweep_plan_texts(*plan),
{
    let mut out: Vec<String> = Vec::new();
    if plan.keys.len() == 0 {
        put(&mut out, "没有可清扫的孤儿数据。".to_owned());
        assert(views(out@) =~= sweep_plan_texts(*plan));
        return out;
    }
    let mut line = with_number("可清扫: ", plan.keys.len() as u64);
    line.push_str(" 行");
    if plan.total_bytes > 0 {
        line.push_str(join2(" / ", size_text(plan.total_bytes).as_str()).as_str());
    } else {
        line.push_str("");
    }
    line.push_str(",涉及 ");
    push_number(&mut line, plan.orphan_composers);
    line.push_str(" 个孤儿 composer,其中墓碑行 ");
    push_number(&mut line, plan.tombstone_rows);
    let ghost first = line@;
    put(&mut out, line);
    assert(views(out@) =~= seq![first]);
    let f = KindFormat { name: 36, rows: 8, gap: " 行  ", bytes: 10 };
    put_all(&mut out, kind_lines(&f, &plan.per_prefix));
    out
}

/// A line on a session of a plan, with where its header is.
pub open spec fn goal_text(t: Target, sources: bool) -> Seq<char> {
    "  "@ + head(t.composer_id@, 8) + "  "@ + name_text(t.name) + (if !sources {
        ""@
    } else if t.in_header_table && t.in_legacy_blob {
        "  [表+旧blob]"@
    } else if t.in_header_table {
        "  [表]"@
    } else if t.in_legacy_blob {
        "  [仅旧blob]"@
    } else {
        ""@
    })
}

/// The lines on the sessions of a plan.
pub open spec fn goal_texts(ts: Seq<Target>, sources: bool) -> Seq<Seq<char>> {
    seq!["目标会话:"@] + ts.map_values(|t: Target| goal_text(t, sources))
}

fn goal_lines(ts: &[Target], sources: bool) -> (r: Vec<String>)
    ensures
        views(r@) == goal_texts(ts@, sources),
{
    let ghost all = ts@.map_values(|t: Target| goal_text(t, sources));
    let mut out: Vec<String> = Vec::new();
    put(&mut out, "目标会话:".to_owned());
    let mut i: usize = 0;
    assert(views(out@) =~= seq!["目标会话:"@] + all.take(0));
    while i < ts.len()
        invariant
            i <= ts@.len(),
            all == ts@.map_values(|t: Target| goal_text(t, sources)),
            views(out@) == seq!["目标会话:"@] + all.take(i as int),
        decreases ts@.len() - i,
    {
        let t = &ts[i];
        let mut line = "  ".to_owned();
        line.push_str(t.composer_id.short());
        line.push_str("  ");
        line.push_str(shown_name(&t.name));
        line.push_str(
            if !sources {
                ""
            } else if t.in_header_table && t.in_legacy_blob {
                "  [表+旧blob]"
            } else if t.in_header_table {
                "  [表]"
            } else if t.in_legacy_blob {
                "  [仅旧blob]"
            } else {
                ""
            },
        );
        put(&mut out, line);
        proof {
            assert(all.take(i + 1) =~= all.take(i as int).push(all[i as int]));
            assert(views(out@) =~= seq!["目标会话:"@] + all.take(i + 1));
        }
        i += 1;
    }
    assert(all.take(i as int) =~= all);
    out
}

/// What a deletion will do.
pub open spec fn delete_plan_texts(plan: DeletePlan) -> Seq<Seq<char>> {
    goal_texts(plan.targets@, true).push(
        "将删除 cursorDiskKV "@ + decimal(plan.keys@.len()) + " 行 / "@ + byte_size(plan.total_bytes)
            + ":"@,
    ) + kind_texts(plan_format(), plan.per_prefix@, PREFIXES as int)
}

/// What a deletion will do.
pub fn delete_plan_lines(plan: &DeletePlan) -> (r: Vec<String>)
    requires
        plan.per_prefix.wf(),
    ensures
        views(r@) == delete_plan_texts(*plan),
{
    let mut out = goal_lines(plan.targets.as_slice(), true);
    let mut line = with_number("将删除 cursorDiskKV ", plan.keys.len() as u64);
    line.push_str(" 行 / ");
    push_size(&mut line, plan.total_bytes);
    line.push_str(":");
    put(&mut out, line);
    let f = KindFormat { name: 36, rows: 8, gap: " 行  ", bytes: 10 };
    put_all(&mut out, kind_lines(&f, &plan.per_prefix));
    out
}

/// What trimming will do.
pub open spec fn trim_plan_texts(plan: TrimPlan) -> Seq<Seq<char>> {
    let l = goal_texts(plan.targets@, false);
    if plan.keys@.len() == 0 {
        l.push("没有可修剪的数据。"@)
    } else {
        l.push(
            "将删除快照数据 "@ + decimal(plan.keys@.len()) + " 行 / "@ + byte_size(plan.total_bytes)
                + "(正文保留,影响仅限\"恢复到检查点\"):"@,
        ) + kind_texts(plan_format(), plan.per_prefix@, PREFIXES as int)
    }
}

/// What trimming will do.
pub fn trim_plan_lines(plan: &TrimPlan) -> (r: Vec<String>)
    requires
        plan.per_prefix.wf(),
    ensures
        views(r@) == trim_plan_texts(*plan),
{
    let mut out = goal_lines(plan.targets.as_slice(), false);
    if plan.keys.len() == 0 {
        put(&mut out, "没有可修剪的数据。".to_owned());
        return out;
    }
    let mut line = with_number("将删除快照数据 ", plan.keys.len() as u64);
    line.push_str(" 行 / ");
    push_size(&mut line, plan.total_bytes);
    line.push_str("(正文保留,影响仅限\"恢复到检查点\"):");
    put(&mut out, line);
    let f = KindFormat { name: 36, rows: 8, gap: " 行  ", bytes: 10 };
    put_all(&mut out, kind_lines(&f, &plan.per_prefix));
    out
}

/// How long the stages of a collection took, in seconds.
pub struct PhaseTimes {
    pub listing: String,
    pub roots: String,
    pub pointers: String,
    pub expansion: String,
}

/// The lines on the blobs and the contents of a collection.
pub open spec fn blob_texts(plan: GcPlan) -> Seq<Seq<char>> {
    seq![
        "blob 总量: "@ + decimal(plan.total_blobs as nat) + " 个 / "@ + byte_size(plan.total_bytes),
        "  存活(被引用): "@ + decimal(plan.live_blobs as nat) + " 个 / "@ + byte_size(plan.live_bytes),
        "  孤儿(可回收): "@ + decimal(plan.orphans@.len()) + " 个 / "@ + byte_size(plan.orphan_bytes),
        "composer.content: "@ + decimal(plan.content_total as nat) + " 个 / "@ + byte_size(
            plan.content_bytes,
        ) + ",其中孤儿(可回收) "@ + decimal(plan.content_orphans@.len()) + " 个 / "@ + byte_size(
            plan.content_orphan_bytes,
        ),
    ]
}

/// The line on what the marking read; `percent` is the share of roots that could not be.
pub open spec fn mark_text(plan: GcPlan, percent: Seq<char>) -> Seq<char> {
    let c = plan.stats.counts;
    "mark 统计: 根行 "@ + decimal(c.root_rows as nat) + " / 解出 state "@ + decimal(
        c.root_states as nat,
    ) + " / 根解码失败 "@ + decimal(c.root_decode_errors as nat) + "("@ + percent
        + "%) / checkpoint 根 "@ + decimal(c.checkpoint_roots as nat) + " / cloudAgent 根 "@ + decimal(
        c.cloud_agent_roots as nat,
    ) + " / 展开 blob "@ + decimal(c.expanded_blobs as nat)
}

/// What a collection will do.
pub open spec fn gc_plan_texts(plan: GcPlan, percent: Seq<char>, t: PhaseTimes) -> Seq<Seq<char>> {
    let l = blob_texts(plan).push(mark_text(plan, percent)).push(
        "阶段耗时: blob 清单 "@ + t.listing@ + "s | 根解码 "@ + t.roots@ + "s | 指针根 "@ + t.pointers@
            + "s | 展开 "@ + t.expansion@ + "s"@,
    );
    let l = if plan.dangling_refs > 0 {
        l.push(
            "注意: "@ + decimal(plan.dangling_refs as nat)
                + " 个被引用的 blob 已不存在(悬空引用)。可能是官方 GC 历史误删的痕迹(不可恢复),也可能只是叶子数据被保守解码策略偶然误读,后者无害。"@,
        )
    } else {
        l
    };
    if plan.stats.counts.missing_blobs > 0 {
        l.push(
            "  (其中展开阶段遇到 "@ + decimal(plan.stats.counts.missing_blobs as nat) + " 个缺失 blob)"@,
        )
    } else {
        l
    }
}

fn counted_size(text: &str, n: u64, bytes: u64) -> (r: String)
    ensures
        r@ == text@ + decimal(n as nat) + " 个 / "@ + byte_size(bytes),
{
    let mut out = with_number(text, n);
    out.push_str(" 个 / ");
    push_size(&mut out, bytes);
    out
}

/// What a collection will do. `percent` is the share of roots that could not be read.
pub fn gc_plan_lines(plan: &GcPlan, percent: &str, t: &PhaseTimes) -> (r: Vec<String>)
    ensures
        views(r@) == gc_plan_texts(*plan, percent@, *t),
{
    let mut out: Vec<String> = Vec::new();
    put(&mut out, counted_size("blob 总量: ", plan.total_blobs, plan.total_bytes));
    put(&mut out, counted_size("  存活(被引用): ", plan.live_blobs, plan.live_bytes));
    put(&mut out, counted_size("  孤儿(可回收): ", plan.orphans.len() as u64, plan.orphan_bytes));
    let mut content = counted_size("composer.content: ", plan.content_total, plan.content_bytes);
    content.push_str(",其中孤儿(可回收) ");
    push_number(&mut content, plan.content_orphans.len() as u64);
    content.push_str(" 个 / ");
    push_size(&mut content, plan.content_orphan_bytes);
    put(&mut out, content);
    assert(views(out@) =~= blob_texts(*plan));
    let c = &plan.stats.counts;
    let mut marked = with_number("mark 统计: 根行 ", c.root_rows);
    marked.push_str(" / 解出 state ");
    push_number(&mut marked, c.root_states);
    marked.push_str(" / 根解码失败 ");
    push_number(&mut marked, c.root_decode_errors);
    marked.push_str("(");
    marked.push_str(percent);
    marked.push_str("%) / checkpoint 根 ");
    push_number(&mut marked, c.checkpoint_roots);
    marked.push_str(" / cloudAgent 根 ");
    push_number(&mut marked, c.cloud_agent_roots);
    marked.push_str(" / 展开 blob ");
    push_number(&mut marked, c.expanded_blobs);
    put(&mut out, marked);
    let mut times = "阶段耗时: blob 清单 ".to_owned();
    times.push_str(t.listing.as_str());
    times.push_str("s | 根解码 ");
    times.push_str(t.roots.as_str());
    times.push_str("s | 指针根 ");
    times.push_str(t.pointers.as_str());
    times.push_str("s | 展开 ");
    times.push_str(t.expansion.as_str());
    times.push_str("s");
    put(&mut out, times);
    if plan.dangling_refs > 0 {
        let mut line = with_number("注意: ", plan.dangling_refs);
        line.push_str(
            " 个被引用的 blob 已不存在(悬空引用)。可能是官方 GC 历史误删的痕迹(不可恢复),也可能只是叶子数据被保守解码策略偶然误读,后者无害。",
        );
        put(&mut out, line);
    }
    if c.missing_blobs > 0 {
        let mut line = with_number("  (其中展开阶段遇到 ", c.missing_blobs);
        line.push_str(" 个缺失 blob)");
        put(&mut out, line);
    }
    out
}

/// How giving pages back ended; `freed` is by how much the file has shrunk.
pub open spec fn shrunk_text(s: Option<Shrink>, freed: u64) -> Seq<char> {
    match s {
        None => "本次未做物理收缩;需要时运行 `vacuum` 子命令。"@,
        Some(Shrink::Done { .. }) => "物理收缩完成,文件缩小 "@ + byte_size(freed) + "。"@,
        Some(Shrink::Unsupported) =>
            "库未开启 incremental auto_vacuum,空间需 `vacuum --full` 回收(数据已逻辑删除)。"@,
        Some(other) => shrink_text(other) + "。"@,
    }
}

/// How giving pages back ended; `freed` is by how much the file has shrunk.
pub fn shrunk_line(s: Option<Shrink>, freed: u64) -> (r: String)
    ensures
        r@ == shrunk_text(s, freed),
{
    match s {
        None => "本次未做物理收缩;需要时运行 `vacuum` 子命令。".to_owned(),
        Some(Shrink::Done { .. }) => {
            let mut out = "物理收缩完成,文件缩小 ".to_owned();
            push_size(&mut out, freed);
            out.push_str("。");
            out
        },
        Some(Shrink::Unsupported) => "库未开启 incremental auto_vacuum,空间需 `vacuum --full` 回收(数据已逻辑删除)。".to_owned(),
        Some(other) => join2(other.describe().as_str(), "。"),
    }
}

/// In the line on sizes each name is followed by what the rows of its kind weigh that were
/// scanned: what sessions own, the blobs, the contents, and the rest.
pub proof fn lemma_size_line(scan: ScanResult, live: Set<Seq<char>>, rows: Seq<RowView>, collect: bool)
    requires
        scan_ok(scan, live, rows, true, collect),
    ensures
        occurs("  体积: 会话自有 "@
            + byte_size(wrapped(weigh(live, rows, Sel::Owned))), total_texts(scan, true)[2]),
        occurs(" + agentKv:blob "@
            + byte_size(weigh(live, rows, Sel::Blob) as u64), total_texts(scan, true)[2]),
        occurs(" + composer.content "@
            + byte_size(weigh(live, rows, Sel::Content) as u64), total_texts(scan, true)[2]),
        occurs(" + 其它 "@
            + byte_size(weigh(live, rows, Sel::Other) as u64), total_texts(scan, true)[2]),
        total_texts(scan, true).len() == 3,
{
    lemma_owned_bytes(scan, live, rows, collect);
    let p0 = "  体积: 会话自有 "@;
    let p1 = byte_size(wrapped(weigh(live, rows, Sel::Owned)));
    let p2 = " + agentKv:blob "@;
    let p3 = byte_size(weigh(live, rows, Sel::Blob) as u64);
    let p4 = " + composer.content "@;
    let p5 = byte_size(weigh(live, rows, Sel::Content) as u64);
    let p6 = " + 其它 "@;
    let p7 = byte_size(weigh(live, rows, Sel::Other) as u64);
    let t0 = p0;
    let t1 = t0 + p1;
    let t2 = t1 + p2;
    let t3 = t2 + p3;
    let t4 = t3 + p4;
    let t5 = t4 + p5;
    let t6 = t5 + p6;
    let t7 = t6 + p7;
    assert(total_texts(scan, true)[2] == t7);
    lemma_occurs_self(p0 + p1);
    lemma_occurs_grows(p0 + p1, t1, p2);
    lemma_occurs_grows(p0 + p1, t2, p3);
    lemma_occurs_grows(p0 + p1, t3, p4);
    lemma_occurs_grows(p0 + p1, t4, p5);
    lemma_occurs_grows(p0 + p1, t5, p6);
    lemma_occurs_grows(p0 + p1, t6, p7);
    lemma_follows(t1, p2, p3);
    lemma_occurs_grows(p2 + p3, t3, p4);
    lemma_occurs_grows(p2 + p3, t4, p5);
    lemma_occurs_grows(p2 + p3, t5, p6);
    lemma_occurs_grows(p2 + p3, t6, p7);
    lemma_follows(t3, p4, p5);
    lemma_occurs_grows(p4 + p5, t5, p6);
    lemma_occurs_grows(p4 + p5, t6, p7);
    lemma_follows(t5, p6, p7);
}

/// The line on rows counts the blobs, the contents and the rest that were scanned, in this
/// order, and the line before it the owners of rows that are not alive.
pub proof fn lemma_row_line(
    scan: ScanResult,
    live: Set<Seq<char>>,
    rows: Seq<RowView>,
    deep: bool,
    collect: bool,
)
    requires
        scan_ok(scan, live, rows, deep, collect),
    ensures
        total_texts(scan, deep).len() == (if deep {
            3int
        } else {
            2
        }),
        total_texts(scan, deep)[0] == "  孤儿 composerId 数: "@ + decimal(
            crate::sweep::orphans(live, rows).len(),
        ),
        total_texts(scan, deep)[1] == "  agentKv:blob / composer.content / 其它: "@ + decimal(
            tally(live, rows, Sel::Blob),
        ) + " / "@ + decimal(tally(live, rows, Sel::Content)) + " / "@ + decimal(
            tally(live, rows, Sel::Other),
        ) + " 行"@,
{
    let o = views(scan.orphan_composers@);
    crate::text::lemma_increasing_distinct(o);
    o.unique_seq_to_set();
    assert(o.to_set() =~= crate::sweep::orphans(live, rows)) by {
        assert forall|c: Seq<char>| o.to_set().contains(c) <==> crate::sweep::orphans(
            live,
            rows,
        ).contains(c) by {
            assert(o.contains(c) <==> is_orphan(live, rows, c));
        }
    }
    assert(o.len() == scan.orphan_composers@.len());
}

/// Two scans that differ in the bytes of their blobs alone give lines on sizes that differ
/// behind the name of the blobs alone; and likewise for the contents.
pub proof fn lemma_size_lines_differ(a: ScanResult, b: ScanResult)
    requires
        a.per_prefix@ == b.per_prefix@,
        a.other.bytes == b.other.bytes,
    ensures
        a.content.bytes == b.content.bytes ==> exists|x: Seq<char>, y: Seq<char>|
            total_texts(a, true)[2] == #[trigger] (x + " + agentKv:blob "@ + byte_size(a.blob.bytes)
                + y) && total_texts(b, true)[2] == x + " + agentKv:blob "@ + byte_size(b.blob.bytes)
                + y,
        a.blob.bytes == b.blob.bytes ==> exists|x: Seq<char>, y: Seq<char>|
            total_texts(a, true)[2] == #[trigger] (x + " + composer.content "@ + byte_size(
                a.content.bytes,
            ) + y) && total_texts(b, true)[2] == x + " + composer.content "@ + byte_size(
                b.content.bytes,
            ) + y,
{
    let own = "  体积: 会话自有 "@ + byte_size(wrapped(owned_bytes(a.per_prefix@, PREFIXES as int)));
    let rest = " + 其它 "@ + byte_size(a.other.bytes);
    if a.content.bytes == b.content.bytes {
        let y = " + composer.content "@ + byte_size(a.content.bytes) + rest;
        assert(total_texts(a, true)[2] =~= own + " + agentKv:blob "@ + byte_size(a.blob.bytes) + y);
        assert(total_texts(b, true)[2] =~= own + " + agentKv:blob "@ + byte_size(b.blob.bytes) + y);
    }
    if a.blob.bytes == b.blob.bytes {
        let x = own + " + agentKv:blob "@ + byte_size(a.blob.bytes);
        assert(total_texts(a, true)[2] =~= x + " + composer.content "@ + byte_size(a.content.bytes)
            + rest);
        assert(total_texts(b, true)[2] =~= x + " + composer.content "@ + byte_size(b.content.bytes)
            + rest);
    }
}

/// What the kinds add up to is what sessions own.
proof fn lemma_owned_bytes(
    scan: ScanResult,
    live: Set<Seq<char>>,
    rows: Seq<RowView>,
    collect: bool,
)
    requires
        scan_ok(scan, live, rows, true, collect),
    ensures
        owned_bytes(scan.per_prefix@, PREFIXES as int) == weigh(live, rows, Sel::Owned),
{
    let t = scan.per_prefix@;
    lemma_kinds_make_owned(live, rows);
    reveal_with_fuel(owned_bytes, 10);
    assert(kind_stat_ok(t[rank(Prefix::AgentBubbleCheckpoint)], live, rows, Prefix::AgentBubbleCheckpoint));
    assert(kind_stat_ok(t[rank(Prefix::AgentCheckpoint)], live, rows, Prefix::AgentCheckpoint));
    assert(kind_stat_ok(t[rank(Prefix::BubbleId)], live, rows, Prefix::BubbleId));
    assert(kind_stat_ok(t[rank(Prefix::CheckpointId)], live, rows, Prefix::CheckpointId));
    assert(kind_stat_ok(t[rank(Prefix::CodeBlockDiff)], live, rows, Prefix::CodeBlockDiff));
    assert(kind_stat_ok(t[rank(Prefix::CodeBlockPartialInlineDiffFates)], live, rows, Prefix::CodeBlockPartialInlineDiffFates));
    assert(kind_stat_ok(t[rank(Prefix::ComposerData)], live, rows, Prefix::ComposerData));
    assert(kind_stat_ok(t[rank(Prefix::ComposerVirtualRowHeights)], live, rows, Prefix::ComposerVirtualRowHeights));
    assert(kind_stat_ok(t[rank(Prefix::OfsContent)], live, rows, Prefix::OfsContent));
}

/// A line on a kind shows its name, its rows, those of them that are orphans, and their share, in
/// this order.
pub proof fn lemma_orphan_text(name: Seq<char>, s: PrefixStat, percent: Seq<char>)
    ensures
        occurs(left_aligned(name, 36) + " "@
            + right_aligned(decimal(s.rows as nat), 8), orphan_text(name, s, percent, false)),
        occurs(right_aligned(decimal(s.rows as nat), 8) + " "@
            + right_aligned(decimal(s.orphan_rows as nat), 8), orphan_text(name, s, percent, false)),
        occurs(right_aligned(decimal(s.orphan_rows as nat), 8) + " "@ + right_aligned(percent, 5)
            + "%"@, orphan_text(name, s, percent, false)),
{
    let p0 = "  "@;
    let p1 = left_aligned(name, 36);
    let p2 = " "@;
    let p3 = right_aligned(decimal(s.rows as nat), 8);
    let p4 = " "@;
    let p5 = right_aligned(decimal(s.orphan_rows as nat), 8);
    let p6 = " "@;
    let p7 = right_aligned(percent, 5);
    let p8 = "%"@;
    let t0 = p0;
    let t1 = t0 + p1;
    let t2 = t1 + p2;
    let t3 = t2 + p3;
    let t4 = t3 + p4;
    let t5 = t4 + p5;
    let t6 = t5 + p6;
    let t7 = t6 + p7;
    let t8 = t7 + p8;
    assert(orphan_text(name, s, percent, false) == t8);
    assert(t3 =~= t0 + (p1 + p2 + p3));
    lemma_stands(t0, p1 + p2 + p3);
    lemma_occurs_grows(p1 + p2 + p3, t3, p4);
    lemma_occurs_grows(p1 + p2 + p3, t4, p5);
    lemma_occurs_grows(p1 + p2 + p3, t5, p6);
    lemma_occurs_grows(p1 + p2 + p3, t6, p7);
    lemma_occurs_grows(p1 + p2 + p3, t7, p8);
    assert(t5 =~= t2 + (p3 + p4 + p5));
    lemma_stands(t2, p3 + p4 + p5);
    lemma_occurs_grows(p3 + p4 + p5, t5, p6);
    lemma_occurs_grows(p3 + p4 + p5, t6, p7);
    lemma_occurs_grows(p3 + p4 + p5, t7, p8);
    assert(t8 =~= t4 + (p5 + p6 + p7 + p8));
    lemma_stands(t4, p5 + p6 + p7 + p8);
}

/// A line of a deep report goes on with the bytes of the kind and, behind their name, those of
/// its orphans.
pub proof fn lemma_orphan_text_deep(name: Seq<char>, s: PrefixStat, percent: Seq<char>)
    ensures
        orphan_text(name, s, percent, true) == orphan_text(name, s, percent, false) + ("  "@
            + right_aligned(byte_size(s.bytes), 10) + "(孤儿 "@ + byte_size(s.orphan_bytes) + ")"@),
{
    let l = orphan_text(name, s, percent, false);
    let b = right_aligned(byte_size(s.bytes), 10);
    let o = byte_size(s.orphan_bytes);
    assert(l + "  "@ + b + "(孤儿 "@ + o + ")"@ =~= l + ("  "@ + b + "(孤儿 "@ + o + ")"@));
}

/// A line on a large session shows its bytes, its rows, its name and the beginning of its id; rows
/// without a session are marked.
pub proof fn lemma_large_text(s: Seq<SessionHeader>, scan: ScanResult, id: Seq<char>)
    ensures
        occurs("  "@ + right_aligned(byte_size(scan.per_composer@[id].bytes), 10) + "  "@
            + right_aligned(decimal(scan.per_composer@[id].rows as nat), 7)
            + " 行  "@, large_text(s, scan, id)),
        occurs(" 行  "@
            + (if exists_id(s, id) { name_text(s[header_of(s, id)].name) } else { "*(孤儿)"@ })
            + "  "@ + head(id, 8), large_text(s, scan, id)),
{
    let p0 = "  "@;
    let p1 = right_aligned(byte_size(scan.per_composer@[id].bytes), 10);
    let p2 = "  "@;
    let p3 = right_aligned(decimal(scan.per_composer@[id].rows as nat), 7);
    let p4 = " 行  "@;
    let p5 = (if exists_id(s, id) { name_text(s[header_of(s, id)].name) } else { "*(孤儿)"@ });
    let p6 = "  "@;
    let p7 = head(id, 8);
    let t0 = p0;
    let t1 = t0 + p1;
    let t2 = t1 + p2;
    let t3 = t2 + p3;
    let t4 = t3 + p4;
    let t5 = t4 + p5;
    let t6 = t5 + p6;
    let t7 = t6 + p7;
    assert(large_text(s, scan, id) == t7);
    lemma_occurs_self(p0 + p1 + p2 + p3 + p4);
    lemma_occurs_grows(p0 + p1 + p2 + p3 + p4, t4, p5);
    lemma_occurs_grows(p0 + p1 + p2 + p3 + p4, t5, p6);
    lemma_occurs_grows(p0 + p1 + p2 + p3 + p4, t6, p7);
    assert(t7 =~= t3 + (p4 + p5 + p6 + p7));
    lemma_stands(t3, p4 + p5 + p6 + p7);
}

/// A line on a late session shows its time, whether it is archived, its name and the beginning
/// of its id.
pub proof fn lemma_late_text(h: SessionHeader, time: Seq<char>)
    ensures
        occurs("  "@ + time + "  "@ + (if h.is_archived { "[归档] "@ } else { ""@ })
            + name_text(h.name) + "  "@ + head(h.composer_id@, 8), late_text(h, time)),
{
    let p0 = "  "@;
    let p1 = time;
    let p2 = "  "@;
    let p3 = (if h.is_archived { "[归档] "@ } else { ""@ });
    let p4 = name_text(h.name);
    let p5 = "  "@;
    let p6 = head(h.composer_id@, 8);
    let t0 = p0;
    let t1 = t0 + p1;
    let t2 = t1 + p2;
    let t3 = t2 + p3;
    let t4 = t3 + p4;
    let t5 = t4 + p5;
    let t6 = t5 + p6;
    assert(late_text(h, time) == t6);
    lemma_occurs_self(p0 + p1 + p2 + p3 + p4 + p5 + p6);
}

/// The line on a sweep names the rows, the owners that are gone and the tombstones.
pub proof fn lemma_sweep_plan_line(plan: SweepPlan)
    requires
        plan.keys@.len() > 0,
    ensures
        occurs("可清扫: "@ + decimal(plan.keys@.len()) + " 行"@, sweep_plan_texts(plan)[0]),
        occurs(",涉及 "@ + decimal(plan.orphan_composers as nat)
            + " 个孤儿 composer,其中墓碑行 "@, sweep_plan_texts(plan)[0]),
        occurs(" 个孤儿 composer,其中墓碑行 "@
            + decimal(plan.tombstone_rows as nat), sweep_plan_texts(plan)[0]),
{
    let p0 = "可清扫: "@;
    let p1 = decimal(plan.keys@.len());
    let p2 = " 行"@;
    let p3 = (if plan.total_bytes > 0 { " / "@ + byte_size(plan.total_bytes) } else { ""@ });
    let p4 = ",涉及 "@;
    let p5 = decimal(plan.orphan_composers as nat);
    let p6 = " 个孤儿 composer,其中墓碑行 "@;
    let p7 = decimal(plan.tombstone_rows as nat);
    let t0 = p0;
    let t1 = t0 + p1;
    let t2 = t1 + p2;
    let t3 = t2 + p3;
    let t4 = t3 + p4;
    let t5 = t4 + p5;
    let t6 = t5 + p6;
    let t7 = t6 + p7;
    assert(sweep_plan_texts(plan)[0] == t7);
    lemma_occurs_self(p0 + p1 + p2);
    lemma_occurs_grows(p0 + p1 + p2, t2, p3);
    lemma_occurs_grows(p0 + p1 + p2, t3, p4);
    lemma_occurs_grows(p0 + p1 + p2, t4, p5);
    lemma_occurs_grows(p0 + p1 + p2, t5, p6);
    lemma_occurs_grows(p0 + p1 + p2, t6, p7);
    assert(t6 =~= t3 + (p4 + p5 + p6));
    lemma_stands(t3, p4 + p5 + p6);
    lemma_occurs_grows(p4 + p5 + p6, t6, p7);
    lemma_follows(t5, p6, p7);
}

/// The first line on a collection counts all blobs and their bytes.
pub proof fn lemma_blob_line(plan: GcPlan)
    ensures
        occurs("blob 总量: "@ + decimal(plan.total_blobs as nat) + " 个 / "@
            + byte_size(plan.total_bytes), blob_texts(plan)[0]),
{
    let p0 = "blob 总量: "@;
    let p1 = decimal(plan.total_blobs as nat);
    let p2 = " 个 / "@;
    let p3 = byte_size(plan.total_bytes);
    let t0 = p0;
    let t1 = t0 + p1;
    let t2 = t1 + p2;
    let t3 = t2 + p3;
    assert(blob_texts(plan)[0] == t3);
    lemma_occurs_self(p0 + p1 + p2 + p3);
}

/// The second counts those that are referred to.
pub proof fn lemma_live_line(plan: GcPlan)
    ensures
        occurs("  存活(被引用): "@ + decimal(plan.live_blobs as nat) + " 个 / "@
            + byte_size(plan.live_bytes), blob_texts(plan)[1]),
{
    let p0 = "  存活(被引用): "@;
    let p1 = decimal(plan.live_blobs as nat);
    let p2 = " 个 / "@;
    let p3 = byte_size(plan.live_bytes);
    let t0 = p0;
    let t1 = t0 + p1;
    let t2 = t1 + p2;
    let t3 = t2 + p3;
    assert(blob_texts(plan)[1] == t3);
    lemma_occurs_self(p0 + p1 + p2 + p3);
}

/// The third counts those that can go.
pub proof fn lemma_orphan_line(plan: GcPlan)
    ensures
        occurs("  孤儿(可回收): "@ + decimal(plan.orphans@.len()) + " 个 / "@
            + byte_size(plan.orphan_bytes), blob_texts(plan)[2]),
{
    let p0 = "  孤儿(可回收): "@;
    let p1 = decimal(plan.orphans@.len());
    let p2 = " 个 / "@;
    let p3 = byte_size(plan.orphan_bytes);
    let t0 = p0;
    let t1 = t0 + p1;
    let t2 = t1 + p2;
    let t3 = t2 + p3;
    assert(blob_texts(plan)[2] == t3);
    lemma_occurs_self(p0 + p1 + p2 + p3);
}

/// The fourth counts the contents, and those of them that can go.
pub proof fn lemma_content_line(plan: GcPlan)
    ensures
        occurs("composer.content: "@ + decimal(plan.content_total as nat) + " 个 / "@
            + byte_size(plan.content_bytes), blob_texts(plan)[3]),
        occurs(",其中孤儿(可回收) "@ + decimal(plan.content_orphans@.len()) + " 个 / "@
            + byte_size(plan.content_orphan_bytes), blob_texts(plan)[3]),
{
    let p0 = "composer.content: "@;
    let p1 = decimal(plan.content_total as nat);
    let p2 = " 个 / "@;
    let p3 = byte_size(plan.content_bytes);
    let p4 = ",其中孤儿(可回收) "@;
    let p5 = decimal(plan.content_orphans@.len());
    let p6 = " 个 / "@;
    let p7 = byte_size(plan.content_orphan_bytes);
    let t0 = p0;
    let t1 = t0 + p1;
    let t2 = t1 + p2;
    let t3 = t2 + p3;
    let t4 = t3 + p4;
    let t5 = t4 + p5;
    let t6 = t5 + p6;
    let t7 = t6 + p7;
    assert(blob_texts(plan)[3] == t7);
    lemma_occurs_self(p0 + p1 + p2 + p3);
    lemma_occurs_grows(p0 + p1 + p2 + p3, t3, p4);
    lemma_occurs_grows(p0 + p1 + p2 + p3, t4, p5);
    lemma_occurs_grows(p0 + p1 + p2 + p3, t5, p6);
    lemma_occurs_grows(p0 + p1 + p2 + p3, t6, p7);
    assert(t7 =~= t3 + (p4 + p5 + p6 + p7));
    lemma_stands(t3, p4 + p5 + p6 + p7);
}

/// The line on the marking shows each count behind its name.
pub proof fn lemma_mark_text(plan: GcPlan, percent: Seq<char>)
    ensures
        occurs("mark 统计: 根行 "@
            + decimal(plan.stats.counts.root_rows as nat), mark_text(plan, percent)),
        occurs(" / 解出 state "@
            + decimal(plan.stats.counts.root_states as nat), mark_text(plan, percent)),
        occurs(" / 根解码失败 "@ + decimal(plan.stats.counts.root_decode_errors as nat) + "("@
            + percent, mark_text(plan, percent)),
        occurs("%) / checkpoint 根 "@
            + decimal(plan.stats.counts.checkpoint_roots as nat), mark_text(plan, percent)),
        occurs(" / cloudAgent 根 "@
            + decimal(plan.stats.counts.cloud_agent_roots as nat), mark_text(plan, percent)),
        occurs(" / 展开 blob "@
            + decimal(plan.stats.counts.expanded_blobs as nat), mark_text(plan, percent)),
{
    let p0 = "mark 统计: 根行 "@;
    let p1 = decimal(plan.stats.counts.root_rows as nat);
    let p2 = " / 解出 state "@;
    let p3 = decimal(plan.stats.counts.root_states as nat);
    let p4 = " / 根解码失败 "@;
    let p5 = decimal(plan.stats.counts.root_decode_errors as nat);
    let p6 = "("@;
    let p7 = percent;
    let p8 = "%) / checkpoint 根 "@;
    let p9 = decimal(plan.stats.counts.checkpoint_roots as nat);
    let p10 = " / cloudAgent 根 "@;
    let p11 = decimal(plan.stats.counts.cloud_agent_roots as nat);
    let p12 = " / 展开 blob "@;
    let p13 = decimal(plan.stats.counts.expanded_blobs as nat);
    let t0 = p0;
    let t1 = t0 + p1;
    let t2 = t1 + p2;
    let t3 = t2 + p3;
    let t4 = t3 + p4;
    let t5 = t4 + p5;
    let t6 = t5 + p6;
    let t7 = t6 + p7;
    let t8 = t7 + p8;
    let t9 = t8 + p9;
    let t10 = t9 + p10;
    let t11 = t10 + p11;
    let t12 = t11 + p12;
    let t13 = t12 + p13;
    assert(mark_text(plan, percent) == t13);
    lemma_occurs_self(p0 + p1);
    lemma_occurs_grows(p0 + p1, t1, p2);
    lemma_occurs_grows(p0 + p1, t2, p3);
    lemma_occurs_grows(p0 + p1, t3, p4);
    lemma_occurs_grows(p0 + p1, t4, p5);
    lemma_occurs_grows(p0 + p1, t5, p6);
    lemma_occurs_grows(p0 + p1, t6, p7);
    lemma_occurs_grows(p0 + p1, t7, p8);
    lemma_occurs_grows(p0 + p1, t8, p9);
    lemma_occurs_grows(p0 + p1, t9, p10);
    lemma_occurs_grows(p0 + p1, t10, p11);
    lemma_occurs_grows(p0 + p1, t11, p12);
    lemma_occurs_grows(p0 + p1, t12, p13);
    lemma_follows(t1, p2, p3);
    lemma_occurs_grows(p2 + p3, t3, p4);
    lemma_occurs_grows(p2 + p3, t4, p5);
    lemma_occurs_grows(p2 + p3, t5, p6);
    lemma_occurs_grows(p2 + p3, t6, p7);
    lemma_occurs_grows(p2 + p3, t7, p8);
    lemma_occurs_grows(p2 + p3, t8, p9);
    lemma_occurs_grows(p2 + p3, t9, p10);
    lemma_occurs_grows(p2 + p3, t10, p11);
    lemma_occurs_grows(p2 + p3, t11, p12);
    lemma_occurs_grows(p2 + p3, t12, p13);
    assert(t7 =~= t3 + (p4 + p5 + p6 + p7));
    lemma_stands(t3, p4 + p5 + p6 + p7);
    lemma_occurs_grows(p4 + p5 + p6 + p7, t7, p8);
    lemma_occurs_grows(p4 + p5 + p6 + p7, t8, p9);
    lemma_occurs_grows(p4 + p5 + p6 + p7, t9, p10);
    lemma_occurs_grows(p4 + p5 + p6 + p7, t10, p11);
    lemma_occurs_grows(p4 + p5 + p6 + p7, t11, p12);
    lemma_occurs_grows(p4 + p5 + p6 + p7, t12, p13);
    lemma_follows(t7, p8, p9);
    lemma_occurs_grows(p8 + p9, t9, p10);
    lemma_occurs_grows(p8 + p9, t10, p11);
    lemma_occurs_grows(p8 + p9, t11, p12);
    lemma_occurs_grows(p8 + p9, t12, p13);
    lemma_follows(t9, p10, p11);
    lemma_occurs_grows(p10 + p11, t11, p12);
    lemma_occurs_grows(p10 + p11, t12, p13);
    lemma_follows(t11, p12, p13);
}

/// The lines on where the sessions were found show each count behind its name: the table, the
/// older document, both together, each alone, the tombstones and the ghosts.
pub proof fn lemma_source_texts(c: Census, s: Seq<SessionHeader>, ghosts: u64)
    requires
        is_census(c, s),
    ensures
        source_texts(c, s.len(), ghosts).len() == 8,
        source_texts(c, s.len(), ghosts)[1] == "  composerHeaders 表:     "@ + decimal(
            how_many(s, |h: SessionHeader| h.in_header_table),
        ),
        source_texts(c, s.len(), ghosts)[2] == "  ItemTable 旧 blob:      "@ + decimal(
            how_many(s, |h: SessionHeader| h.in_legacy_blob),
        ),
        source_texts(c, s.len(), ghosts)[3] == "  并集(存活判定):         "@ + decimal(s.len()),
        source_texts(c, s.len(), ghosts)[4] == "  仅在表里 / 仅在 blob 里: "@ + decimal(
            how_many(s, |h: SessionHeader| h.in_header_table && !h.in_legacy_blob),
        ) + " / "@ + decimal(
            how_many(s, |h: SessionHeader| !h.in_header_table && h.in_legacy_blob),
        ),
        source_texts(c, s.len(), ghosts)[6] == "  疑似墓碑(isArchived=1 且无 name): "@ + decimal(
            how_many(s, |h: SessionHeader| h.is_archived && h.name is None),
        ),
        source_texts(c, s.len(), ghosts)[7] == "  幽灵 header(无对应 composerData): "@ + decimal(
            ghosts as nat,
        ),
{
}

/// The count of sessions that pass a test grows by one with each that does.
pub proof fn lemma_how_many(s: Seq<SessionHeader>, h: SessionHeader, f: spec_fn(SessionHeader) -> bool)
    ensures
        how_many(Seq::empty(), f) == 0,
        how_many(s.push(h), f) == how_many(s, f) + (if f(h) {
            1nat
        } else {
            0
        }),
{
    assert(s.push(h).drop_last() =~= s);
}

/// The report begins with where the sessions were found, ends with the latest sessions, and
/// holds the totals; a deep one lists the largest sessions, and no other does.
pub proof fn lemma_report_holds(
    c: Census,
    s: Seq<SessionHeader>,
    scan: ScanResult,
    deep: bool,
    percents: Seq<Seq<char>>,
    times: Seq<Seq<char>>,
    line: Seq<char>,
)
    ensures
        source_texts(c, s.len(), scan.ghost_headers).contains(line) || orphan_texts(
            scan.per_prefix@,
            percents,
            deep,
        ).contains(line) || total_texts(scan, deep).contains(line) || (deep && large_texts(
            s,
            scan,
        ).contains(line)) || late_texts(s, times, late_count(s.len()) as int).contains(line)
            ==> report_text(c, s, scan, deep, percents, times).contains(line),
{
    let a = source_texts(c, s.len(), scan.ghost_headers);
    let h = "\n== 孤儿行统计 == (cursorDiskKV 共 "@ + decimal(scan.total_rows as nat) + " 行)"@;
    let o = orphan_texts(scan.per_prefix@, percents, deep);
    let t = total_texts(scan, deep);
    let l1 = a.push(h) + o + t;
    crate::text::lemma_push_contains(a, h);
    crate::text::lemma_add_contains(a.push(h), o, line);
    crate::text::lemma_add_contains(a.push(h) + o, t, line);
    let big = "\n== 会话体积 Top 15 =="@;
    crate::text::lemma_push_contains(l1, big);
    crate::text::lemma_add_contains(l1.push(big), large_texts(s, scan), line);
    let l2 = if deep {
        l1.push(big) + large_texts(s, scan)
    } else {
        l1
    };
    let recent = "\n最近 10 个会话:"@;
    crate::text::lemma_push_contains(l2, recent);
    crate::text::lemma_add_contains(
        l2.push(recent),
        late_texts(s, times, late_count(s.len()) as int),
        line,
    );
}

/// The report lists every kind of which there are rows, the kind with the most rows first.
pub proof fn lemma_kinds_are_listed(t: Seq<PrefixStat>, i: int, j: int)
    requires
        t.len() == PREFIXES,
        0 <= i < j < heaviest_first(kind_items(t, PREFIXES as int)).len(),
    ensures
        ({
            let k = heaviest_first(kind_items(t, PREFIXES as int));
            t[k[i].0 as int].rows >= t[k[j].0 as int].rows && t[k[j].0 as int].rows > 0
        }),
{
    let k = kind_items(t, PREFIXES as int);
    let h = heaviest_first(k);
    lemma_heaviest_first(k);
    lemma_kind_item(t, PREFIXES as int);
    crate::text::lemma_permutation(h, k);
    assert(h.to_set().contains(h[i]) && h.to_set().contains(h[j])) by {
        assert(h.contains(h[i]) && h.contains(h[j]));
    }
    assert(k.contains(h[i]) && k.contains(h[j])) by {
        assert(k.to_set().contains(h[i]) && k.to_set().contains(h[j]));
    }
    assert(h[i].1 >= h[j].1);
}

proof fn lemma_kind_item(t: Seq<PrefixStat>, n: int)
    requires
        n <= t.len() <= PREFIXES,
    ensures
        forall|x: Item| #[trigger]
            kind_items(t, n).contains(x) ==> x.0 < n && x.1 == t[x.0 as int].rows && x.1 > 0,
        forall|m: int|
            0 <= m < n && (#[trigger] t[m]).rows > 0 ==> kind_items(t, n).contains(
                (m as usize, t[m].rows),
            ),
    decreases n,
{
    if n > 0 {
        lemma_kind_item(t, n - 1);
        crate::text::lemma_push_contains(kind_items(t, n - 1), ((n - 1) as usize, t[n - 1].rows));
    }
}

/// The largest sessions are listed from the largest down, fifteen at the most; the latest in
/// the order of the list, ten at the most.
pub proof fn lemma_lists_are_short(s: Seq<SessionHeader>, scan: ScanResult, times: Seq<Seq<char>>)
    requires
        scan.per_composer.order().len() <= usize::MAX,
    ensures
        large_texts(s, scan).len() == (if scan.per_composer.order().len() < 15 {
            scan.per_composer.order().len()
        } else {
            15
        }),
        late_texts(s, times, late_count(s.len()) as int).len() == (if s.len() < 10 {
            s.len()
        } else {
            10
        }),
        forall|i: int|
            0 <= i < 10 && i < s.len() ==> #[trigger] late_texts(
                s,
                times,
                late_count(s.len()) as int,
            )[i] == late_text(s[i], times[i]),
{
    let n = scan.per_composer.order().len() as int;
    lemma_owners_len(scan, n);
    lemma_heaviest_first(owner_items(scan, n));
    lemma_late_texts(s, times, late_count(s.len()) as int);
}

proof fn lemma_owners_len(scan: ScanResult, n: int)
    requires
        0 <= n,
    ensures
        owner_items(scan, n).len() == n,
    decreases n,
{
    if n > 0 {
        lemma_owners_len(scan, n - 1);
    }
}

proof fn lemma_late_texts(s: Seq<SessionHeader>, times: Seq<Seq<char>>, n: int)
    requires
        0 <= n,
    ensures
        late_texts(s, times, n).len() == n,
        forall|i: int| 0 <= i < n ==> #[trigger] late_texts(s, times, n)[i] == late_text(s[i], times[i]),
    decreases n,
{
    if n > 0 {
        lemma_late_texts(s, times, n - 1);
        assert forall|i: int| 0 <= i < n implies #[trigger] late_texts(s, times, n)[i] == late_text(
            s[i],
            times[i],
        ) by {
            if i < n - 1 {
                assert(late_texts(s, times, n - 1)[i] == late_text(s[i], times[i]));
            }
        }
    }
}

/// The line behind the sessions of a plan counts the rows that go and what they weigh; a line
/// on each kind of which there are any follows.
pub proof fn lemma_plan_line(plan: DeletePlan, trim: TrimPlan)
    ensures
        delete_plan_texts(plan).len() >= plan.targets@.len() + 2,
        delete_plan_texts(plan)[plan.targets@.len() as int + 1] == "将删除 cursorDiskKV "@ + decimal(
            plan.keys@.len(),
        ) + " 行 / "@ + byte_size(plan.total_bytes) + ":"@,
        trim.keys@.len() > 0 ==> trim_plan_texts(trim)[trim.targets@.len() as int + 1]
            == "将删除快照数据 "@ + decimal(trim.keys@.len()) + " 行 / "@ + byte_size(trim.total_bytes)
            + "(正文保留,影响仅限\"恢复到检查点\"):"@,
        forall|i: int|
            0 <= i < plan.targets@.len() ==> #[trigger] delete_plan_texts(plan)[i + 1] == goal_text(
                plan.targets@[i],
                true,
            ),
{
}

/// A session of a plan is shown by the beginning of its id and its name, and where asked by
/// where its header is.
pub proof fn lemma_goal_text(t: Target, sources: bool)
    ensures
        occurs(head(t.composer_id@, 8) + "  "@ + name_text(t.name), goal_text(t, sources)),
        sources && t.in_header_table && t.in_legacy_blob ==> occurs(
            "  [表+旧blob]"@,
            goal_text(t, sources),
        ),
        sources && t.in_header_table && !t.in_legacy_blob ==> occurs(
            "  [表]"@,
            goal_text(t, sources),
        ),
        sources && !t.in_header_table && t.in_legacy_blob ==> occurs(
            "  [仅旧blob]"@,
            goal_text(t, sources),
        ),
{
    let h = head(t.composer_id@, 8);
    let n = name_text(t.name);
    let a = "  "@ + h + "  "@ + n;
    let mark = goal_text(t, sources).skip(a.len() as int);
    assert(a =~= "  "@ + (h + "  "@ + n));
    lemma_stands("  "@, h + "  "@ + n);
    assert(goal_text(t, sources) =~= a + mark);
    lemma_occurs_grows(h + "  "@ + n, a, mark);
    if sources && t.in_header_table && t.in_legacy_blob {
        lemma_stands(a, "  [表+旧blob]"@);
    } else if sources && t.in_header_table {
        lemma_stands(a, "  [表]"@);
    } else if sources && t.in_legacy_blob {
        lemma_stands(a, "  [仅旧blob]"@);
    }
}

} // verus!
