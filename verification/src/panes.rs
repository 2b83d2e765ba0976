//! What the panes show: the rows of the list of sessions, and the list of workspaces with
//! what they hold.

use crate::entries::Entry;
use crate::fx::IdMap;
use crate::headers::{opt_text, SessionHeader};
use crate::labels::{
    is_shared, label_among, label_of_home, lemma_told_apart, path_of, rivals, ws_name, ws_name_of,
};
use crate::lineage::{attach_of, collect_by_id, exists_id, is_descendant, Attach, Lineage};
use crate::scan::{scan_ok, tally, weigh, RowView, ScanResult, Sel};
use crate::text::{lex_lt, same, sorts_before, views};
use crate::types::lemma_to_set_push;
use crate::workspace::WorkspaceInfo;
use vstd::prelude::*;

verus! {

broadcast use vstd::string::group_string_axioms;

/// The rows of a session in the store.
pub open spec fn rows_of(scan: ScanResult, id: Seq<char>) -> u64 {
    if scan.per_composer@.contains_key(id) {
        scan.per_composer@[id].rows
    } else {
        0
    }
}

/// The bytes of a session in the store.
pub open spec fn bytes_of(scan: ScanResult, id: Seq<char>) -> u64 {
    if scan.per_composer@.contains_key(id) {
        scan.per_composer@[id].bytes
    } else {
        0
    }
}

fn stat_rows(scan: &ScanResult, id: &str) -> (r: u64)
    requires
        scan.per_composer.wf(),
    ensures
        r == rows_of(*scan, id@),
{
    match scan.per_composer.get(id) {
        Some(c) => c.rows,
        None => 0,
    }
}

pub(crate) fn stat_bytes(scan: &ScanResult, id: &str) -> (r: u64)
    requires
        scan.per_composer.wf(),
    ensures
        r == bytes_of(*scan, id@),
{
    match scan.per_composer.get(id) {
        Some(c) => c.bytes,
        None => 0,
    }
}

/// The sessions below one.
pub open spec fn below(kin: Seq<SessionHeader>, id: Seq<char>) -> Set<Seq<char>> {
    Set::new(|x: Seq<char>| is_descendant(kin, x, id))
}

/// The row of a session in the list.
pub open spec fn is_session_row(
    e: Entry,
    h: SessionHeader,
    kin: Seq<SessionHeader>,
    scan: ScanResult,
    known: Map<Seq<char>, WorkspaceInfo>,
    places: Seq<WsRow>,
) -> bool {
    let id = h.composer_id@;
    &&& e.composer_id@ == id
    &&& opt_text(e.name) == opt_text(h.name)
    &&& e.recency == h.recency
    &&& e.is_archived == h.is_archived
    &&& e.attach == Some(attach_of(kin, id))
    &&& e.rows == rows_of(scan, id)
    &&& e.bytes == (if scan.sized {
        Some(bytes_of(scan, id))
    } else {
        None
    })
    &&& e.descendants == below(kin, id).len()
    &&& opt_text(e.workspace_id) == opt_text(h.workspace_id)
    &&& opt_text(e.ws_label) == (match h.workspace_id {
        Some(w) => Some(ws_label(places, known, w@)),
        None => None,
    })
}

/// The row of what the store holds under an id without a header.
pub open spec fn is_orphan_row(e: Entry, id: Seq<char>, scan: ScanResult) -> bool {
    &&& e.composer_id@ == id
    &&& e.name is None
    &&& e.recency == 0
    &&& !e.is_archived
    &&& e.attach is None
    &&& e.rows == rows_of(scan, id)
    &&& e.bytes == (if scan.sized {
        Some(bytes_of(scan, id))
    } else {
        None
    })
    &&& e.descendants == 0
    &&& e.workspace_id is None
    &&& e.ws_label is None
}

/// The ids that are those of no session.
pub open spec fn strays(ids: Seq<Seq<char>>, s: Seq<SessionHeader>) -> Seq<Seq<char>>
    decreases ids.len(),
{
    if ids.len() == 0 {
        Seq::empty()
    } else if exists_id(s, ids.last()) {
        strays(ids.drop_last(), s)
    } else {
        strays(ids.drop_last(), s).push(ids.last())
    }
}

/// The rows of the list: one for each session, then one for each id that has rows in the
/// store and no header. Workspaces are called as in the rows `places`.
pub open spec fn are_rows(
    rows: Seq<Entry>,
    s: Seq<SessionHeader>,
    kin: Seq<SessionHeader>,
    scan: ScanResult,
    known: Map<Seq<char>, WorkspaceInfo>,
    places: Seq<WsRow>,
) -> bool {
    let left = strays(scan.per_composer.order(), s);
    &&& rows.len() == s.len() + left.len()
    &&& forall|i: int|
        0 <= i < s.len() ==> is_session_row(#[trigger] rows[i], s[i], kin, scan, known, places)
    &&& forall|i: int|
        s.len() <= i < rows.len() ==> is_orphan_row(#[trigger] rows[i], left[i - s.len()], scan)
}

proof fn lemma_strays(ids: Seq<Seq<char>>, s: Seq<SessionHeader>)
    ensures
        forall|x: Seq<char>| #[trigger]
            strays(ids, s).contains(x) <==> ids.contains(x) && !exists_id(s, x),
    decreases ids.len(),
{
    if ids.len() > 0 {
        lemma_strays(ids.drop_last(), s);
        assert(ids =~= ids.drop_last().push(ids.last()));
        crate::text::lemma_push_contains(ids.drop_last(), ids.last());
        crate::text::lemma_push_contains(strays(ids.drop_last(), s), ids.last());
    }
}

/// Every session, and every id that owns rows in the store, has a row in the list.
pub proof fn lemma_rows_are_complete(
    rows: Seq<Entry>,
    s: Seq<SessionHeader>,
    kin: Seq<SessionHeader>,
    scan: ScanResult,
    known: Map<Seq<char>, WorkspaceInfo>,
    places: Seq<WsRow>,
    id: Seq<char>,
)
    requires
        are_rows(rows, s, kin, scan, known, places),
        scan.per_composer.wf(),
        exists_id(s, id) || scan.per_composer@.contains_key(id),
    ensures
        exists|i: int| 0 <= i < rows.len() && (#[trigger] rows[i]).composer_id@ == id,
{
    if exists_id(s, id) {
        let i = choose|i: int| 0 <= i < s.len() && #[trigger] s[i].composer_id@ == id;
        assert(is_session_row(rows[i], s[i], kin, scan, known, places));
    } else {
        let order = scan.per_composer.order();
        let left = strays(order, s);
        scan.per_composer.lemma_order();
        assert(order.to_set().contains(id));
        lemma_strays(order, s);
        assert(left.contains(id));
        let k = choose|k: int| 0 <= k < left.len() && left[k] == id;
        assert(is_orphan_row(rows[k + s.len()], left[k], scan));
    }
}

pub(crate) fn sized(scan: &ScanResult, bytes: u64) -> (r: Option<u64>)
    ensures
        r == (if scan.sized {
            Some(bytes)
        } else {
            None
        }),
{
    if scan.sized {
        Some(bytes)
    } else {
        None
    }
}

/// How many sessions stand below one.
fn count_below(kin: &Lineage, id: &str) -> (r: usize)
    ensures
        r == below(kin.sessions(), id@).len(),
        below(kin.sessions(), id@).finite(),
{
    let list = kin.descendants_of(id);
    proof {
        lemma_below(kin.sessions(), id@, views(list@));
    }
    list.len()
}

/// A list of the sessions below one holds each of them once.
proof fn lemma_below(kin: Seq<SessionHeader>, id: Seq<char>, v: Seq<Seq<char>>)
    requires
        forall|x: Seq<char>| #[trigger] v.contains(x) <==> is_descendant(kin, x, id),
        crate::lineage::level_order(kin, seq![id] + v),
    ensures
        v.no_duplicates(),
        v.to_set() == below(kin, id),
        below(kin, id).finite(),
        below(kin, id).len() == v.len(),
{
    let q = seq![id] + v;
    assert forall|i: int, j: int| 0 <= i < v.len() && 0 <= j < v.len() && i != j implies v[i]
        != v[j] by {
        assert(q[i + 1] == v[i]);
        assert(q[j + 1] == v[j]);
    }
    assert(v.to_set() =~= below(kin, id));
    v.unique_seq_to_set();
}

/// A sum as a counter of 64 bits holds it.
pub open spec fn wrapped(n: nat) -> u64 {
    (n % 0x1_0000_0000_0000_0000) as u64
}

/// The sum of two sums.
pub(crate) fn both(a: u64, b: u64, Ghost(x): Ghost<nat>, Ghost(y): Ghost<nat>) -> (r: u64)
    requires
        a == wrapped(x),
        b == wrapped(y),
    ensures
        r == wrapped(x + y),
{
    a.wrapping_add(b)
}

/// The bytes of a set of sessions.
pub open spec fn bytes_in(scan: ScanResult, ids: Set<Seq<char>>) -> nat
    decreases ids.len(),
    when ids.finite()
{
    if ids.len() == 0 {
        0
    } else {
        let x = ids.choose();
        bytes_of(scan, x) as nat + bytes_in(scan, ids.remove(x))
    }
}

/// A session more in a set adds its own bytes.
pub proof fn lemma_bytes_insert(scan: ScanResult, ids: Set<Seq<char>>, x: Seq<char>)
    requires
        ids.finite(),
        !ids.contains(x),
    ensures
        bytes_in(scan, ids.insert(x)) == bytes_of(scan, x) + bytes_in(scan, ids),
    decreases ids.len(),
{
    let t = ids.insert(x);
    let y = t.choose();
    assert(t.len() == ids.len() + 1);
    assert(t.contains(y));
    if y == x {
        assert(t.remove(x) =~= ids);
    } else {
        let rest = ids.remove(y);
        assert(ids.contains(y));
        assert(t.remove(y) =~= rest.insert(x));
        assert(rest.insert(y) =~= ids);
        lemma_bytes_insert(scan, rest, x);
        lemma_bytes_insert(scan, rest, y);
    }
}

/// The bytes of a session and of all below it.
pub open spec fn tree_bytes(scan: ScanResult, kin: Seq<SessionHeader>, id: Seq<char>) -> nat {
    bytes_of(scan, id) as nat + bytes_in(scan, below(kin, id))
}

/// The bytes of a session and of all below it, once the sizes are known.
pub fn subtree_bytes(scan: &ScanResult, kin: &Lineage, id: &str) -> (r: Option<u64>)
    requires
        scan.per_composer.wf(),
    ensures
        r == (if scan.sized {
            Some(wrapped(tree_bytes(*scan, kin.sessions(), id@)))
        } else {
            None
        }),
{
    if !scan.sized {
        return None;
    }
    let subs = kin.descendants_of(id);
    let ghost v = views(subs@);
    proof {
        lemma_below(kin.sessions(), id@, v);
    }
    let own: u64 = stat_bytes(scan, id);
    let mut total: u64 = own;
    let mut i: usize = 0;
    assert(v.take(0).to_set() =~= Set::<Seq<char>>::empty());
    while i < subs.len()
        invariant
            i <= subs@.len(),
            v == views(subs@),
            v.no_duplicates(),
            own == bytes_of(*scan, id@),
            scan.per_composer.wf(),
            total == wrapped(own as nat + bytes_in(*scan, v.take(i as int).to_set())),
        decreases subs@.len() - i,
    {
        let b: u64 = stat_bytes(scan, subs[i].as_str());
        proof {
            let t = v.take(i as int);
            let x = v[i as int];
            assert(v.take(i + 1) =~= t.push(x));
            assert(!t.contains(x)) by {
                if t.contains(x) {
                    let k = choose|k: int| 0 <= k < t.len() && t[k] == x;
                    assert(v[k] == x);
                }
            }
            lemma_to_set_push(t, x);
            assert(!t.to_set().contains(x));
            lemma_bytes_insert(*scan, t.to_set(), x);
        }
        total = both(
            total,
            b,
            Ghost(own as nat + bytes_in(*scan, v.take(i as int).to_set())),
            Ghost(b as nat),
        );
        i += 1;
    }
    assert(v.take(i as int) =~= v);
    Some(total)
}

/// A row of the list of workspaces.
pub struct WsRow {
    /// Nothing for the row of all; empty for what belongs to no workspace.
    pub id: Option<String>,
    pub label: String,
    pub sessions: u64,
    /// Known once the sizes have been read.
    pub bytes: Option<u64>,
}

/// The workspace of a session; empty where it has none.
pub open spec fn home_of(h: SessionHeader) -> Seq<char> {
    match h.workspace_id {
        Some(w) => w@,
        None => Seq::empty(),
    }
}

/// The session is counted for a workspace, or for any where none is named.
pub open spec fn counts_for(
    kin: Seq<SessionHeader>,
    h: SessionHeader,
    wid: Option<Seq<char>>,
) -> bool {
    attach_of(kin, h.composer_id@) != Attach::Attached && (wid is None || wid == Some(home_of(h)))
}

/// How many sessions are counted for a workspace.
pub open spec fn count_in(
    s: Seq<SessionHeader>,
    kin: Seq<SessionHeader>,
    wid: Option<Seq<char>>,
) -> nat
    decreases s.len(),
{
    if s.len() == 0 {
        0
    } else {
        count_in(s.drop_last(), kin, wid) + if counts_for(kin, s.last(), wid) {
            1nat
        } else {
            0
        }
    }
}

/// The bytes of the sessions counted for a workspace, each with all below it.
pub open spec fn weight_in(
    s: Seq<SessionHeader>,
    kin: Seq<SessionHeader>,
    scan: ScanResult,
    wid: Option<Seq<char>>,
) -> nat
    decreases s.len(),
{
    if s.len() == 0 {
        0
    } else {
        weight_in(s.drop_last(), kin, scan, wid) + if scan.sized && counts_for(kin, s.last(), wid) {
            tree_bytes(scan, kin, s.last().composer_id@)
        } else {
            0
        }
    }
}

/// The row says what its workspace holds.
pub open spec fn is_ws_row(
    r: WsRow,
    s: Seq<SessionHeader>,
    kin: Seq<SessionHeader>,
    scan: ScanResult,
) -> bool {
    &&& r.sessions == count_in(s, kin, opt_text(r.id))
    &&& r.bytes == (if scan.sized {
        Some(wrapped(weight_in(s, kin, scan, opt_text(r.id))))
    } else {
        None
    })
}

/// The row stands before another: by its bytes, then by its sessions, both from the
/// largest down, then by its name.
pub open spec fn ws_first(a: WsRow, b: WsRow) -> bool {
    let (x, y) = (crate::entries::or_zero(a.bytes), crate::entries::or_zero(b.bytes));
    x > y || (x == y && (a.sessions > b.sessions || (a.sessions == b.sessions && lex_lt(
        a.label@,
        b.label@,
    ))))
}

/// The rows after the first stand in their order.
pub open spec fn ws_sorted(rows: Seq<WsRow>) -> bool {
    forall|i: int, j: int|
        0 <= i < j < rows.len() ==> !ws_first(#[trigger] rows[j], #[trigger] rows[i])
}

/// The list of workspaces: a row for all, then one for each workspace that has a session in
/// the list, and one for those of none.
pub open spec fn are_ws_rows(
    rows: Seq<WsRow>,
    s: Seq<SessionHeader>,
    kin: Seq<SessionHeader>,
    scan: ScanResult,
    known: Map<Seq<char>, WorkspaceInfo>,
) -> bool {
    &&& rows.len() > 0
    &&& rows[0].id is None
    &&& rows[0].label@ == "全部"@
    &&& forall|i: int| 0 <= i < rows.len() ==> is_ws_row(#[trigger] rows[i], s, kin, scan)
    &&& are_places(rows.skip(1), s, kin, known)
    &&& ws_sorted(rows.skip(1))
}

/// One row for each workspace that has a session in the list.
pub open spec fn are_places(
    rows: Seq<WsRow>,
    s: Seq<SessionHeader>,
    kin: Seq<SessionHeader>,
    known: Map<Seq<char>, WorkspaceInfo>,
) -> bool {
    &&& forall|i: int|
        0 <= i < rows.len() ==> (#[trigger] rows[i]).id is Some && rows[i].label@ == label_among(
            known,
            homes_of(s, kin),
            rows[i].id->0@,
        )
    &&& forall|i: int, j: int|
        0 <= i < j < rows.len() ==> (#[trigger] rows[i]).id->0@ != (#[trigger] rows[j]).id->0@
    &&& forall|w: Seq<char>| #[trigger]
        has_place(rows, w) <==> count_in(s, kin, Some(w)) > 0
    &&& told_apart_by_path(rows, known)
    &&& named_alone(rows, known)
}

/// Rows whose known folders differ have different labels.
pub open spec fn told_apart_by_path(
    rows: Seq<WsRow>,
    known: Map<Seq<char>, WorkspaceInfo>,
) -> bool {
    forall|i: int, j: int|
        0 <= i < j < rows.len() && path_of(known, (#[trigger] rows[i]).id->0@) is Some && path_of(
            known,
            (#[trigger] rows[j]).id->0@,
        ) is Some && path_of(known, rows[i].id->0@) != path_of(known, rows[j].id->0@)
            ==> rows[i].label@ != rows[j].label@
}

/// A row has the workspace's own name for its label, where no other row, of another folder,
/// has that name or a folder that ends in it.
pub open spec fn named_alone(rows: Seq<WsRow>, known: Map<Seq<char>, WorkspaceInfo>) -> bool {
    forall|i: int|
        0 <= i < rows.len() && (forall|j: int|
            0 <= j < rows.len() ==> !rivals(known, rows[i].id->0@, (#[trigger] rows[j]).id->0@))
            ==> (#[trigger] rows[i]).label@ == ws_name(known, rows[i].id->0@)
}

/// The workspaces that have a session in the list.
pub open spec fn homes_of(s: Seq<SessionHeader>, kin: Seq<SessionHeader>) -> Set<Seq<char>> {
    Set::new(|w: Seq<char>| count_in(s, kin, Some(w)) > 0)
}

/// The labels tell the rows apart, and are no longer than they need be.
proof fn lemma_labels(
    rows: Seq<WsRow>,
    s: Seq<SessionHeader>,
    kin: Seq<SessionHeader>,
    known: Map<Seq<char>, WorkspaceInfo>,
)
    requires
        forall|i: int|
            0 <= i < rows.len() ==> (#[trigger] rows[i]).id is Some && rows[i].label@
                == label_among(known, homes_of(s, kin), rows[i].id->0@),
        forall|w: Seq<char>| #[trigger] has_place(rows, w) <==> count_in(s, kin, Some(w)) > 0,
    ensures
        told_apart_by_path(rows, known),
        named_alone(rows, known),
{
    let homes = homes_of(s, kin);
    assert forall|i: int| 0 <= i < rows.len() implies homes.contains((#[trigger] rows[i]).id->0@) by {
        assert(opt_text(rows[i].id) == Some(rows[i].id->0@));
        assert(has_place(rows, rows[i].id->0@));
    }
    assert forall|i: int, j: int|
        0 <= i < j < rows.len() && path_of(known, (#[trigger] rows[i]).id->0@) is Some && path_of(
            known,
            (#[trigger] rows[j]).id->0@,
        ) is Some && path_of(known, rows[i].id->0@) != path_of(
            known,
            rows[j].id->0@,
        ) implies rows[i].label@ != rows[j].label@ by {
        lemma_told_apart(known, homes, rows[i].id->0@, rows[j].id->0@);
    }
    assert forall|i: int|
        0 <= i < rows.len() && (forall|j: int|
            0 <= j < rows.len() ==> !rivals(
                known,
                rows[i].id->0@,
                (#[trigger] rows[j]).id->0@,
            )) implies (#[trigger] rows[i]).label@ == ws_name(known, rows[i].id->0@) by {
        if is_shared(known, homes, rows[i].id->0@) {
            let w = choose|w: Seq<char>| #[trigger]
                homes.contains(w) && rivals(known, rows[i].id->0@, w);
            assert(has_place(rows, w));
            let j = choose|j: int| 0 <= j < rows.len() && opt_text((#[trigger] rows[j]).id) == Some(w);
            assert(!rivals(known, rows[i].id->0@, rows[j].id->0@));
        }
    }
}

/// Some row is that of the workspace.
pub open spec fn has_place(rows: Seq<WsRow>, w: Seq<char>) -> bool {
    exists|i: int| 0 <= i < rows.len() && opt_text((#[trigger] rows[i]).id) == Some(w)
}

fn ws_before(a: &WsRow, b: &WsRow) -> (r: bool)
    ensures
        r == ws_first(*a, *b),
{
    let x: u64 = crate::entries::value_or_zero(a.bytes);
    let y: u64 = crate::entries::value_or_zero(b.bytes);
    x > y || (x == y && (a.sessions > b.sessions || (a.sessions == b.sessions && sorts_before(
        a.label.as_str(),
        b.label.as_str(),
    ))))
}

proof fn lemma_ws_first(a: WsRow, b: WsRow, c: WsRow)
    ensures
        !(ws_first(a, b) && ws_first(b, a)),
        !ws_first(b, a) && !ws_first(c, b) ==> !ws_first(c, a),
{
    let (x, y, z) = (a.label@, b.label@, c.label@);
    crate::text::lemma_lex_irreflexive(x);
    crate::text::lemma_lex_irreflexive(y);
    crate::text::lemma_lex_irreflexive(z);
    crate::text::lemma_lex_total(x, y);
    crate::text::lemma_lex_total(y, z);
    crate::text::lemma_lex_total(x, z);
    if lex_lt(x, y) && lex_lt(y, x) {
        crate::text::lemma_lex_transitive(x, y, x);
    }
    if lex_lt(x, y) && lex_lt(y, z) {
        crate::text::lemma_lex_transitive(x, y, z);
    }
    if lex_lt(z, x) && lex_lt(x, y) {
        crate::text::lemma_lex_transitive(z, x, y);
    }
    if lex_lt(z, x) && lex_lt(y, z) {
        crate::text::lemma_lex_transitive(y, z, x);
    }
}

/// Puts a row at its place in a sorted list, and says where.
fn place_ws(rows: &mut Vec<WsRow>, x: WsRow) -> (k: usize)
    requires
        ws_sorted(old(rows)@),
    ensures
        k <= old(rows)@.len(),
        final(rows)@ == old(rows)@.insert(k as int, x),
        ws_sorted(final(rows)@),
{
    let mut k: usize = rows.len();
    let ghost s = rows@;
    while k > 0 && ws_before(&x, &rows[k - 1])
        invariant
            k <= rows@.len(),
            rows@ == s,
            forall|j: int| k <= j < s.len() ==> ws_first(x, #[trigger] s[j]),
        decreases k,
    {
        k -= 1;
    }
    rows.insert(k, x);
    proof {
        let t = rows@;
        assert forall|i: int, j: int| 0 <= i < j < t.len() implies !ws_first(
            #[trigger] t[j],
            #[trigger] t[i],
        ) by {
            if i == k {
                lemma_ws_first(x, s[j - 1], x);
            } else if j == k {
                if i < k - 1 {
                    assert(!ws_first(s[k - 1], s[i]));
                }
                lemma_ws_first(s[i], s[k - 1], x);
            } else {
                let a = if i < k {
                    i
                } else {
                    i - 1
                };
                let b = if j < k {
                    j
                } else {
                    j - 1
                };
                assert(!ws_first(s[b], s[a]));
            }
        }
    }
    k
}

/// What was counted for each workspace.
spec fn counted(
    agg: Map<Seq<char>, (u64, u64)>,
    s: Seq<SessionHeader>,
    kin: Seq<SessionHeader>,
    scan: ScanResult,
) -> bool {
    &&& forall|w: Seq<char>| #[trigger] agg.contains_key(w) <==> count_in(s, kin, Some(w)) > 0
    &&& forall|w: Seq<char>| #[trigger]
        agg.contains_key(w) ==> agg[w].0 == count_in(s, kin, Some(w)) && agg[w].1 == wrapped(
            weight_in(s, kin, scan, Some(w)),
        )
}

proof fn lemma_count_bound(s: Seq<SessionHeader>, kin: Seq<SessionHeader>, wid: Option<Seq<char>>)
    ensures
        count_in(s, kin, wid) <= s.len(),
    decreases s.len(),
{
    if s.len() > 0 {
        lemma_count_bound(s.drop_last(), kin, wid);
    }
}

proof fn lemma_no_count(
    s: Seq<SessionHeader>,
    kin: Seq<SessionHeader>,
    scan: ScanResult,
    wid: Option<Seq<char>>,
)
    requires
        count_in(s, kin, wid) == 0,
    ensures
        weight_in(s, kin, scan, wid) == 0,
    decreases s.len(),
{
    if s.len() > 0 {
        lemma_no_count(s.drop_last(), kin, scan, wid);
    }
}

proof fn lemma_counted_step(
    agg: Map<Seq<char>, (u64, u64)>,
    next: Map<Seq<char>, (u64, u64)>,
    s: Seq<SessionHeader>,
    h: SessionHeader,
    kin: Seq<SessionHeader>,
    scan: ScanResult,
)
    requires
        counted(agg, s, kin, scan),
        counts_for(kin, h, None),
        next.dom() =~= agg.dom().insert(home_of(h)),
        forall|w: Seq<char>| agg.contains_key(w) && w != home_of(h) ==> #[trigger] next[w] == agg[w],
        next[home_of(h)].0 == count_in(s, kin, Some(home_of(h))) + 1,
        next[home_of(h)].1 == wrapped(
            weight_in(s, kin, scan, Some(home_of(h))) + if scan.sized {
                tree_bytes(scan, kin, h.composer_id@)
            } else {
                0
            },
        ),
    ensures
        counted(next, s.push(h), kin, scan),
{
    let u = s.push(h);
    assert(u.drop_last() =~= s);
    assert forall|w: Seq<char>| #[trigger] next.contains_key(w) <==> count_in(u, kin, Some(w))
        > 0 by {
        assert(agg.contains_key(w) <==> count_in(s, kin, Some(w)) > 0);
    }
    assert forall|w: Seq<char>| #[trigger] next.contains_key(w) implies next[w].0 == count_in(
        u,
        kin,
        Some(w),
    ) && next[w].1 == wrapped(weight_in(u, kin, scan, Some(w))) by {
        if w != home_of(h) {
            assert(agg.contains_key(w));
            assert(next[w] == agg[w]);
        }
    }
}

proof fn lemma_not_counted(
    agg: Map<Seq<char>, (u64, u64)>,
    s: Seq<SessionHeader>,
    h: SessionHeader,
    kin: Seq<SessionHeader>,
    scan: ScanResult,
)
    requires
        counted(agg, s, kin, scan),
        !counts_for(kin, h, None),
    ensures
        counted(agg, s.push(h), kin, scan),
{
    let u = s.push(h);
    assert(u.drop_last() =~= s);
    assert forall|w: Seq<char>| #[trigger] agg.contains_key(w) <==> count_in(u, kin, Some(w))
        > 0 by {
        assert(agg.contains_key(w) <==> count_in(s, kin, Some(w)) > 0);
    }
}

/// The keys of the map, in their order.
fn list_keys(agg: &IdMap<(u64, u64)>) -> (r: Vec<String>)
    requires
        agg.wf(),
    ensures
        views(r@) == agg.order(),
{
    let ghost order = agg.order();
    let n: usize = agg.len();
    let mut out: Vec<String> = Vec::new();
    let mut i: usize = 0;
    assert(views(out@) =~= order.take(0));
    while i < n
        invariant
            i <= n,
            n == order.len(),
            order == agg.order(),
            agg.wf(),
            views(out@) == order.take(i as int),
        decreases n - i,
    {
        let ghost before = views(out@);
        out.push(agg.key(i).clone());
        proof {
            assert(views(out@) =~= before.push(order[i as int]));
            assert(order.take(i + 1) =~= order.take(i as int).push(order[i as int]));
        }
        i += 1;
    }
    assert(order.take(i as int) =~= order);
    out
}

/// The list of workspaces.
pub fn build_ws_rows(
    sessions: &[SessionHeader],
    kin: &Lineage,
    scan: &ScanResult,
    known: &IdMap<WorkspaceInfo>,
) -> (r: Vec<WsRow>)
    requires
        scan.per_composer.wf(),
        known.wf(),
    ensures
        are_ws_rows(r@, sessions@, kin.sessions(), *scan, known@),
{
    let ghost ks = kin.sessions();
    let mut agg: IdMap<(u64, u64)> = IdMap::new();
    let mut all_n: u64 = 0;
    let mut all_b: u64 = 0;
    let mut i: usize = 0;
    let len: usize = sessions.len();
    while i < len
        invariant
            i <= len,
            len == sessions@.len(),
            ks == kin.sessions(),
            scan.per_composer.wf(),
            agg.wf(),
            counted(agg@, sessions@.take(i as int), ks, *scan),
            all_n == count_in(sessions@.take(i as int), ks, None),
            all_b == wrapped(weight_in(sessions@.take(i as int), ks, *scan, None)),
        decreases len - i,
    {
        let h = &sessions[i];
        let ghost t = sessions@.take(i as int);
        let ghost u = sessions@.take(i + 1);
        let ghost agg0 = agg@;
        let ghost home = home_of(*h);
        proof {
            assert(u.drop_last() =~= t);
            assert(u.last() == *h);
        }
        if kin.attach(h.composer_id.as_str()) != Attach::Attached {
            let wid = match &h.workspace_id {
                Some(w) => w.clone(),
                None => String::new(),
            };
            assert(wid@ =~= home);
            let bytes: u64 = match subtree_bytes(scan, kin, h.composer_id.as_str()) {
                Some(b) => b,
                None => 0,
            };
            let (n0, b0): (u64, u64) = match agg.get(wid.as_str()) {
                Some(v) => *v,
                None => (0, 0),
            };
            proof {
                lemma_count_bound(t, ks, Some(home));
                lemma_count_bound(t, ks, None);
                if !agg@.contains_key(home) {
                    lemma_no_count(t, ks, *scan, Some(home));
                }
                assert(counts_for(ks, *h, Some(home)));
                assert(counts_for(ks, *h, None));
            }
            let ghost tb: nat = if scan.sized {
                tree_bytes(*scan, ks, h.composer_id@)
            } else {
                0
            };
            assert(bytes == wrapped(tb));
            agg.insert(
                wid,
                (n0 + 1, both(b0, bytes, Ghost(weight_in(t, ks, *scan, Some(home))), Ghost(tb))),
            );
            all_n += 1;
            all_b = both(all_b, bytes, Ghost(weight_in(t, ks, *scan, None)), Ghost(tb));
            proof {
                lemma_counted_step(agg0, agg@, t, *h, ks, *scan);
                assert(t.push(*h) =~= u);
            }
        } else {
            proof {
                lemma_not_counted(agg0, t, *h, ks, *scan);
                assert(t.push(*h) =~= u);
            }
        }
        i += 1;
    }
    assert(sessions@.take(i as int) =~= sessions@);
    proof {
        agg.lemma_order();
    }
    let ghost order = agg.order();
    let homes = list_keys(&agg);
    proof {
        assert(views(homes@).to_set() =~= homes_of(sessions@, ks)) by {
            assert forall|w: Seq<char>| order.to_set().contains(w) <==> homes_of(
                sessions@,
                ks,
            ).contains(w) by {
                assert(order.to_set().contains(w) <==> agg@.contains_key(w));
            }
        }
    }
    let mut rows: Vec<WsRow> = Vec::new();
    let m: usize = agg.len();
    let mut k: usize = 0;
    while k < m
        invariant
            k <= m,
            m == order.len(),
            order == agg.order(),
            order.no_duplicates(),
            ks == kin.sessions(),
            known.wf(),
            views(homes@).to_set() == homes_of(sessions@, ks),
            agg.wf(),
            counted(agg@, sessions@, ks, *scan),
            ws_sorted(rows@),
            forall|i: int|
                0 <= i < rows@.len() ==> (#[trigger] rows@[i]).id is Some && rows@[i].label@
                    == label_among(known@, homes_of(sessions@, ks), rows@[i].id->0@) && is_ws_row(
                    rows@[i],
                    sessions@,
                    ks,
                    *scan,
                ),
            forall|i: int, j: int|
                0 <= i < j < rows@.len() ==> (#[trigger] rows@[i]).id->0@ != (
                #[trigger] rows@[j]).id->0@,
            forall|w: Seq<char>| #[trigger]
                has_place(rows@, w) <==> order.take(k as int).contains(w),
        decreases m - k,
    {
        let wid = agg.key(k);
        let (n, b): (u64, u64) = *agg.value(k);
        let row = WsRow {
            label: label_of_home(known, homes.as_slice(), wid.as_str()),
            id: Some(wid.clone()),
            sessions: n,
            bytes: sized(scan, b),
        };
        let ghost s0 = rows@;
        let ghost x = row;
        let at: usize = place_ws(&mut rows, row);
        proof {
            let t = rows@;
            let a = at as int;
            crate::text::lemma_take_contains(order, k as int);
            assert(!order.take(k as int).contains(order[k as int])) by {
                if order.take(k as int).contains(order[k as int]) {
                    let j = choose|j: int|
                        0 <= j < k && order.take(k as int)[j] == order[k as int];
                    assert(order[j] == order[k as int]);
                }
            }
            assert(!has_place(s0, x.id->0@));
            assert(t[a] == x);
            assert forall|i: int| 0 <= i < t.len() implies (#[trigger] t[i]).id is Some
                && t[i].label@ == label_among(known@, homes_of(sessions@, ks), t[i].id->0@)
                && is_ws_row(
                t[i],
                sessions@,
                ks,
                *scan,
            ) by {
                if i < a {
                    assert(t[i] == s0[i]);
                } else if i > a {
                    assert(t[i] == s0[i - 1]);
                }
            }
            assert forall|i: int, j: int| 0 <= i < j < t.len() implies (#[trigger] t[i]).id->0@
                != (#[trigger] t[j]).id->0@ by {
                let p = if i < a {
                    i
                } else {
                    i - 1
                };
                let q = if j < a {
                    j
                } else {
                    j - 1
                };
                if i != a {
                    assert(t[i] == s0[p]);
                    assert(opt_text(s0[p].id) != Some(x.id->0@));
                }
                if j != a {
                    assert(t[j] == s0[q]);
                    assert(opt_text(s0[q].id) != Some(x.id->0@));
                }
            }
            assert forall|w: Seq<char>| #[trigger] has_place(t, w) <==> order.take(
                k + 1,
            ).contains(w) by {
                if has_place(t, w) {
                    let i = choose|i: int|
                        0 <= i < t.len() && opt_text((#[trigger] t[i]).id) == Some(w);
                    if i < a {
                        assert(opt_text(s0[i].id) == Some(w));
                        assert(has_place(s0, w));
                    } else if i > a {
                        assert(opt_text(s0[i - 1].id) == Some(w));
                        assert(has_place(s0, w));
                    }
                }
                if has_place(s0, w) {
                    let i = choose|i: int|
                        0 <= i < s0.len() && opt_text((#[trigger] s0[i]).id) == Some(w);
                    if i < a {
                        assert(opt_text(t[i].id) == Some(w));
                    } else {
                        assert(opt_text(t[i + 1].id) == Some(w));
                    }
                }
                if w == order[k as int] {
                    assert(opt_text(t[a].id) == Some(w));
                }
            }
        }
        k += 1;
    }
    let first = WsRow {
        id: None,
        label: "全部".to_owned(),
        sessions: all_n,
        bytes: sized(scan, all_b),
    };
    let ghost s0 = rows@;
    rows.insert(0, first);
    proof {
        assert(rows@.skip(1) =~= s0);
        assert(order.take(k as int) =~= order);
        assert forall|w: Seq<char>| #[trigger] has_place(s0, w) <==> count_in(
            sessions@,
            ks,
            Some(w),
        ) > 0 by {
            assert(order.to_set().contains(w) <==> agg@.contains_key(w));
        }
        lemma_labels(s0, sessions@, ks, known@);
        assert forall|i: int| 0 <= i < rows@.len() implies is_ws_row(
            #[trigger] rows@[i],
            sessions@,
            ks,
            *scan,
        ) by {
            if i > 0 {
                assert(rows@[i] == s0[i - 1]);
            }
        }
    }
    rows
}

/// The sessions of some rows.
pub open spec fn row_sum(rows: Seq<WsRow>) -> nat
    decreases rows.len(),
{
    if rows.len() == 0 {
        0
    } else {
        row_sum(rows.drop_last()) + rows.last().sessions as nat
    }
}

/// How many sessions in the list belong to a workspace that has a row among these.
spec fn count_covered(s: Seq<SessionHeader>, kin: Seq<SessionHeader>, rows: Seq<WsRow>) -> nat
    decreases s.len(),
{
    if s.len() == 0 {
        0
    } else {
        count_covered(s.drop_last(), kin, rows) + if counts_for(kin, s.last(), None) && has_place(
            rows,
            home_of(s.last()),
        ) {
            1nat
        } else {
            0
        }
    }
}

proof fn lemma_covered_push(
    s: Seq<SessionHeader>,
    kin: Seq<SessionHeader>,
    rows: Seq<WsRow>,
    r: WsRow,
)
    requires
        r.id is Some,
        !has_place(rows, r.id->0@),
    ensures
        count_covered(s, kin, rows.push(r)) == count_covered(s, kin, rows) + count_in(
            s,
            kin,
            Some(r.id->0@),
        ),
    decreases s.len(),
{
    if s.len() > 0 {
        lemma_covered_push(s.drop_last(), kin, rows, r);
        let w = home_of(s.last());
        let all = rows.push(r);
        if has_place(rows, w) {
            let i = choose|i: int|
                0 <= i < rows.len() && opt_text((#[trigger] rows[i]).id) == Some(w);
            assert(opt_text(all[i].id) == Some(w));
        }
        if has_place(all, w) && !has_place(rows, w) {
            let i = choose|i: int| 0 <= i < all.len() && opt_text((#[trigger] all[i]).id) == Some(w);
            if i < rows.len() {
                assert(opt_text(rows[i].id) == Some(w));
            }
        }
        if w == r.id->0@ {
            assert(opt_text(all[rows.len() as int].id) == Some(w));
        }
    }
}

proof fn lemma_row_sum(
    rows: Seq<WsRow>,
    s: Seq<SessionHeader>,
    kin: Seq<SessionHeader>,
    scan: ScanResult,
)
    requires
        forall|i: int| 0 <= i < rows.len() ==> is_ws_row(#[trigger] rows[i], s, kin, scan),
        forall|i: int| 0 <= i < rows.len() ==> (#[trigger] rows[i]).id is Some,
        forall|i: int, j: int|
            0 <= i < j < rows.len() ==> (#[trigger] rows[i]).id->0@ != (#[trigger] rows[j]).id->0@,
    ensures
        row_sum(rows) == count_covered(s, kin, rows),
    decreases rows.len(),
{
    if rows.len() == 0 {
        lemma_nothing_covered(s, kin, rows);
    } else {
        let rest = rows.drop_last();
        let r = rows.last();
        assert forall|i: int| 0 <= i < rest.len() implies is_ws_row(
            #[trigger] rest[i],
            s,
            kin,
            scan,
        ) by {
            assert(is_ws_row(rows[i], s, kin, scan));
        }
        lemma_row_sum(rest, s, kin, scan);
        assert(!has_place(rest, r.id->0@)) by {
            if has_place(rest, r.id->0@) {
                let i = choose|i: int|
                    0 <= i < rest.len() && opt_text((#[trigger] rest[i]).id) == Some(r.id->0@);
                assert(rows[i].id->0@ != rows[rows.len() - 1].id->0@);
            }
        }
        lemma_covered_push(s, kin, rest, r);
        assert(rest.push(r) =~= rows);
        assert(is_ws_row(rows[rows.len() - 1], s, kin, scan));
    }
}

proof fn lemma_nothing_covered(s: Seq<SessionHeader>, kin: Seq<SessionHeader>, rows: Seq<WsRow>)
    requires
        rows.len() == 0,
    ensures
        count_covered(s, kin, rows) == 0,
    decreases s.len(),
{
    if s.len() > 0 {
        lemma_nothing_covered(s.drop_last(), kin, rows);
    }
}

proof fn lemma_all_covered(
    s: Seq<SessionHeader>,
    all: Seq<SessionHeader>,
    kin: Seq<SessionHeader>,
    rows: Seq<WsRow>,
)
    requires
        s.len() <= all.len(),
        s == all.take(s.len() as int),
        forall|w: Seq<char>| #[trigger] has_place(rows, w) <==> count_in(all, kin, Some(w)) > 0,
    ensures
        count_covered(s, kin, rows) == count_in(s, kin, None),
    decreases s.len(),
{
    if s.len() > 0 {
        let t = s.drop_last();
        assert(t =~= all.take(t.len() as int));
        lemma_all_covered(t, all, kin, rows);
        if counts_for(kin, s.last(), None) {
            let w = home_of(s.last());
            assert(counts_for(kin, s.last(), Some(w)));
            assert(count_in(s, kin, Some(w)) > 0);
            lemma_count_grows(all, kin, Some(w), s.len() as int);
        }
    }
}

proof fn lemma_count_grows(
    all: Seq<SessionHeader>,
    kin: Seq<SessionHeader>,
    wid: Option<Seq<char>>,
    n: int,
)
    requires
        0 <= n <= all.len(),
    ensures
        count_in(all.take(n), kin, wid) <= count_in(all, kin, wid),
    decreases all.len(),
{
    if n < all.len() {
        let t = all.drop_last();
        assert(t.take(n) =~= all.take(n));
        lemma_count_grows(t, kin, wid, n);
    } else {
        assert(all.take(n) =~= all);
    }
}

/// The row of all counts what the rows of the workspaces count together: each session of
/// the list belongs to one of them.
pub proof fn lemma_all_is_the_sum(
    rows: Seq<WsRow>,
    s: Seq<SessionHeader>,
    kin: Seq<SessionHeader>,
    scan: ScanResult,
    known: Map<Seq<char>, WorkspaceInfo>,
)
    requires
        are_ws_rows(rows, s, kin, scan, known),
    ensures
        rows[0].sessions == row_sum(rows.skip(1)),
{
    let places = rows.skip(1);
    assert forall|i: int| 0 <= i < places.len() implies is_ws_row(
        #[trigger] places[i],
        s,
        kin,
        scan,
    ) by {
        assert(is_ws_row(rows[i + 1], s, kin, scan));
    }
    lemma_row_sum(places, s, kin, scan);
    assert(s.take(s.len() as int) =~= s);
    lemma_all_covered(s, s, kin, places);
    assert(is_ws_row(rows[0], s, kin, scan));
}

/// Where the row of the chosen workspace stands, or nought where there is none.
pub open spec fn ws_place(rows: Seq<WsRow>, ws: Option<Seq<char>>) -> int {
    if ws is Some && has_place(rows, ws->0) {
        first_place(rows, ws->0)
    } else {
        0
    }
}

/// The first row of a workspace.
pub open spec fn first_place(rows: Seq<WsRow>, w: Seq<char>) -> int
    decreases rows.len(),
{
    if rows.len() == 0 || opt_text(rows[0].id) == Some(w) {
        0
    } else {
        1 + first_place(rows.skip(1), w)
    }
}

proof fn lemma_first_place(rows: Seq<WsRow>, w: Seq<char>, k: int)
    requires
        0 <= k < rows.len(),
        opt_text(rows[k].id) == Some(w),
        forall|j: int| 0 <= j < k ==> opt_text((#[trigger] rows[j]).id) != Some(w),
    ensures
        first_place(rows, w) == k,
    decreases rows.len(),
{
    if k > 0 {
        let rest = rows.skip(1);
        assert(opt_text(rows[0].id) != Some(w));
        assert forall|j: int| 0 <= j < k - 1 implies opt_text((#[trigger] rest[j]).id) != Some(
            w,
        ) by {
            assert(opt_text(rows[j + 1].id) != Some(w));
        }
        lemma_first_place(rest, w, k - 1);
    }
}

/// What a workspace is called on the screen: as in its row, or by itself where it has none.
pub open spec fn ws_label(
    rows: Seq<WsRow>,
    known: Map<Seq<char>, WorkspaceInfo>,
    wid: Seq<char>,
) -> Seq<char> {
    if has_place(rows, wid) {
        rows[first_place(rows, wid)].label@
    } else {
        ws_name(known, wid)
    }
}

/// The place of the first row of a workspace.
fn find_place(rows: &[WsRow], w: &str) -> (r: Option<usize>)
    ensures
        match r {
            Some(k) => has_place(rows@, w@) && k == first_place(rows@, w@) && k < rows@.len(),
            None => !has_place(rows@, w@),
        },
{
    let mut k: usize = 0;
    while k < rows.len()
        invariant
            k <= rows@.len(),
            forall|j: int| 0 <= j < k ==> opt_text((#[trigger] rows@[j]).id) != Some(w@),
        decreases rows@.len() - k,
    {
        let here = match &rows[k].id {
            Some(id) => same(id.as_str(), w),
            None => false,
        };
        if here {
            proof {
                assert(opt_text(rows@[k as int].id) == Some(w@));
                lemma_first_place(rows@, w@, k as int);
            }
            return Some(k);
        }
        k += 1;
    }
    None
}

/// What a workspace is called on the screen.
pub fn ws_label_of(rows: &[WsRow], known: &IdMap<WorkspaceInfo>, wid: &str) -> (r: String)
    requires
        known.wf(),
    ensures
        r@ == ws_label(rows@, known@, wid@),
{
    match find_place(rows, wid) {
        Some(k) => rows[k].label.clone(),
        None => ws_name_of(known, wid),
    }
}

/// Where the row of the chosen workspace stands, or nought where there is none.
pub fn ws_cursor(rows: &[WsRow], ws: &Option<String>) -> (r: usize)
    ensures
        r == ws_place(rows@, opt_text(*ws)),
        r < rows@.len() || r == 0,
{
    match ws {
        Some(w) => match find_place(rows, w.as_str()) {
            Some(k) => k,
            None => 0,
        },
        None => 0,
    }
}

/// The rows of the list.
pub fn build_entries(
    sessions: &[SessionHeader],
    kin: &Lineage,
    scan: &ScanResult,
    known: &IdMap<WorkspaceInfo>,
    places: &[WsRow],
) -> (r: Vec<Entry>)
    requires
        scan.per_composer.wf(),
        known.wf(),
    ensures
        are_rows(r@, sessions@, kin.sessions(), *scan, known@, places@),
{
    let by_id = collect_by_id(sessions);
    let mut out: Vec<Entry> = Vec::new();
    let mut i: usize = 0;
    while i < sessions.len()
        invariant
            i <= sessions@.len(),
            out@.len() == i,
            scan.per_composer.wf(),
            known.wf(),
            forall|j: int|
                0 <= j < i ==> is_session_row(
                    #[trigger] out@[j],
                    sessions@[j],
                    kin.sessions(),
                    *scan,
                    known@,
                    places@,
                ),
        decreases sessions@.len() - i,
    {
        let s = &sessions[i];
        let id = s.composer_id.as_str();
        let ws_label = match &s.workspace_id {
            Some(w) => Some(ws_label_of(places, known, w.as_str())),
            None => None,
        };
        let e = Entry {
            composer_id: s.composer_id.clone(),
            name: s.name.clone(),
            recency: s.recency,
            is_archived: s.is_archived,
            attach: Some(kin.attach(id)),
            rows: stat_rows(scan, id),
            bytes: sized(scan, stat_bytes(scan, id)),
            descendants: count_below(kin, id),
            workspace_id: s.workspace_id.clone(),
            ws_label,
        };
        out.push(e);
        i += 1;
    }
    let ghost n = out@.len() as int;
    let ghost order = scan.per_composer.order();
    let m: usize = scan.per_composer.len();
    let mut k: usize = 0;
    while k < m
        invariant
            k <= m,
            m == order.len(),
            order == scan.per_composer.order(),
            n == sessions@.len(),
            scan.per_composer.wf(),
            by_id.wf(),
            forall|x: Seq<char>| #[trigger]
                by_id@.contains_key(x) <==> exists_id(sessions@, x),
            out@.len() == n + strays(order.take(k as int), sessions@).len(),
            forall|j: int|
                0 <= j < n ==> is_session_row(
                    #[trigger] out@[j],
                    sessions@[j],
                    kin.sessions(),
                    *scan,
                    known@,
                    places@,
                ),
            forall|j: int|
                n <= j < out@.len() ==> is_orphan_row(
                    #[trigger] out@[j],
                    strays(order.take(k as int), sessions@)[j - n],
                    *scan,
                ),
        decreases m - k,
    {
        let cid = scan.per_composer.key(k);
        let ghost t = order.take(k + 1);
        assert(t.drop_last() =~= order.take(k as int));
        assert(t.last() == cid@);
        if !by_id.contains(cid.as_str()) {
            let stat = scan.per_composer.value(k);
            let e = Entry {
                composer_id: cid.clone(),
                name: None,
                recency: 0,
                is_archived: false,
                attach: None,
                rows: stat.rows,
                bytes: sized(scan, stat.bytes),
                descendants: 0,
                workspace_id: None,
                ws_label: None,
            };
            out.push(e);
        }
        k += 1;
    }
    assert(order.take(k as int) =~= order);
    out
}

/// Sessions of the list whose workspaces have different folders have different names of
/// workspaces in their rows.
pub proof fn lemma_rows_tell_workspaces_apart(
    rows: Seq<Entry>,
    s: Seq<SessionHeader>,
    kin: Seq<SessionHeader>,
    scan: ScanResult,
    known: Map<Seq<char>, WorkspaceInfo>,
    places: Seq<WsRow>,
    i: int,
    j: int,
)
    requires
        are_ws_rows(places, s, kin, scan, known),
        are_rows(rows, s, kin, scan, known, places),
        0 <= i < s.len(),
        0 <= j < s.len(),
        counts_for(kin, s[i], None),
        counts_for(kin, s[j], None),
        path_of(known, home_of(s[i])) is Some,
        path_of(known, home_of(s[j])) is Some,
        path_of(known, home_of(s[i])) != path_of(known, home_of(s[j])),
    ensures
        opt_text(rows[i].ws_label) != opt_text(rows[j].ws_label),
{
    let (v, w) = (home_of(s[i]), home_of(s[j]));
    lemma_has_row(places, s, kin, scan, known, i);
    lemma_has_row(places, s, kin, scan, known, j);
    lemma_told_apart(known, homes_of(s, kin), v, w);
    assert(is_session_row(rows[i], s[i], kin, scan, known, places));
    assert(is_session_row(rows[j], s[j], kin, scan, known, places));
}

/// The row of a session's workspace is called as among all that have a row.
proof fn lemma_has_row(
    places: Seq<WsRow>,
    s: Seq<SessionHeader>,
    kin: Seq<SessionHeader>,
    scan: ScanResult,
    known: Map<Seq<char>, WorkspaceInfo>,
    i: int,
)
    requires
        are_ws_rows(places, s, kin, scan, known),
        0 <= i < s.len(),
        counts_for(kin, s[i], None),
    ensures
        homes_of(s, kin).contains(home_of(s[i])),
        ws_label(places, known, home_of(s[i])) == label_among(
            known,
            homes_of(s, kin),
            home_of(s[i]),
        ),
{
    let w = home_of(s[i]);
    let t = s.take(i + 1);
    assert(t.last() == s[i]);
    assert(counts_for(kin, s[i], Some(w)));
    assert(count_in(t, kin, Some(w)) > 0);
    lemma_count_grows(s, kin, Some(w), i + 1);
    let rest = places.skip(1);
    assert(has_place(rest, w));
    let k = choose|k: int| 0 <= k < rest.len() && opt_text((#[trigger] rest[k]).id) == Some(w);
    assert(places[k + 1] == rest[k]);
    assert forall|j: int| 0 <= j < k + 1 implies opt_text((#[trigger] places[j]).id) != Some(w) by {
        if j > 0 {
            assert(places[j] == rest[j - 1]);
            assert(rest[j - 1].id->0@ != rest[k].id->0@);
        }
    }
    assert(opt_text(places[k + 1].id) == Some(w));
    lemma_first_place(places, w, k + 1);
}

/// What is not counted weighs nothing.
proof fn lemma_weigh_none(live: Set<Seq<char>>, table: Seq<RowView>, sel: Sel)
    requires
        tally(live, table, sel) == 0,
    ensures
        weigh(live, table, sel) == 0,
    decreases table.len(),
{
    if table.len() > 0 {
        lemma_weigh_none(live, table.drop_last(), sel);
    }
}

/// What a scan counted of a session is what the table holds of it.
proof fn lemma_figures(
    scan: ScanResult,
    live: Set<Seq<char>>,
    table: Seq<RowView>,
    deep: bool,
    collect: bool,
    id: Seq<char>,
)
    requires
        scan_ok(scan, live, table, deep, collect),
    ensures
        rows_of(scan, id) == tally(live, table, Sel::Session(id)),
        bytes_of(scan, id) == weigh(live, table, Sel::Session(id)),
{
    if !scan.per_composer@.contains_key(id) {
        assert(tally(live, table, Sel::Session(id)) == 0);
        lemma_weigh_none(live, table, Sel::Session(id));
    }
}

/// The list shows of each session what its header says, where it stands, and how many rows of
/// the scanned table are its own and what they weigh.
pub proof fn lemma_session_row(
    rows: Seq<Entry>,
    s: Seq<SessionHeader>,
    kin: Seq<SessionHeader>,
    scan: ScanResult,
    known: Map<Seq<char>, WorkspaceInfo>,
    places: Seq<WsRow>,
    live: Set<Seq<char>>,
    table: Seq<RowView>,
    deep: bool,
    collect: bool,
    i: int,
)
    requires
        are_rows(rows, s, kin, scan, known, places),
        scan_ok(scan, live, table, deep, collect),
        0 <= i < s.len(),
    ensures
        rows[i].composer_id@ == s[i].composer_id@,
        opt_text(rows[i].name) == opt_text(s[i].name),
        rows[i].recency == s[i].recency,
        rows[i].is_archived == s[i].is_archived,
        opt_text(rows[i].workspace_id) == opt_text(s[i].workspace_id),
        rows[i].attach == Some(attach_of(kin, s[i].composer_id@)),
        rows[i].rows == tally(live, table, Sel::Session(s[i].composer_id@)),
        deep ==> rows[i].bytes == Some(weigh(live, table, Sel::Session(s[i].composer_id@)) as u64),
        !deep ==> rows[i].bytes is None,
        rows[i].descendants == Set::new(
            |x: Seq<char>| is_descendant(kin, x, s[i].composer_id@),
        ).len(),
        s[i].workspace_id is Some <==> rows[i].ws_label is Some,
{
    assert(is_session_row(rows[i], s[i], kin, scan, known, places));
    lemma_figures(scan, live, table, deep, collect, s[i].composer_id@);
}

/// Behind the sessions the list shows the owners of rows that are none of them, and of each
/// how many rows it owns and what they weigh; it has no name, no workspace and no place.
pub proof fn lemma_stray_row(
    rows: Seq<Entry>,
    s: Seq<SessionHeader>,
    kin: Seq<SessionHeader>,
    scan: ScanResult,
    known: Map<Seq<char>, WorkspaceInfo>,
    places: Seq<WsRow>,
    live: Set<Seq<char>>,
    table: Seq<RowView>,
    deep: bool,
    collect: bool,
    i: int,
)
    requires
        are_rows(rows, s, kin, scan, known, places),
        scan_ok(scan, live, table, deep, collect),
        s.len() <= i < rows.len(),
    ensures
        !exists_id(s, rows[i].composer_id@),
        rows[i].rows == tally(live, table, Sel::Session(rows[i].composer_id@)),
        rows[i].rows > 0,
        deep ==> rows[i].bytes == Some(
            weigh(live, table, Sel::Session(rows[i].composer_id@)) as u64,
        ),
        !deep ==> rows[i].bytes is None,
        rows[i].attach is None,
        rows[i].name is None,
        rows[i].workspace_id is None,
        !rows[i].is_archived,
        rows[i].recency == 0,
{
    let order = scan.per_composer.order();
    let left = strays(order, s);
    let id = left[i - s.len()];
    assert(is_orphan_row(rows[i], id, scan));
    assert(left.contains(id));
    lemma_strays(order, s);
    scan.per_composer.lemma_order();
    assert(order.to_set().contains(id));
    assert(scan.per_composer@.contains_key(id));
    lemma_figures(scan, live, table, deep, collect, id);
}

/// A workspace counts each session of the list that belongs to it, or each at all for the row
/// of all; one that stands below another is not in the list.
pub proof fn lemma_count_in(
    s: Seq<SessionHeader>,
    h: SessionHeader,
    kin: Seq<SessionHeader>,
    scan: ScanResult,
    w: Seq<char>,
)
    ensures
        count_in(s.push(h), kin, None) == count_in(s, kin, None)
            + (if attach_of(kin, h.composer_id@)
            != Attach::Attached {
            1nat
        } else {
            0
        }),
        count_in(s.push(h), kin, Some(w)) == count_in(s, kin, Some(w)) + (if attach_of(
            kin,
            h.composer_id@,
        ) != Attach::Attached && w == (match h.workspace_id {
            Some(x) => x@,
            None => Seq::empty(),
        }) {
            1nat
        } else {
            0
        }),
        scan.sized ==> weight_in(s.push(h), kin, scan, Some(w)) == weight_in(
            s,
            kin,
            scan,
            Some(w),
        ) + (if attach_of(kin, h.composer_id@) != Attach::Attached && w == (match h.workspace_id {
            Some(x) => x@,
            None => Seq::empty(),
        }) {
            bytes_of(scan, h.composer_id@) as nat + bytes_in(scan, below(kin, h.composer_id@))
        } else {
            0
        }),
{
    assert(s.push(h).drop_last() =~= s);
    assert(s.push(h).last() == h);
}

/// The list of workspaces begins with all of them. The others fall from the largest to the
/// smallest, those of one size from the most sessions to the fewest, and stand in the order of
/// their names where they agree in both.
pub proof fn lemma_ws_order(
    rows: Seq<WsRow>,
    s: Seq<SessionHeader>,
    kin: Seq<SessionHeader>,
    scan: ScanResult,
    known: Map<Seq<char>, WorkspaceInfo>,
    i: int,
    j: int,
)
    requires
        are_ws_rows(rows, s, kin, scan, known),
        1 <= i < j < rows.len(),
    ensures
        rows[0].id is None && rows[0].label@ == "全部"@,
        rows[0].sessions == count_in(s, kin, None),
        rows[i].sessions == count_in(s, kin, opt_text(rows[i].id)) && rows[i].sessions > 0,
        scan.sized ==> rows[i].bytes is Some && rows[j].bytes is Some && rows[i].bytes->0
            >= rows[j].bytes->0,
        scan.sized && rows[i].bytes == rows[j].bytes ==> rows[i].sessions >= rows[j].sessions,
        !scan.sized ==> rows[i].sessions >= rows[j].sessions,
        rows[i].bytes == rows[j].bytes && rows[i].sessions == rows[j].sessions ==> !lex_lt(
            rows[j].label@,
            rows[i].label@,
        ),
{
    let p = rows.skip(1);
    assert(p[i - 1] == rows[i] && p[j - 1] == rows[j]);
    assert(!ws_first(p[j - 1], p[i - 1]));
    assert(is_ws_row(rows[0], s, kin, scan));
    assert(is_ws_row(rows[i], s, kin, scan));
    assert(is_ws_row(rows[j], s, kin, scan));
    assert(p[i - 1].id is Some);
    assert(has_place(p, p[i - 1].id->0@)) by {
        assert(opt_text(p[i - 1].id) == Some(p[i - 1].id->0@));
    }
}

} // verus!
