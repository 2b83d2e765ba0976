//! What an operation does to the figures of the last scan, so that the table need not be
//! read again.

use crate::fx::NameSet;
use crate::gc::GcOutcome;
use crate::panes::wrapped;
use crate::scan::{
    kind_stat_ok, lemma_part_of_all, lemma_push_row, plain_stat_ok, rank, row_owner, scan_ok, tally,
    weigh, zero_stat, Figures, Owner, Prefix, PrefixStat, PrefixTable, RowView, ScanResult, Sel,
    SessionFigures, PREFIXES,
};
use crate::text::{same, views};
use vstd::prelude::*;

verus! {

broadcast use vstd::string::group_string_axioms;

/// What an operation took out of the store.
pub enum ScanPatch {
    /// All rows of these sessions.
    RemoveComposers(Vec<String>),
    /// The snapshots of these sessions.
    TrimPrefixes(Vec<String>),
    /// All rows of orphans, and all tombstones.
    SweepOrphans,
    /// Blobs and contents to which nothing leads.
    Gc { blob_rows: u64, blob_bytes: u64, content_rows: u64, content_bytes: u64 },
    /// No row.
    Nothing,
}

/// `a` less `b`, and nought where `b` is larger.
pub open spec fn less(a: u64, b: u64) -> u64 {
    if a < b {
        0
    } else {
        (a - b) as u64
    }
}

/// A count less the rows and the bytes of another.
pub open spec fn stat_less(a: PrefixStat, b: PrefixStat) -> PrefixStat {
    PrefixStat { rows: less(a.rows, b.rows), bytes: less(a.bytes, b.bytes), ..a }
}

/// The names other than one.
pub open spec fn others(s: Seq<Seq<char>>, x: Seq<char>) -> Seq<Seq<char>>
    decreases s.len(),
{
    if s.len() == 0 {
        Seq::empty()
    } else if s.last() == x {
        others(s.drop_last(), x)
    } else {
        others(s.drop_last(), x).push(s.last())
    }
}

/// The figures once all rows of a session are gone.
pub open spec fn without(f: Figures, id: Seq<char>) -> Figures {
    if f.sessions.contains_key(id) {
        let c = f.sessions[id];
        Figures {
            total_rows: less(f.total_rows, c.rows),
            kinds: Seq::new(PREFIXES as nat, |i: int| stat_less(f.kinds[i], c.kinds[i])),
            sessions: f.sessions.remove(id),
            orphans: others(f.orphans, id),
            ..f
        }
    } else {
        f
    }
}

/// The figures once all rows of some sessions are gone.
pub open spec fn without_all(f: Figures, ids: Seq<Seq<char>>) -> Figures
    decreases ids.len(),
{
    if ids.len() == 0 {
        f
    } else {
        without(without_all(f, ids.drop_last()), ids.last())
    }
}

/// The names that stay selected when sessions are taken out of the figures.
pub open spec fn still_selected(
    sel: Set<Seq<char>>,
    f: Figures,
    ids: Seq<Seq<char>>,
) -> Set<Seq<char>> {
    Set::new(|x: Seq<char>| sel.contains(x) && !(ids.contains(x) && f.sessions.contains_key(x)))
}

/// The figures once the rows of one kind of a session are gone.
pub open spec fn without_kind(f: Figures, id: Seq<char>, p: Prefix) -> Figures {
    if f.sessions.contains_key(id) {
        let c = f.sessions[id];
        let s = c.kinds[rank(p)];
        Figures {
            total_rows: less(f.total_rows, s.rows),
            kinds: f.kinds.update(rank(p), stat_less(f.kinds[rank(p)], s)),
            sessions: f.sessions.insert(
                id,
                SessionFigures {
                    rows: less(c.rows, s.rows),
                    bytes: less(c.bytes, s.bytes),
                    kinds: c.kinds.update(rank(p), zero_stat()),
                },
            ),
            ..f
        }
    } else {
        f
    }
}

/// The figures once the snapshots of a session are gone.
pub open spec fn trimmed_one(f: Figures, id: Seq<char>) -> Figures {
    without_kind(
        without_kind(without_kind(f, id, Prefix::CheckpointId), id, Prefix::OfsContent),
        id,
        Prefix::ComposerVirtualRowHeights,
    )
}

/// The figures once the snapshots of some sessions are gone.
pub open spec fn trimmed_all(f: Figures, ids: Seq<Seq<char>>) -> Figures
    decreases ids.len(),
{
    if ids.len() == 0 {
        f
    } else {
        trimmed_one(trimmed_all(f, ids.drop_last()), ids.last())
    }
}

/// The figures once the orphans and the tombstones are gone.
pub open spec fn swept(f: Figures) -> Figures {
    let g = without_all(Figures { orphans: Seq::empty(), ..f }, f.orphans);
    Figures {
        kinds: Seq::new(
            PREFIXES as nat,
            |i: int| PrefixStat { orphan_rows: 0, orphan_bytes: 0, ..g.kinds[i] },
        ),
        live_tombstone_rows: 0,
        condemned: Seq::empty(),
        ..g
    }
}

/// The figures once an operation is done.
pub open spec fn patched(f: Figures, patch: ScanPatch) -> Figures {
    match patch {
        ScanPatch::RemoveComposers(ids) => without_all(f, views(ids@)),
        ScanPatch::TrimPrefixes(ids) => trimmed_all(f, views(ids@)),
        ScanPatch::SweepOrphans => swept(f),
        ScanPatch::Gc { blob_rows, blob_bytes, content_rows, content_bytes } => Figures {
            total_rows: less(f.total_rows, wrapped((blob_rows + content_rows) as nat)),
            blob: PrefixStat {
                rows: less(f.blob.rows, blob_rows),
                bytes: less(f.blob.bytes, blob_bytes),
                ..f.blob
            },
            content: PrefixStat {
                rows: less(f.content.rows, content_rows),
                bytes: less(f.content.bytes, content_bytes),
                ..f.content
            },
            ..f
        },
        ScanPatch::Nothing => f,
    }
}

/// The selection once an operation is done.
pub open spec fn patched_selection(
    sel: Set<Seq<char>>,
    f: Figures,
    patch: ScanPatch,
) -> Set<Seq<char>> {
    match patch {
        ScanPatch::RemoveComposers(ids) => still_selected(sel, f, views(ids@)),
        ScanPatch::SweepOrphans => still_selected(sel, f, f.orphans),
        _ => sel,
    }
}

fn minus(a: u64, b: u64) -> (r: u64)
    ensures
        r == less(a, b),
{
    if a < b {
        0
    } else {
        a - b
    }
}

/// Takes the counts of a session off those of all.
fn table_minus(t: &mut PrefixTable, c: &PrefixTable)
    requires
        old(t).wf(),
        c.wf(),
    ensures
        final(t).wf(),
        final(t)@ == Seq::new(PREFIXES as nat, |i: int| stat_less(old(t)@[i], c@[i])),
{
    let ghost t0 = t@;
    let mut i: usize = 0;
    while i < PREFIXES
        invariant
            i <= PREFIXES,
            t.wf(),
            c.wf(),
            t0.len() == PREFIXES,
            forall|j: int| 0 <= j < i ==> #[trigger] t@[j] == stat_less(t0[j], c@[j]),
            forall|j: int| i <= j < PREFIXES ==> #[trigger] t@[j] == t0[j],
        decreases PREFIXES - i,
    {
        let p = Prefix::at(i);
        let a = t.get(p);
        let b = c.get(p);
        t.set(
            p,
            PrefixStat { rows: minus(a.rows, b.rows), bytes: minus(a.bytes, b.bytes), ..a },
        );
        i += 1;
    }
    assert(t@ =~= Seq::new(PREFIXES as nat, |i: int| stat_less(t0[i], c@[i])));
}

/// The names other than one.
fn keep_others(v: Vec<String>, x: &str) -> (r: Vec<String>)
    ensures
        views(r@) == others(views(v@), x@),
{
    let ghost vs = views(v@);
    let mut out: Vec<String> = Vec::new();
    let mut i: usize = 0;
    assert(views(out@) =~= others(vs.take(0), x@));
    while i < v.len()
        invariant
            i <= v@.len(),
            vs == views(v@),
            views(out@) == others(vs.take(i as int), x@),
        decreases v@.len() - i,
    {
        let ghost before = views(out@);
        proof {
            let t = vs.take(i + 1);
            assert(t.drop_last() =~= vs.take(i as int));
            assert(t.last() == v@[i as int]@);
        }
        if !same(v[i].as_str(), x) {
            out.push(v[i].clone());
            assert(views(out@) =~= before.push(v@[i as int]@));
        }
        i += 1;
    }
    assert(vs.take(i as int) =~= vs);
    out
}

/// Takes all rows of a session out of the figures, and the session out of the selection.
pub fn remove_composer_stats(scan: &mut ScanResult, selected: &mut NameSet, id: &str)
    requires
        old(scan).wf(),
    ensures
        final(scan).wf(),
        final(scan)@ == without(old(scan)@, id@),
        final(selected)@ == (if old(scan)@.sessions.contains_key(id@) {
            old(selected)@.remove(id@)
        } else {
            old(selected)@
        }),
{
    let ghost f = scan@;
    match scan.per_composer.remove(id) {
        None => {
            assert(scan@.sessions =~= f.sessions);
        },
        Some(c) => {
            scan.total_rows = minus(scan.total_rows, c.rows);
            table_minus(&mut scan.per_prefix, &c.per_prefix);
            let mut names: Vec<String> = Vec::new();
            std::mem::swap(&mut names, &mut scan.orphan_composers);
            scan.orphan_composers = keep_others(names, id);
            selected.remove(id);
            proof {
                assert(scan@.sessions =~= f.sessions.remove(id@));
            }
        },
    }
}

proof fn lemma_without_sessions(f: Figures, ids: Seq<Seq<char>>)
    ensures
        forall|x: Seq<char>| #[trigger]
            without_all(f, ids).sessions.contains_key(x) <==> f.sessions.contains_key(x)
                && !ids.contains(x),
    decreases ids.len(),
{
    if ids.len() > 0 {
        lemma_without_sessions(f, ids.drop_last());
        assert(ids =~= ids.drop_last().push(ids.last()));
        crate::text::lemma_push_contains(ids.drop_last(), ids.last());
        assert forall|x: Seq<char>| #[trigger]
            without_all(f, ids).sessions.contains_key(x) <==> f.sessions.contains_key(x)
                && !ids.contains(x) by {
            let g = without_all(f, ids.drop_last());
            assert(g.sessions.contains_key(x) <==> f.sessions.contains_key(x)
                && !ids.drop_last().contains(x));
        }
    }
}

fn remove_all(scan: &mut ScanResult, selected: &mut NameSet, ids: &[String])
    requires
        old(scan).wf(),
    ensures
        final(scan).wf(),
        final(scan)@ == without_all(old(scan)@, views(ids@)),
        final(selected)@ == still_selected(old(selected)@, old(scan)@, views(ids@)),
{
    let ghost f = scan@;
    let ghost sel = selected@;
    let ghost vs = views(ids@);
    let mut i: usize = 0;
    assert(selected@ =~= still_selected(sel, f, vs.take(0)));
    while i < ids.len()
        invariant
            i <= ids@.len(),
            vs == views(ids@),
            scan.wf(),
            scan@ == without_all(f, vs.take(i as int)),
            selected@ == still_selected(sel, f, vs.take(i as int)),
        decreases ids@.len() - i,
    {
        let ghost t = vs.take(i + 1);
        proof {
            assert(t.drop_last() =~= vs.take(i as int));
            assert(t.last() == ids@[i as int]@);
            lemma_without_sessions(f, vs.take(i as int));
            crate::text::lemma_take_contains(vs, i as int);
        }
        remove_composer_stats(scan, selected, ids[i].as_str());
        assert(selected@ =~= still_selected(sel, f, t));
        i += 1;
    }
    assert(vs.take(i as int) =~= vs);
}

/// Takes the rows of one kind of a session out of the figures.
fn remove_kind(scan: &mut ScanResult, id: &str, p: Prefix)
    requires
        old(scan).wf(),
    ensures
        final(scan).wf(),
        final(scan)@ == without_kind(old(scan)@, id@, p),
{
    let ghost f = scan@;
    let ghost m0 = scan.per_composer@;
    match scan.per_composer.remove(id) {
        None => {
            assert(scan@.sessions =~= f.sessions);
        },
        Some(c) => {
            let mut c = c;
            let s = c.per_prefix.get(p);
            c.per_prefix.set(p, PrefixStat::default());
            c.rows = minus(c.rows, s.rows);
            c.bytes = minus(c.bytes, s.bytes);
            let ghost c1 = c;
            scan.per_composer.insert(id.to_owned(), c);
            scan.total_rows = minus(scan.total_rows, s.rows);
            let g = scan.per_prefix.get(p);
            scan.per_prefix.set(
                p,
                PrefixStat { rows: minus(g.rows, s.rows), bytes: minus(g.bytes, s.bytes), ..g },
            );
            proof {
                assert(scan.per_composer@ =~= m0.insert(id@, c1));
                assert(scan@.sessions =~= f.sessions.insert(id@, c1@));
            }
        },
    }
}

fn trim_all(scan: &mut ScanResult, ids: &[String])
    requires
        old(scan).wf(),
    ensures
        final(scan).wf(),
        final(scan)@ == trimmed_all(old(scan)@, views(ids@)),
{
    let ghost f = scan@;
    let ghost vs = views(ids@);
    let mut i: usize = 0;
    while i < ids.len()
        invariant
            i <= ids@.len(),
            vs == views(ids@),
            scan.wf(),
            scan@ == trimmed_all(f, vs.take(i as int)),
        decreases ids@.len() - i,
    {
        proof {
            let t = vs.take(i + 1);
            assert(t.drop_last() =~= vs.take(i as int));
            assert(t.last() == ids@[i as int]@);
        }
        remove_kind(scan, ids[i].as_str(), Prefix::CheckpointId);
        remove_kind(scan, ids[i].as_str(), Prefix::OfsContent);
        remove_kind(scan, ids[i].as_str(), Prefix::ComposerVirtualRowHeights);
        i += 1;
    }
    assert(vs.take(i as int) =~= vs);
}

fn sweep_all(scan: &mut ScanResult, selected: &mut NameSet)
    requires
        old(scan).wf(),
    ensures
        final(scan).wf(),
        final(scan)@ == swept(old(scan)@),
        final(selected)@ == still_selected(old(selected)@, old(scan)@, old(scan)@.orphans),
{
    let ghost f = scan@;
    let mut names: Vec<String> = Vec::new();
    std::mem::swap(&mut names, &mut scan.orphan_composers);
    proof {
        assert(scan@.orphans =~= Seq::<Seq<char>>::empty());
        assert(scan@ == (Figures { orphans: Seq::empty(), ..f }));
    }
    let ghost sel = selected@;
    remove_all(scan, selected, names.as_slice());
    assert(selected@ =~= still_selected(sel, f, f.orphans));
    let ghost g = scan@;
    let ghost k0 = scan.per_prefix@;
    let mut i: usize = 0;
    while i < PREFIXES
        invariant
            i <= PREFIXES,
            scan.wf(),
            k0.len() == PREFIXES,
            scan@ == (Figures { kinds: scan.per_prefix@, ..g }),
            forall|j: int|
                0 <= j < i ==> #[trigger] scan.per_prefix@[j] == (PrefixStat {
                    orphan_rows: 0,
                    orphan_bytes: 0,
                    ..k0[j]
                }),
            forall|j: int| i <= j < PREFIXES ==> #[trigger] scan.per_prefix@[j] == k0[j],
        decreases PREFIXES - i,
    {
        let p = Prefix::at(i);
        let a = scan.per_prefix.get(p);
        scan.per_prefix.set(p, PrefixStat { orphan_rows: 0, orphan_bytes: 0, ..a });
        i += 1;
    }
    scan.live_tombstone_rows = 0;
    scan.condemned_keys = Vec::new();
    proof {
        assert(scan@.condemned =~= Seq::<Seq<char>>::empty());
        assert(scan@.kinds =~= swept(f).kinds);
    }
}

/// Brings the figures and the selection up to date after an operation.
pub fn apply_patch(scan: &mut ScanResult, selected: &mut NameSet, patch: &ScanPatch)
    requires
        old(scan).wf(),
    ensures
        final(scan).wf(),
        final(scan)@ == patched(old(scan)@, *patch),
        final(selected)@ == patched_selection(old(selected)@, old(scan)@, *patch),
{
    match patch {
        ScanPatch::RemoveComposers(ids) => remove_all(scan, selected, ids.as_slice()),
        ScanPatch::TrimPrefixes(ids) => trim_all(scan, ids.as_slice()),
        ScanPatch::SweepOrphans => sweep_all(scan, selected),
        ScanPatch::Gc { blob_rows, blob_bytes, content_rows, content_bytes } => {
            let b = scan.blob;
            scan.blob = PrefixStat {
                rows: minus(b.rows, *blob_rows),
                bytes: minus(b.bytes, *blob_bytes),
                ..b
            };
            let c = scan.content;
            scan.content = PrefixStat {
                rows: minus(c.rows, *content_rows),
                bytes: minus(c.bytes, *content_bytes),
                ..c
            };
            scan.total_rows = minus(scan.total_rows, blob_rows.wrapping_add(*content_rows));
        },
        ScanPatch::Nothing => {},
    }
}

/// What a collection took out of the store.
pub fn gc_patch(o: &GcOutcome) -> (r: ScanPatch)
    ensures
        r == (ScanPatch::Gc {
            blob_rows: o.plan.orphans@.len() as u64,
            blob_bytes: o.plan.orphan_bytes,
            content_rows: o.plan.content_orphans@.len() as u64,
            content_bytes: o.plan.content_orphan_bytes,
        }),
{
    ScanPatch::Gc {
        blob_rows: o.plan.orphans.len() as u64,
        blob_bytes: o.plan.orphan_bytes,
        content_rows: o.plan.content_orphans.len() as u64,
        content_bytes: o.plan.content_orphan_bytes,
    }
}

/// The figures count the rows of a table: all of them, those of each kind, and those of each
/// session, in all and by kind.
pub open spec fn counts(f: Figures, live: Set<Seq<char>>, rows: Seq<RowView>) -> bool {
    &&& f.total_rows == rows.len()
    &&& f.kinds.len() == PREFIXES
    &&& forall|p: Prefix|
        (#[trigger] f.kinds[rank(p)]).rows == tally(live, rows, Sel::Kind(p)) && f.kinds[rank(
            p,
        )].bytes == weigh(live, rows, Sel::Kind(p))
    &&& forall|c: Seq<char>|
        #[trigger] tally(live, rows, Sel::Session(c)) > 0 ==> f.sessions.contains_key(c)
    &&& forall|c: Seq<char>| #[trigger]
        f.sessions.contains_key(c) ==> session_counts(f.sessions[c], live, rows, c)
}

/// The figures count the rows of a session.
pub open spec fn session_counts(
    s: SessionFigures,
    live: Set<Seq<char>>,
    rows: Seq<RowView>,
    c: Seq<char>,
) -> bool {
    &&& s.rows == tally(live, rows, Sel::Session(c))
    &&& s.bytes == weigh(live, rows, Sel::Session(c))
    &&& s.kinds.len() == PREFIXES
    &&& forall|p: Prefix|
        (#[trigger] s.kinds[rank(p)]).rows == tally(live, rows, Sel::SessionKind(c, p))
            && s.kinds[rank(p)].bytes == weigh(live, rows, Sel::SessionKind(c, p))
}

/// The row is one of a session, and of a kind where one is named.
pub open spec fn row_of(row: RowView, id: Seq<char>, kind: Option<Prefix>) -> bool {
    row_owner(row) matches Owner::Owned(p, c) && c == id && (kind is None || kind == Some(p))
}

/// The rows that are left when those of a session go, all or those of one kind.
pub open spec fn left(rows: Seq<RowView>, id: Seq<char>, kind: Option<Prefix>) -> Seq<RowView>
    decreases rows.len(),
{
    if rows.len() == 0 {
        Seq::empty()
    } else if row_of(rows.last(), id, kind) {
        left(rows.drop_last(), id, kind)
    } else {
        left(rows.drop_last(), id, kind).push(rows.last())
    }
}

/// The rows that are left when those of some sessions go.
pub open spec fn left_all(rows: Seq<RowView>, ids: Seq<Seq<char>>) -> Seq<RowView>
    decreases ids.len(),
{
    if ids.len() == 0 {
        rows
    } else {
        left(left_all(rows, ids.drop_last()), ids.last(), None)
    }
}

/// The rows that are left when the snapshots of some sessions go.
pub open spec fn untrimmed(rows: Seq<RowView>, ids: Seq<Seq<char>>) -> Seq<RowView>
    decreases ids.len(),
{
    if ids.len() == 0 {
        rows
    } else {
        let id = ids.last();
        left(
            left(
                left(untrimmed(rows, ids.drop_last()), id, Some(Prefix::CheckpointId)),
                id,
                Some(Prefix::OfsContent),
            ),
            id,
            Some(Prefix::ComposerVirtualRowHeights),
        )
    }
}

/// The selection that picks the rows that go from among those that `sel` picks.
spec fn going(sel: Sel, id: Seq<char>, kind: Option<Prefix>) -> Option<Sel> {
    match sel {
        Sel::All => match kind {
            None => Some(Sel::Session(id)),
            Some(k) => Some(Sel::SessionKind(id, k)),
        },
        Sel::Kind(p) => if kind is None || kind == Some(p) {
            Some(Sel::SessionKind(id, p))
        } else {
            None
        },
        Sel::Session(c) => if c != id {
            None
        } else {
            match kind {
                None => Some(Sel::Session(id)),
                Some(k) => Some(Sel::SessionKind(id, k)),
            }
        },
        Sel::SessionKind(c, p) => if c == id && (kind is None || kind == Some(p)) {
            Some(Sel::SessionKind(id, p))
        } else {
            None
        },
        _ => None,
    }
}

proof fn lemma_left(
    live: Set<Seq<char>>,
    rows: Seq<RowView>,
    id: Seq<char>,
    kind: Option<Prefix>,
    sel: Sel,
)
    requires
        sel is All || sel is Kind || sel is Session || sel is SessionKind,
    ensures
        tally(live, rows, sel) == tally(live, left(rows, id, kind), sel) + (match going(
            sel,
            id,
            kind,
        ) {
            Some(g) => tally(live, rows, g),
            None => 0,
        }),
        weigh(live, rows, sel) == weigh(live, left(rows, id, kind), sel) + (match going(
            sel,
            id,
            kind,
        ) {
            Some(g) => weigh(live, rows, g),
            None => 0,
        }),
    decreases rows.len(),
{
    if rows.len() > 0 {
        let rest = rows.drop_last();
        lemma_left(live, rest, id, kind, sel);
        lemma_push_row(live, left(rest, id, kind), rows.last(), sel);
    }
}

proof fn lemma_left_len(
    live: Set<Seq<char>>,
    rows: Seq<RowView>,
    id: Seq<char>,
    kind: Option<Prefix>,
)
    ensures
        rows.len() == left(rows, id, kind).len() + (match kind {
            None => tally(live, rows, Sel::Session(id)),
            Some(k) => tally(live, rows, Sel::SessionKind(id, k)),
        }),
{
    lemma_left(live, rows, id, kind, Sel::All);
    lemma_part_of_all(live, rows, Sel::All);
    lemma_part_of_all(live, left(rows, id, kind), Sel::All);
}

/// Taking a session out of the figures gives the figures of the table without its rows.
pub proof fn lemma_without_counts(
    f: Figures,
    live: Set<Seq<char>>,
    rows: Seq<RowView>,
    id: Seq<char>,
)
    requires
        counts(f, live, rows),
    ensures
        counts(without(f, id), live, left(rows, id, None)),
{
    let g = without(f, id);
    let t = left(rows, id, None);
    lemma_left_len(live, rows, id, None);
    lemma_left(live, rows, id, None, Sel::Session(id));
    if !f.sessions.contains_key(id) {
        assert(!(tally(live, rows, Sel::Session(id)) > 0));
    }
    assert forall|p: Prefix|
        (#[trigger] g.kinds[rank(p)]).rows == tally(live, t, Sel::Kind(p)) && g.kinds[rank(
            p,
        )].bytes == weigh(live, t, Sel::Kind(p)) by {
        lemma_left(live, rows, id, None, Sel::Kind(p));
        assert(f.kinds[rank(p)].rows == tally(live, rows, Sel::Kind(p)));
        if f.sessions.contains_key(id) {
            assert(f.sessions[id].kinds[rank(p)].rows == tally(
                live,
                rows,
                Sel::SessionKind(id, p),
            ));
        } else {
            lemma_kind_of_session(live, rows, id, p);
        }
    }
    assert forall|c: Seq<char>|
        #[trigger] tally(live, t, Sel::Session(c)) > 0 implies g.sessions.contains_key(c) by {
        lemma_left(live, rows, id, None, Sel::Session(c));
    }
    assert forall|c: Seq<char>| #[trigger] g.sessions.contains_key(c) implies session_counts(
        g.sessions[c],
        live,
        t,
        c,
    ) by {
        assert(f.sessions.contains_key(c));
        if c != id {
            lemma_left(live, rows, id, None, Sel::Session(c));
            assert forall|p: Prefix|
                (#[trigger] g.sessions[c].kinds[rank(p)]).rows == tally(
                    live,
                    t,
                    Sel::SessionKind(c, p),
                ) && g.sessions[c].kinds[rank(p)].bytes == weigh(
                    live,
                    t,
                    Sel::SessionKind(c, p),
                ) by {
                lemma_left(live, rows, id, None, Sel::SessionKind(c, p));
                assert(f.sessions[c].kinds[rank(p)].rows == tally(
                    live,
                    rows,
                    Sel::SessionKind(c, p),
                ));
            }
        }
    }
}

proof fn lemma_kind_of_session(
    live: Set<Seq<char>>,
    rows: Seq<RowView>,
    id: Seq<char>,
    p: Prefix,
)
    ensures
        tally(live, rows, Sel::SessionKind(id, p)) <= tally(live, rows, Sel::Session(id)),
        tally(live, rows, Sel::Session(id)) == 0 ==> weigh(live, rows, Sel::SessionKind(id, p)) == 0,
    decreases rows.len(),
{
    if rows.len() > 0 {
        lemma_kind_of_session(live, rows.drop_last(), id, p);
    }
}

proof fn lemma_without_kind_counts(
    f: Figures,
    live: Set<Seq<char>>,
    rows: Seq<RowView>,
    id: Seq<char>,
    k: Prefix,
)
    requires
        counts(f, live, rows),
    ensures
        counts(without_kind(f, id, k), live, left(rows, id, Some(k))),
{
    let g = without_kind(f, id, k);
    let t = left(rows, id, Some(k));
    lemma_left_len(live, rows, id, Some(k));
    lemma_kind_of_session(live, rows, id, k);
    if f.sessions.contains_key(id) {
        assert(f.sessions[id].kinds[rank(k)].rows == tally(live, rows, Sel::SessionKind(id, k)));
    } else {
        assert(!(tally(live, rows, Sel::Session(id)) > 0));
    }
    assert forall|p: Prefix|
        (#[trigger] g.kinds[rank(p)]).rows == tally(live, t, Sel::Kind(p)) && g.kinds[rank(
            p,
        )].bytes == weigh(live, t, Sel::Kind(p)) by {
        lemma_left(live, rows, id, Some(k), Sel::Kind(p));
        assert(f.kinds[rank(p)].rows == tally(live, rows, Sel::Kind(p)));
    }
    assert forall|c: Seq<char>|
        #[trigger] tally(live, t, Sel::Session(c)) > 0 implies g.sessions.contains_key(c) by {
        lemma_left(live, rows, id, Some(k), Sel::Session(c));
    }
    assert forall|c: Seq<char>| #[trigger] g.sessions.contains_key(c) implies session_counts(
        g.sessions[c],
        live,
        t,
        c,
    ) by {
        assert(f.sessions.contains_key(c));
        lemma_left(live, rows, id, Some(k), Sel::Session(c));
        assert forall|p: Prefix|
            (#[trigger] g.sessions[c].kinds[rank(p)]).rows == tally(
                live,
                t,
                Sel::SessionKind(c, p),
            ) && g.sessions[c].kinds[rank(p)].bytes == weigh(live, t, Sel::SessionKind(c, p)) by {
            lemma_left(live, rows, id, Some(k), Sel::SessionKind(c, p));
            assert(f.sessions[c].kinds[rank(p)].rows == tally(live, rows, Sel::SessionKind(c, p)));
        }
    }
}

/// The figures of a scan count the rows of the table.
pub proof fn lemma_scan_counts(
    scan: ScanResult,
    live: Set<Seq<char>>,
    rows: Seq<RowView>,
    deep: bool,
    collect: bool,
)
    requires
        scan_ok(scan, live, rows, deep, collect),
    ensures
        counts(scan@, live, rows),
        scan.wf(),
{
    let f = scan@;
    assert forall|p: Prefix|
        (#[trigger] f.kinds[rank(p)]).rows == tally(live, rows, Sel::Kind(p)) && f.kinds[rank(
            p,
        )].bytes == weigh(live, rows, Sel::Kind(p)) by {
        assert(kind_stat_ok(scan.per_prefix@[rank(p)], live, rows, p));
    }
    assert forall|c: Seq<char>|
        #[trigger] tally(live, rows, Sel::Session(c)) > 0 implies f.sessions.contains_key(c) by {
        assert(scan.per_composer@.contains_key(c));
    }
    assert forall|c: Seq<char>| #[trigger] f.sessions.contains_key(c) implies session_counts(
        f.sessions[c],
        live,
        rows,
        c,
    ) by {
        assert(scan.per_composer@.contains_key(c));
        let s = scan.per_composer@[c];
        assert forall|p: Prefix|
            (#[trigger] f.sessions[c].kinds[rank(p)]).rows == tally(
                live,
                rows,
                Sel::SessionKind(c, p),
            ) && f.sessions[c].kinds[rank(p)].bytes == weigh(
                live,
                rows,
                Sel::SessionKind(c, p),
            ) by {
            assert(plain_stat_ok(s.per_prefix@[rank(p)], live, rows, Sel::SessionKind(c, p)));
        }
    }
}

/// After sessions were deleted, the figures are those of a table without their rows, as
/// another scan would find them.
pub proof fn lemma_delete_needs_no_scan(
    f: Figures,
    live: Set<Seq<char>>,
    rows: Seq<RowView>,
    ids: Seq<Seq<char>>,
)
    requires
        counts(f, live, rows),
    ensures
        counts(without_all(f, ids), live, left_all(rows, ids)),
    decreases ids.len(),
{
    if ids.len() > 0 {
        lemma_delete_needs_no_scan(f, live, rows, ids.drop_last());
        lemma_without_counts(
            without_all(f, ids.drop_last()),
            live,
            left_all(rows, ids.drop_last()),
            ids.last(),
        );
    }
}

/// After sessions were trimmed, the figures are those of a table without their snapshots.
pub proof fn lemma_trim_needs_no_scan(
    f: Figures,
    live: Set<Seq<char>>,
    rows: Seq<RowView>,
    ids: Seq<Seq<char>>,
)
    requires
        counts(f, live, rows),
    ensures
        counts(trimmed_all(f, ids), live, untrimmed(rows, ids)),
    decreases ids.len(),
{
    if ids.len() > 0 {
        let id = ids.last();
        let f0 = trimmed_all(f, ids.drop_last());
        let r0 = untrimmed(rows, ids.drop_last());
        lemma_trim_needs_no_scan(f, live, rows, ids.drop_last());
        lemma_without_kind_counts(f0, live, r0, id, Prefix::CheckpointId);
        let f1 = without_kind(f0, id, Prefix::CheckpointId);
        let r1 = left(r0, id, Some(Prefix::CheckpointId));
        lemma_without_kind_counts(f1, live, r1, id, Prefix::OfsContent);
        lemma_without_kind_counts(
            without_kind(f1, id, Prefix::OfsContent),
            live,
            left(r1, id, Some(Prefix::OfsContent)),
            id,
            Prefix::ComposerVirtualRowHeights,
        );
    }
}

/// After a sweep, the figures are those of a table without the rows of the orphans, no rows
/// of orphans are left to count, and no key is left to sweep.
pub proof fn lemma_sweep_needs_no_scan(f: Figures, live: Set<Seq<char>>, rows: Seq<RowView>)
    requires
        counts(f, live, rows),
    ensures
        counts(swept(f), live, left_all(rows, f.orphans)),
        swept(f).orphans.len() == 0,
        swept(f).condemned.len() == 0,
        swept(f).live_tombstone_rows == 0,
        forall|p: Prefix| (#[trigger] swept(f).kinds[rank(p)]).orphan_rows == 0,
{
    let h = Figures { orphans: Seq::empty(), ..f };
    assert(counts(h, live, rows)) by {
        assert forall|p: Prefix|
            (#[trigger] h.kinds[rank(p)]).rows == tally(live, rows, Sel::Kind(p)) && h.kinds[rank(
                p,
            )].bytes == weigh(live, rows, Sel::Kind(p)) by {
            assert(f.kinds[rank(p)].rows == tally(live, rows, Sel::Kind(p)));
        }
    }
    lemma_delete_needs_no_scan(h, live, rows, f.orphans);
    lemma_no_orphans(h, f.orphans);
    let g = without_all(h, f.orphans);
    let r = left_all(rows, f.orphans);
    let k = swept(f);
    assert forall|p: Prefix|
        (#[trigger] k.kinds[rank(p)]).rows == tally(live, r, Sel::Kind(p)) && k.kinds[rank(
            p,
        )].bytes == weigh(live, r, Sel::Kind(p)) by {
        assert(g.kinds[rank(p)].rows == tally(live, r, Sel::Kind(p)));
    }
}

proof fn lemma_no_orphans(f: Figures, ids: Seq<Seq<char>>)
    requires
        f.orphans.len() == 0,
    ensures
        without_all(f, ids).orphans.len() == 0,
    decreases ids.len(),
{
    if ids.len() > 0 {
        lemma_no_orphans(f, ids.drop_last());
    }
}

/// After a collection the figures count so many rows and bytes less of the blobs and of the
/// contents as went, and nothing else changes.
pub proof fn lemma_gc_takes(
    f: Figures,
    blob_rows: u64,
    blob_bytes: u64,
    content_rows: u64,
    content_bytes: u64,
)
    requires
        blob_rows <= f.blob.rows,
        blob_bytes <= f.blob.bytes,
        content_rows <= f.content.rows,
        content_bytes <= f.content.bytes,
        f.blob.rows + f.content.rows <= f.total_rows,
    ensures
        ({
            let g = patched(f, ScanPatch::Gc { blob_rows, blob_bytes, content_rows, content_bytes });
            &&& g.blob.rows + blob_rows == f.blob.rows
            &&& g.blob.bytes + blob_bytes == f.blob.bytes
            &&& g.content.rows + content_rows == f.content.rows
            &&& g.content.bytes + content_bytes == f.content.bytes
            &&& g.total_rows + blob_rows + content_rows == f.total_rows
            &&& g.kinds == f.kinds
            &&& g.sessions == f.sessions
            &&& g.orphans == f.orphans
            &&& g.other == f.other
            &&& g.condemned == f.condemned
            &&& g.ghost_headers == f.ghost_headers
            &&& g.live_tombstone_rows == f.live_tombstone_rows
            &&& g.sized == f.sized
        }),
{
}

/// What was selected stays selected, but for the sessions that went.
pub proof fn lemma_selection_stays(sel: Set<Seq<char>>, f: Figures, patch: ScanPatch, x: Seq<char>)
    ensures
        patched_selection(sel, f, patch).contains(x) ==> sel.contains(x),
        sel.contains(x) && !f.sessions.contains_key(x) ==> patched_selection(sel, f, patch).contains(
            x,
        ),
        sel.contains(x) && f.sessions.contains_key(x) ==> (patched_selection(
            sel,
            f,
            patch,
        ).contains(x) <==> match patch {
            ScanPatch::RemoveComposers(ids) => !views(ids@).contains(x),
            ScanPatch::SweepOrphans => !f.orphans.contains(x),
            _ => true,
        }),
{
}

proof fn lemma_row_left(rows: Seq<RowView>, id: Seq<char>, kind: Option<Prefix>, row: RowView)
    ensures
        left(rows, id, kind).contains(row) <==> rows.contains(row) && !row_of(row, id, kind),
    decreases rows.len(),
{
    if rows.len() > 0 {
        let d = rows.drop_last();
        lemma_row_left(d, id, kind, row);
        assert(rows =~= d.push(rows.last()));
        crate::text::lemma_push_contains(d, rows.last());
        crate::text::lemma_push_contains(left(d, id, kind), rows.last());
    }
}

/// The rows that are left of a table when sessions are deleted are those that none of them
/// owns.
pub proof fn lemma_left_all(rows: Seq<RowView>, ids: Seq<Seq<char>>, row: RowView)
    ensures
        left_all(rows, ids).contains(row) <==> rows.contains(row) && !(row_owner(row)
            matches Owner::Owned(_, c) && ids.contains(c)),
    decreases ids.len(),
{
    if ids.len() > 0 {
        let d = ids.drop_last();
        lemma_left_all(rows, d, row);
        lemma_row_left(left_all(rows, d), ids.last(), None, row);
        assert(ids =~= d.push(ids.last()));
        crate::text::lemma_push_contains(d, ids.last());
    }
}

/// The rows that are left of a table when sessions are trimmed are all but those of the kinds
/// that a full trim takes, of these sessions.
pub proof fn lemma_untrimmed(rows: Seq<RowView>, ids: Seq<Seq<char>>, row: RowView)
    ensures
        untrimmed(rows, ids).contains(row) <==> rows.contains(row) && !(row_owner(row)
            matches Owner::Owned(p, c) && ids.contains(c) && crate::trim::trimmable_kinds(
            false,
        ).contains(p)),
    decreases ids.len(),
{
    let k = crate::trim::trimmable_kinds(false);
    assert(k[0] == Prefix::ComposerVirtualRowHeights);
    assert(k[1] == Prefix::CheckpointId);
    assert(k[2] == Prefix::OfsContent);
    if ids.len() > 0 {
        let d = ids.drop_last();
        let id = ids.last();
        let r0 = untrimmed(rows, d);
        let r1 = left(r0, id, Some(Prefix::CheckpointId));
        let r2 = left(r1, id, Some(Prefix::OfsContent));
        lemma_untrimmed(rows, d, row);
        lemma_row_left(r0, id, Some(Prefix::CheckpointId), row);
        lemma_row_left(r1, id, Some(Prefix::OfsContent), row);
        lemma_row_left(r2, id, Some(Prefix::ComposerVirtualRowHeights), row);
        assert(ids =~= d.push(id));
        crate::text::lemma_push_contains(d, id);
    }
}

/// A session that was taken out of the figures is neither among their sessions nor among their
/// orphans; every other one is where it was, with the same figures.
pub proof fn lemma_without_one(f: Figures, id: Seq<char>, x: Seq<char>)
    requires
        f.sessions.contains_key(id),
    ensures
        !without(f, id).sessions.contains_key(id),
        !without(f, id).orphans.contains(id),
        x != id ==> (without(f, id).sessions.contains_key(x) <==> f.sessions.contains_key(x)),
        x != id && f.sessions.contains_key(x) ==> without(f, id).sessions[x] == f.sessions[x],
        x != id ==> (without(f, id).orphans.contains(x) <==> f.orphans.contains(x)),
        without(f, id).blob == f.blob && without(f, id).content == f.content && without(f, id).other
            == f.other,
{
    lemma_others(f.orphans, id, x);
    lemma_others(f.orphans, id, id);
}

proof fn lemma_others(s: Seq<Seq<char>>, id: Seq<char>, x: Seq<char>)
    ensures
        others(s, id).contains(x) <==> s.contains(x) && x != id,
    decreases s.len(),
{
    if s.len() > 0 {
        let d = s.drop_last();
        lemma_others(d, id, x);
        assert(s =~= d.push(s.last()));
        crate::text::lemma_push_contains(d, s.last());
        crate::text::lemma_push_contains(others(d, id), s.last());
    }
}

/// What an operation did to the figures is what its kind does: a deletion takes out all rows of
/// its sessions, trimming only those of the kinds it takes, and a sweep those of all orphans.
pub proof fn lemma_patched_counts(f: Figures, live: Set<Seq<char>>, rows: Seq<RowView>, p: ScanPatch)
    requires
        counts(f, live, rows),
    ensures
        p matches ScanPatch::RemoveComposers(ids) ==> counts(
            patched(f, p),
            live,
            left_all(rows, views(p->RemoveComposers_0@)),
        ),
        p matches ScanPatch::TrimPrefixes(ids) ==> counts(
            patched(f, p),
            live,
            untrimmed(rows, views(p->TrimPrefixes_0@)),
        ),
        p is SweepOrphans ==> counts(patched(f, p), live, left_all(rows, f.orphans)),
        p is Nothing ==> patched(f, p) == f,
{
    match p {
        ScanPatch::RemoveComposers(ids) => lemma_delete_needs_no_scan(f, live, rows, views(ids@)),
        ScanPatch::TrimPrefixes(ids) => lemma_trim_needs_no_scan(f, live, rows, views(ids@)),
        ScanPatch::SweepOrphans => lemma_sweep_needs_no_scan(f, live, rows),
        _ => {},
    }
}

} // verus!
