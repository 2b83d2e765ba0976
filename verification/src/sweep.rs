//! Sweeping away what no session owns any more.
//!
//! Three kinds of dead data go: rows whose owner is not alive, tombstones, and the
//! headers of dangling subagents. Blobs, contents, and rows that are not a chat's are
//! never touched.

use rustc_hash::FxHashSet;
use vstd::prelude::*;

use crate::fx::{fx_names, names_add, names_has, names_new};
use crate::progress::{Cancelled, Progress, ProgressView};
use crate::scan::{
    attribute, attribution, condemned, condemned_keys, count, is_orphan, is_tombstone, laps,
    lemma_condemned_permuted, lemma_due, lemma_due_all, lemma_due_step, lemma_part_of_all,
    lemma_push_row, lemma_tally_permuted, lemma_tally_remove, lemma_weigh_nothing,
    lemma_weigh_prefix, plain_stat_ok, rank, row_bytes, row_key, row_views, stops_at, tally,
    weigh, without_lengths, zero_stat, Attribution, KvRow, Owner, Prefix, PrefixStat,
    PrefixTable, RowView, Sel, CHECK_EVERY,
};
use crate::steps::{
    backs_up_first, make_run, reaches_all_places, reaches_rows_only, run, Step,
};
use crate::text::{lemma_permutation, lemma_push_contains, same, views};
use crate::types::LiveSet;
use crate::vacuum::Shrink;

verus! {

broadcast use vstd::string::group_string_axioms;

/// What a sweep would delete.
pub struct SweepPlan {
    /// The keys of the rows.
    pub keys: Vec<String>,
    pub per_prefix: PrefixTable,
    pub tombstone_rows: u64,
    pub total_bytes: u64,
    pub orphan_composers: u64,
    /// The dangling subagents, whose headers go too.
    pub dangling_sessions: Vec<String>,
}

/// A row as the quick reading sees it: the key alone.
pub open spec fn key_only(row: RowView) -> RowView {
    RowView { key: row.key, bytes: 0, is_null: false }
}

/// The rows as they are read, with their values' lengths or by their keys alone.
pub open spec fn as_read(rows: Seq<RowView>, with_bytes: bool) -> Seq<RowView> {
    if with_bytes {
        rows
    } else {
        rows.map_values(|r: RowView| key_only(r))
    }
}

/// The rows that keys without a value stand for.
pub open spec fn null_rows(keys: Seq<Seq<char>>) -> Seq<RowView> {
    keys.map_values(|k: Seq<char>| (RowView { key: Some(k), bytes: 0, is_null: true }))
}

/// A session that is alive owns the key.
pub open spec fn is_live_key(live: Set<Seq<char>>, k: Seq<char>) -> bool {
    attribution(k) matches Owner::Owned(_, c) && live.contains(c)
}

/// The keys that live sessions own.
pub open spec fn live_keys(live: Set<Seq<char>>, keys: Seq<Seq<char>>) -> Seq<Seq<char>>
    decreases keys.len(),
{
    if keys.len() == 0 {
        Seq::empty()
    } else if is_live_key(live, keys.last()) {
        live_keys(live, keys.drop_last()).push(keys.last())
    } else {
        live_keys(live, keys.drop_last())
    }
}

/// The owners of rows that are not alive.
pub open spec fn orphans(live: Set<Seq<char>>, rows: Seq<RowView>) -> Set<Seq<char>> {
    Set::new(|c: Seq<char>| is_orphan(live, rows, c))
}

/// What the plan says, after reading `rows` and, in the quick reading, the `tombs`: the
/// keys of all `composerData` rows without a value.
pub open spec fn plan_ok(
    plan: SweepPlan,
    live: Set<Seq<char>>,
    rows: Seq<RowView>,
    with_bytes: bool,
    tombs: Seq<Seq<char>>,
) -> bool {
    let seen = as_read(rows, with_bytes);
    let late = if with_bytes {
        Seq::<Seq<char>>::empty()
    } else {
        tombs
    };
    &&& views(plan.keys@) == condemned_keys(live, seen) + live_keys(live, late)
    &&& plan.per_prefix.wf()
    &&& forall|p: Prefix|
        {
            let s = #[trigger] plan.per_prefix@[rank(p)];
            &&& s.rows == tally(live, seen, Sel::CondemnedKind(p)) + tally(
                live,
                null_rows(late),
                Sel::LiveKind(p),
            )
            &&& s.bytes == weigh(live, seen, Sel::CondemnedKind(p))
            &&& s.orphan_rows == 0
            &&& s.orphan_bytes == 0
        }
    &&& plan.tombstone_rows == tally(live, seen, Sel::Tombstone) + tally(
        live,
        null_rows(late),
        Sel::Owned,
    )
    &&& plan.total_bytes == weigh(live, seen, Sel::Condemned)
    &&& plan.orphan_composers == orphans(live, seen).len()
}

/// A plan in the making.
pub struct Planner<'a> {
    live: &'a LiveSet,
    with_bytes: bool,
    keys: Vec<String>,
    per_prefix: PrefixTable,
    orphans: FxHashSet<String>,
    orphan_count: u64,
    tombstone_rows: u64,
    total_bytes: u64,
    count: u64,
    weight: u64,
    seen: Ghost<Seq<RowView>>,
}

/// The counts of the rows to delete.
spec fn kinds_counted(t: PrefixTable, live: Set<Seq<char>>, rows: Seq<RowView>) -> bool {
    &&& t.wf()
    &&& forall|p: Prefix|
        plain_stat_ok(#[trigger] t@[rank(p)], live, rows, Sel::CondemnedKind(p))
}

impl<'a> Planner<'a> {
    pub closed spec fn live(&self) -> Set<Seq<char>> {
        self.live@
    }

    /// The rows so far.
    pub closed spec fn rows(&self) -> Seq<RowView> {
        self.seen@
    }

    pub closed spec fn with_bytes(&self) -> bool {
        self.with_bytes
    }

    /// The plan is that of the rows so far.
    pub closed spec fn wf(&self) -> bool {
        let live = self.live@;
        let rows = as_read(self.seen@, self.with_bytes);
        &&& self.count == rows.len()
        &&& self.weight == weigh(live, rows, Sel::All)
        &&& views(self.keys@) == condemned_keys(live, rows)
        &&& kinds_counted(self.per_prefix, live, rows)
        &&& fx_names(self.orphans).finite()
        &&& self.orphan_count == fx_names(self.orphans).len()
        &&& self.orphan_count <= self.count
        &&& forall|c: Seq<char>| #[trigger]
            fx_names(self.orphans).contains(c) <==> is_orphan(live, rows, c)
        &&& self.tombstone_rows == tally(live, rows, Sel::Tombstone)
        &&& self.total_bytes == weigh(live, rows, Sel::Condemned)
    }

    /// The counters hold these rows too.
    pub open spec fn has_room(&self, more: Seq<RowView>) -> bool {
        &&& self.rows().len() + more.len() <= u64::MAX
        &&& weigh(
            self.live(),
            as_read(self.rows() + more, self.with_bytes()),
            Sel::All,
        ) <= u64::MAX
    }

    /// No rows yet.
    pub fn new(live: &'a LiveSet, with_bytes: bool) -> (r: Self)
        ensures
            r.wf(),
            r.live() == live@,
            r.with_bytes() == with_bytes,
            r.rows() == Seq::<RowView>::empty(),
    {
        let r = Planner {
            live,
            with_bytes,
            keys: Vec::new(),
            per_prefix: PrefixTable::new(),
            orphans: names_new(),
            orphan_count: 0,
            tombstone_rows: 0,
            total_bytes: 0,
            count: 0,
            weight: 0,
            seen: Ghost(Seq::empty()),
        };
        proof {
            assert(as_read(Seq::<RowView>::empty(), with_bytes) =~= Seq::<RowView>::empty());
            assert(views(r.keys@) =~= Seq::<Seq<char>>::empty());
            assert forall|p: Prefix| plain_stat_ok(
                #[trigger] r.per_prefix@[rank(p)],
                live@,
                Seq::empty(),
                Sel::CondemnedKind(p),
            ) by {
                assert(r.per_prefix@[rank(p)] == zero_stat());
            }
        }
        r
    }

    /// Reads a row.
    fn push(&mut self, row: &KvRow)
        requires
            old(self).wf(),
            old(self).rows().len() < u64::MAX,
            weigh(
                old(self).live(),
                as_read(old(self).rows().push(row@), old(self).with_bytes()),
                Sel::All,
            ) <= u64::MAX,
        ensures
            final(self).wf(),
            final(self).rows() == old(self).rows().push(row@),
            final(self).live() == old(self).live(),
            final(self).with_bytes() == old(self).with_bytes(),
    {
        let ghost live = self.live@;
        let ghost rows = as_read(self.seen@, self.with_bytes);
        let ghost r = if self.with_bytes {
            row@
        } else {
            key_only(row@)
        };
        let ghost more = rows.push(r);
        let bytes: u64 = if self.with_bytes {
            row_bytes(row)
        } else {
            0
        };
        proof {
            lemma_push_row(live, rows, r, Sel::All);
            lemma_push_row(live, rows, r, Sel::Tombstone);
            lemma_push_row(live, rows, r, Sel::Condemned);
            lemma_part_of_all(live, rows, Sel::Tombstone);
            lemma_part_of_all(live, rows, Sel::Condemned);
            assert(more.drop_last() =~= rows);
            assert(as_read(self.seen@.push(row@), self.with_bytes) =~= more);
        }
        self.count = self.count + 1;
        self.weight = self.weight + bytes;
        let mut hit = false;
        match row_key(row) {
            Some(key) => match attribute(key) {
                Attribution::Owned(prefix, cid) => {
                    let tombstone = self.with_bytes && prefix == Prefix::ComposerData
                        && row.is_null;
                    assert(tombstone == is_tombstone(r));
                    let orphan = !self.live.contains(cid);
                    if orphan && !names_has(&self.orphans, cid) {
                        names_add(&mut self.orphans, cid.to_owned());
                        self.orphan_count = self.orphan_count + 1;
                    }
                    if tombstone {
                        self.tombstone_rows = self.tombstone_rows + 1;
                    }
                    if orphan || tombstone {
                        hit = true;
                        proof {
                            lemma_part_of_all(live, rows, Sel::CondemnedKind(prefix));
                            assert(plain_stat_ok(
                                self.per_prefix@[rank(prefix)],
                                live,
                                rows,
                                Sel::CondemnedKind(prefix),
                            ));
                        }
                        let ghost t0 = self.per_prefix@;
                        let s = count(self.per_prefix.get(prefix), bytes);
                        self.per_prefix.set(prefix, s);
                        self.total_bytes = self.total_bytes + bytes;
                        let ghost k0 = views(self.keys@);
                        self.keys.push(key.to_owned());
                        proof {
                            assert(views(self.keys@) =~= k0.push(key@));
                            assert forall|q: Prefix| plain_stat_ok(
                                #[trigger] self.per_prefix@[rank(q)],
                                live,
                                more,
                                Sel::CondemnedKind(q),
                            ) by {
                                lemma_push_row(live, rows, r, Sel::CondemnedKind(q));
                                assert(plain_stat_ok(
                                    t0[rank(q)],
                                    live,
                                    rows,
                                    Sel::CondemnedKind(q),
                                ));
                                if q != prefix {
                                    assert(rank(q) != rank(prefix));
                                }
                            }
                        }
                    }
                },
                _ => {},
            },
            None => {},
        }
        proof {
            assert(hit == condemned(live, r));
            if !hit {
                assert forall|q: Prefix| plain_stat_ok(
                    #[trigger] self.per_prefix@[rank(q)],
                    live,
                    more,
                    Sel::CondemnedKind(q),
                ) by {
                    lemma_push_row(live, rows, r, Sel::CondemnedKind(q));
                }
            }
            assert forall|c: Seq<char>| #[trigger] fx_names(self.orphans).contains(c)
                <==> is_orphan(live, more, c) by {
                lemma_push_row(live, rows, r, Sel::Session(c));
                assert(fx_names(old(self).orphans).contains(c) <==> is_orphan(live, rows, c));
            }
        }
        self.seen = Ghost(self.seen@.push(row@));
    }

    /// Whether the counters hold these rows too.
    pub fn fits(&self, rows: &[KvRow]) -> (r: bool)
        requires
            self.wf(),
        ensures
            r == self.has_room(row_views(rows@)),
    {
        let ghost vs = row_views(rows@);
        let ghost wb = self.with_bytes;
        let ghost old_rows = self.seen@;
        let mut n: u64 = self.count;
        let mut bytes: u64 = self.weight;
        let mut i: usize = 0;
        assert(old_rows + vs.take(0) =~= old_rows);
        while i < rows.len()
            invariant
                i <= rows@.len(),
                self.wf(),
                old_rows == self.seen@,
                wb == self.with_bytes,
                vs == row_views(rows@),
                n == old_rows.len() + i,
                bytes == weigh(self.live@, as_read(old_rows + vs.take(i as int), wb), Sel::All),
            decreases rows@.len() - i,
        {
            let b: u64 = if self.with_bytes {
                row_bytes(&rows[i])
            } else {
                0
            };
            proof {
                let a = old_rows + vs.take(i as int);
                let r = if wb {
                    vs[i as int]
                } else {
                    key_only(vs[i as int])
                };
                let all = old_rows + vs;
                let k = old_rows.len() + i + 1;
                assert(old_rows + vs.take(i + 1) =~= a.push(vs[i as int]));
                assert(as_read(a.push(vs[i as int]), wb) =~= as_read(a, wb).push(r));
                lemma_push_row(self.live@, as_read(a, wb), r, Sel::All);
                lemma_weigh_prefix(self.live@, as_read(all, wb), k);
                assert(as_read(all, wb).take(k) =~= as_read(old_rows + vs.take(i + 1), wb));
            }
            if n == u64::MAX || b > u64::MAX - bytes {
                return false;
            }
            n += 1;
            bytes += b;
            i += 1;
        }
        assert(vs.take(i as int) =~= vs);
        true
    }

    /// Reads a batch of rows, and shows how far it is at every checkpoint. Where the user
    /// asked to stop, it stops at the first checkpoint, before the row that is due there.
    pub fn read(&mut self, rows: &[KvRow], p: &mut Progress) -> (r: Result<(), Cancelled>)
        requires
            old(self).wf(),
            old(self).has_room(row_views(rows@)),
        ensures
            final(self).wf(),
            final(self).live() == old(self).live(),
            final(self).with_bytes() == old(self).with_bytes(),
            r is Err <==> old(p)@.cancelled && stops_at(
                old(self).rows().len(),
                rows@.len(),
            ) is Some,
            final(self).rows() == old(self).rows() + row_views(rows@).take(
                if r is Err {
                    stops_at(old(self).rows().len(), rows@.len())->0 - 1
                } else {
                    rows@.len() as int
                },
            ),
            final(p)@ == (ProgressView {
                done: if r is Err {
                    (old(self).rows().len() + stops_at(
                        old(self).rows().len(),
                        rows@.len(),
                    )->0) as u64
                } else if stops_at(old(self).rows().len(), rows@.len()) is Some {
                    (laps(final(self).rows().len()) * CHECK_EVERY) as u64
                } else {
                    old(p)@.done
                },
                ..old(p)@
            }),
    {
        let ghost vs = row_views(rows@);
        let ghost start = self.rows();
        let ghost n0 = start.len();
        let mut i: usize = 0;
        assert(start + vs.take(0) =~= start);
        while i < rows.len()
            invariant
                i <= rows@.len(),
                vs == row_views(rows@),
                start == old(self).rows(),
                n0 == start.len(),
                self.wf(),
                self.live() == old(self).live(),
                self.with_bytes() == old(self).with_bytes(),
                self.rows() == start + vs.take(i as int),
                old(self).has_room(vs),
                old(p)@.cancelled ==> (stops_at(n0, rows@.len()) matches Some(d) ==> i < d),
                p@ == (ProgressView {
                    done: if laps(n0) < laps((n0 + i) as nat) {
                        (laps((n0 + i) as nat) * CHECK_EVERY) as u64
                    } else {
                        old(p)@.done
                    },
                    ..old(p)@
                }),
            decreases rows@.len() - i,
        {
            let n: u64 = self.count;
            proof {
                assert(n == n0 + i);
            }
            let next: u64 = n + 1;
            if next % CHECK_EVERY == 0 {
                p.set_done(next);
                match p.check() {
                    Ok(()) => {},
                    Err(c) => {
                        proof {
                            assert(stops_at(n0, rows@.len()) == Some((i + 1) as nat)) by {
                                lemma_due(n0, i as nat);
                            }
                        }
                        return Err(c);
                    },
                }
            }
            proof {
                let all = start + vs;
                let wb = self.with_bytes();
                let k = (n0 + i + 1) as int;
                assert(self.rows().push(vs[i as int]) =~= start + vs.take(i + 1));
                assert(as_read(all, wb).take(k) =~= as_read(start + vs.take(i + 1), wb));
                lemma_weigh_prefix(self.live(), as_read(all, wb), k);
                lemma_due_step(n0, i as nat);
            }
            self.push(&rows[i]);
            i += 1;
        }
        proof {
            assert(vs.take(i as int) =~= vs);
            lemma_due_all(n0, rows@.len());
        }
        Ok(())
    }
}

/// Ends the plan. `tombs` are the keys of the `composerData` rows without a value, which
/// the quick reading does not see; the full reading has counted them already and does not
/// look at them. `dangling` are the dangling subagents of the same sessions.
pub fn plan(planner: Planner, tombs: Vec<String>, dangling: Vec<String>) -> (r: SweepPlan)
    requires
        planner.wf(),
        planner.rows().len() + tombs@.len() <= u64::MAX,
    ensures
        plan_ok(r, planner.live(), planner.rows(), planner.with_bytes(), views(tombs@)),
        r.dangling_sessions == dangling,
{
    let ghost live = planner.live@;
    let ghost seen = as_read(planner.seen@, planner.with_bytes);
    let ghost late = views(tombs@);
    let mut keys = planner.keys;
    let mut per_prefix = planner.per_prefix;
    let mut tombstone_rows: u64 = planner.tombstone_rows;
    let ghost keys0 = condemned_keys(live, seen);
    proof {
        lemma_part_of_all(live, seen, Sel::Tombstone);
        assert(fx_names(planner.orphans) =~= orphans(live, seen));
        assert(null_rows(Seq::<Seq<char>>::empty()) =~= Seq::<RowView>::empty());
        assert(keys0 + live_keys(live, Seq::empty()) =~= keys0);
        assert(late.take(0) =~= Seq::<Seq<char>>::empty());
        assert(planner.seen@.len() == seen.len());
    }
    if !planner.with_bytes {
        let mut i: usize = 0;
        while i < tombs.len()
            invariant
                i <= tombs@.len(),
                late == views(tombs@),
                live == planner.live@,
                seen.len() + tombs@.len() <= u64::MAX,
                views(keys@) == keys0 + live_keys(live, late.take(i as int)),
                per_prefix.wf(),
                forall|p: Prefix|
                    {
                        let s = #[trigger] per_prefix@[rank(p)];
                        &&& s.rows == tally(live, seen, Sel::CondemnedKind(p)) + tally(
                            live,
                            null_rows(late.take(i as int)),
                            Sel::LiveKind(p),
                        )
                        &&& s.bytes == weigh(live, seen, Sel::CondemnedKind(p))
                        &&& s.orphan_rows == 0
                        &&& s.orphan_bytes == 0
                    },
                tombstone_rows == tally(live, seen, Sel::Tombstone) + tally(
                    live,
                    null_rows(late.take(i as int)),
                    Sel::Owned,
                ),
            decreases tombs@.len() - i,
        {
            let key = tombs[i].as_str();
            let ghost t = null_rows(late.take(i as int));
            let ghost row = RowView { key: Some(key@), bytes: 0, is_null: true };
            proof {
                assert(late.take(i + 1).drop_last() =~= late.take(i as int));
                assert(late.take(i + 1).last() == key@);
                assert(null_rows(late.take(i + 1)) =~= t.push(row));
                lemma_push_row(live, t, row, Sel::Owned);
                lemma_part_of_all(live, t, Sel::Owned);
                lemma_part_of_all(live, seen, Sel::Tombstone);
            }
            let ghost t0 = per_prefix@;
            match attribute(key) {
                Attribution::Owned(prefix, cid) => {
                    tombstone_rows = tombstone_rows + 1;
                    if planner.live.contains(cid) {
                        proof {
                            lemma_part_of_all(live, seen, Sel::CondemnedKind(prefix));
                            lemma_part_of_all(live, t, Sel::LiveKind(prefix));
                        }
                        let s = count(per_prefix.get(prefix), 0);
                        per_prefix.set(prefix, s);
                        let ghost k0 = views(keys@);
                        keys.push(key.to_owned());
                        proof {
                            assert(views(keys@) =~= k0.push(key@));
                            assert(views(keys@) =~= keys0 + live_keys(live, late.take(i + 1)));
                            assert forall|q: Prefix|
                                {
                                    let s = #[trigger] per_prefix@[rank(q)];
                                    &&& s.rows == tally(live, seen, Sel::CondemnedKind(q)) + tally(
                                        live,
                                        t.push(row),
                                        Sel::LiveKind(q),
                                    )
                                    &&& s.bytes == weigh(live, seen, Sel::CondemnedKind(q))
                                    &&& s.orphan_rows == 0
                                    &&& s.orphan_bytes == 0
                                } by {
                                lemma_push_row(live, t, row, Sel::LiveKind(q));
                                assert(t0[rank(q)].orphan_rows == 0);
                                if q != prefix {
                                    assert(rank(q) != rank(prefix));
                                }
                            }
                        }
                    } else {
                        proof {
                            assert forall|q: Prefix| #[trigger] per_prefix@[rank(q)].rows == tally(
                                live,
                                seen,
                                Sel::CondemnedKind(q),
                            ) + tally(live, t.push(row), Sel::LiveKind(q)) by {
                                lemma_push_row(live, t, row, Sel::LiveKind(q));
                            }
                        }
                    }
                },
                _ => {
                    proof {
                        assert forall|q: Prefix| #[trigger] per_prefix@[rank(q)].rows == tally(
                            live,
                            seen,
                            Sel::CondemnedKind(q),
                        ) + tally(live, t.push(row), Sel::LiveKind(q)) by {
                            lemma_push_row(live, t, row, Sel::LiveKind(q));
                        }
                    }
                },
            }
            i += 1;
        }
        assert(late.take(i as int) =~= late);
    }
    SweepPlan {
        keys,
        per_prefix,
        tombstone_rows,
        total_bytes: planner.total_bytes,
        orphan_composers: planner.orphan_count,
        dangling_sessions: dangling,
    }
}

/// The keys of the tombstones among the rows.
pub open spec fn tombstone_keys(rows: Seq<RowView>) -> Seq<Seq<char>>
    decreases rows.len(),
{
    if rows.len() == 0 {
        Seq::empty()
    } else if is_tombstone(rows.last()) {
        tombstone_keys(rows.drop_last()).push(rows.last().key->0)
    } else {
        tombstone_keys(rows.drop_last())
    }
}

/// How often a key is among the live keys.
proof fn lemma_live_keys_count(live: Set<Seq<char>>, keys: Seq<Seq<char>>, k: Seq<char>)
    ensures
        live_keys(live, keys).to_multiset().count(k) == (if is_live_key(live, k) {
            keys.to_multiset().count(k)
        } else {
            0
        }),
    decreases keys.len(),
{
    broadcast use vstd::multiset::group_multiset_axioms;

    if keys.len() == 0 {
        assert(keys =~= Seq::<Seq<char>>::empty());
        keys.to_multiset_ensures();
    } else {
        let rest = keys.drop_last();
        let x = keys.last();
        lemma_live_keys_count(live, rest, k);
        assert(keys =~= rest.push(x));
        rest.to_multiset_ensures();
        live_keys(live, rest).to_multiset_ensures();
    }
}

/// The keys that the quick reading finds by itself, and the live tombstones, are the keys
/// that the full reading finds.
proof fn lemma_condemned_split(live: Set<Seq<char>>, rows: Seq<RowView>, k: Seq<char>)
    ensures
        condemned_keys(live, rows).to_multiset().count(k) == condemned_keys(
            live,
            as_read(rows, false),
        ).to_multiset().count(k) + live_keys(live, tombstone_keys(rows)).to_multiset().count(k),
    decreases rows.len(),
{
    broadcast use vstd::multiset::group_multiset_axioms;

    let quick = as_read(rows, false);
    if rows.len() == 0 {
        assert(rows =~= Seq::<RowView>::empty());
        assert(quick =~= Seq::<RowView>::empty());
        Seq::<Seq<char>>::empty().to_multiset_ensures();
    } else {
        let rest = rows.drop_last();
        let row = rows.last();
        lemma_condemned_split(live, rest, k);
        assert(quick.drop_last() =~= as_read(rest, false));
        assert(quick.last() == key_only(row));
        condemned_keys(live, rest).to_multiset_ensures();
        condemned_keys(live, as_read(rest, false)).to_multiset_ensures();
        tombstone_keys(rest).to_multiset_ensures();
        live_keys(live, tombstone_keys(rest)).to_multiset_ensures();
        if is_tombstone(row) {
            assert(tombstone_keys(rows).drop_last() =~= tombstone_keys(rest));
            assert(tombstone_keys(rows).last() == row.key->0);
        }
    }
}

proof fn lemma_counts_split(live: Set<Seq<char>>, rows: Seq<RowView>, p: Prefix)
    ensures
        tally(live, rows, Sel::CondemnedKind(p)) == tally(
            live,
            as_read(rows, false),
            Sel::CondemnedKind(p),
        ) + tally(live, null_rows(tombstone_keys(rows)), Sel::LiveKind(p)),
        tally(live, rows, Sel::Tombstone) == tally(live, as_read(rows, false), Sel::Tombstone)
            + tally(live, null_rows(tombstone_keys(rows)), Sel::Owned),
    decreases rows.len(),
{
    let quick = as_read(rows, false);
    if rows.len() == 0 {
        assert(quick =~= Seq::<RowView>::empty());
        assert(null_rows(tombstone_keys(rows)) =~= Seq::<RowView>::empty());
    } else {
        let rest = rows.drop_last();
        let row = rows.last();
        lemma_counts_split(live, rest, p);
        assert(quick.drop_last() =~= as_read(rest, false));
        assert(quick.last() == key_only(row));
        if is_tombstone(row) {
            let t = null_rows(tombstone_keys(rest));
            let r = RowView { key: Some(row.key->0), bytes: 0, is_null: true };
            assert(null_rows(tombstone_keys(rows)) =~= t.push(r));
            lemma_push_row(live, t, r, Sel::LiveKind(p));
            lemma_push_row(live, t, r, Sel::Owned);
        }
    }
}

proof fn lemma_null_tally_permuted(
    live: Set<Seq<char>>,
    a: Seq<Seq<char>>,
    b: Seq<Seq<char>>,
    sel: Sel,
)
    requires
        a.to_multiset() == b.to_multiset(),
    ensures
        tally(live, null_rows(a), sel) == tally(live, null_rows(b), sel),
    decreases a.len(),
{
    broadcast use vstd::multiset::group_multiset_axioms;

    a.to_multiset_ensures();
    b.to_multiset_ensures();
    crate::text::lemma_permutation(a, b);
    if a.len() == 0 {
        assert(a =~= b);
    } else {
        let x = a.last();
        let a2 = a.drop_last();
        assert(a =~= a2.push(x));
        a2.to_multiset_ensures();
        assert(a.to_set().contains(x)) by {
            assert(a[a.len() - 1] == x);
        }
        assert(b.to_set().contains(x));
        let i = choose|i: int| 0 <= i < b.len() && b[i] == x;
        let b2 = b.remove(i);
        assert(b2.to_multiset() =~= b.to_multiset().remove(x));
        assert(a2.to_multiset() =~= a.to_multiset().remove(x));
        lemma_null_tally_permuted(live, a2, b2, sel);
        let row = RowView { key: Some(x), bytes: 0, is_null: true };
        assert(null_rows(a) =~= null_rows(a2).push(row));
        lemma_push_row(live, null_rows(a2), row, sel);
        lemma_tally_remove(live, null_rows(b), i, sel);
        assert(null_rows(b).remove(i) =~= null_rows(b2));
    }
}

/// Two readings meet the same keys, in whatever order.
pub open spec fn same_keys(a: Seq<RowView>, b: Seq<RowView>) -> bool {
    as_read(a, false).to_multiset() == as_read(b, false).to_multiset()
}

/// The quick and the full reading of the same table make the same plan but for the bytes:
/// the same keys, as often, and the same counts. `fed` are the rows that the quick reading
/// met, in whatever order, and `tombs` the keys that it took up late.
pub proof fn lemma_plans_agree(
    full: SweepPlan,
    quick: SweepPlan,
    live: Set<Seq<char>>,
    rows: Seq<RowView>,
    fed: Seq<RowView>,
    tombs: Seq<Seq<char>>,
)
    requires
        plan_ok(full, live, rows, true, Seq::empty()),
        plan_ok(quick, live, fed, false, tombs),
        same_keys(rows, fed),
        tombs.to_multiset() == tombstone_keys(rows).to_multiset(),
    ensures
        views(full.keys@).to_multiset() == views(quick.keys@).to_multiset(),
        full.tombstone_rows == tally(live, rows, Sel::Tombstone),
        quick.tombstone_rows == full.tombstone_rows,
        full.orphan_composers == orphans(live, rows).len(),
        quick.orphan_composers == full.orphan_composers,
        forall|p: Prefix|
            #[trigger] full.per_prefix@[rank(p)].rows == quick.per_prefix@[rank(p)].rows,
        quick.total_bytes == 0,
        forall|p: Prefix| (#[trigger] quick.per_prefix@[rank(p)]).bytes == 0,
{
    broadcast use vstd::multiset::group_multiset_axioms;

    let bare = as_read(rows, false);
    let met = as_read(fed, false);
    let a = condemned_keys(live, rows);
    let b = condemned_keys(live, bare);
    let c = live_keys(live, tombs);
    assert(live_keys(live, Seq::empty()) =~= Seq::<Seq<char>>::empty());
    assert(views(full.keys@) =~= a);
    assert(null_rows(Seq::<Seq<char>>::empty()) =~= Seq::<RowView>::empty());
    lemma_condemned_permuted(live, bare, met);
    vstd::seq_lib::lemma_multiset_commutative(b, c);
    vstd::seq_lib::lemma_multiset_commutative(condemned_keys(live, met), c);
    assert forall|k: Seq<char>| a.to_multiset().count(k) == (b + c).to_multiset().count(k) by {
        lemma_condemned_split(live, rows, k);
        lemma_live_keys_count(live, tombs, k);
        lemma_live_keys_count(live, tombstone_keys(rows), k);
    }
    assert(a.to_multiset() =~= (b + c).to_multiset());
    assert forall|p: Prefix| #[trigger] full.per_prefix@[rank(p)].rows
        == quick.per_prefix@[rank(p)].rows by {
        lemma_counts_split(live, rows, p);
        lemma_tally_permuted(live, bare, met, Sel::CondemnedKind(p));
        lemma_null_tally_permuted(live, tombs, tombstone_keys(rows), Sel::LiveKind(p));
        assert(quick.per_prefix@[rank(p)].orphan_rows == 0);
    }
    lemma_counts_split(live, rows, Prefix::ComposerData);
    lemma_tally_permuted(live, bare, met, Sel::Tombstone);
    lemma_null_tally_permuted(live, tombs, tombstone_keys(rows), Sel::Owned);
    assert(orphans(live, rows) =~= orphans(live, met)) by {
        assert forall|x: Seq<char>| is_orphan(live, rows, x) == is_orphan(live, met, x) by {
            lemma_sessions_as_read(live, rows, x);
            lemma_tally_permuted(live, bare, met, Sel::Session(x));
        }
    }
    assert(without_lengths(met));
    lemma_weigh_nothing(live, met, Sel::Condemned);
    assert forall|p: Prefix| (#[trigger] quick.per_prefix@[rank(p)]).bytes == 0 by {
        lemma_weigh_nothing(live, met, Sel::CondemnedKind(p));
    }
}

/// No key occurs in two rows.
pub open spec fn distinct_keys(rows: Seq<RowView>) -> bool {
    forall|i: int, j: int|
        0 <= i < j < rows.len() && (#[trigger] rows[i]).key is Some ==> rows[i].key != (
        #[trigger] rows[j]).key
}

/// A row with this key goes.
pub open spec fn goes(live: Set<Seq<char>>, rows: Seq<RowView>, k: Seq<char>) -> bool {
    exists|i: int|
        0 <= i < rows.len() && (#[trigger] rows[i]).key == Some(k) && condemned(live, rows[i])
}

/// Of a table whose keys are distinct, both plans name each row that goes once, and no other.
pub proof fn lemma_plans_name_each_once(
    full: SweepPlan,
    quick: SweepPlan,
    live: Set<Seq<char>>,
    rows: Seq<RowView>,
    fed: Seq<RowView>,
    tombs: Seq<Seq<char>>,
)
    requires
        plan_ok(full, live, rows, true, Seq::empty()),
        plan_ok(quick, live, fed, false, tombs),
        same_keys(rows, fed),
        tombs.to_multiset() == tombstone_keys(rows).to_multiset(),
        distinct_keys(rows),
    ensures
        views(full.keys@).no_duplicates(),
        views(quick.keys@).no_duplicates(),
        forall|k: Seq<char>| #[trigger] views(full.keys@).contains(k) <==> goes(live, rows, k),
        forall|k: Seq<char>| #[trigger] views(quick.keys@).contains(k) <==> goes(live, rows, k),
{
    lemma_plans_agree(full, quick, live, rows, fed, tombs);
    let a = views(full.keys@);
    let b = views(quick.keys@);
    assert(live_keys(live, Seq::empty()) =~= Seq::<Seq<char>>::empty());
    assert(a =~= condemned_keys(live, rows));
    lemma_condemned_once(live, rows);
    lemma_permutation(a, b);
    assert forall|k: Seq<char>| #[trigger] b.contains(k) <==> goes(live, rows, k) by {
        assert(a.to_set().contains(k) <==> b.to_set().contains(k));
        assert(a.contains(k) <==> goes(live, rows, k));
    }
}

proof fn lemma_condemned_once(live: Set<Seq<char>>, rows: Seq<RowView>)
    ensures
        forall|k: Seq<char>| #[trigger]
            condemned_keys(live, rows).contains(k) <==> goes(live, rows, k),
        distinct_keys(rows) ==> condemned_keys(live, rows).no_duplicates(),
    decreases rows.len(),
{
    if rows.len() > 0 {
        let rest = rows.drop_last();
        let row = rows.last();
        let c = condemned_keys(live, rest);
        lemma_condemned_once(live, rest);
        lemma_push_contains(c, row.key->0);
        assert forall|k: Seq<char>| #[trigger] condemned_keys(live, rows).contains(k) <==> goes(
            live,
            rows,
            k,
        ) by {
            if goes(live, rest, k) {
                let i = choose|i: int|
                    0 <= i < rest.len() && (#[trigger] rest[i]).key == Some(k) && condemned(
                        live,
                        rest[i],
                    );
                assert(rows[i].key == Some(k));
            }
            if goes(live, rows, k) {
                let i = choose|i: int|
                    0 <= i < rows.len() && (#[trigger] rows[i]).key == Some(k) && condemned(
                        live,
                        rows[i],
                    );
                if i < rest.len() {
                    assert(rest[i].key == Some(k));
                }
            }
            if condemned(live, row) && row.key == Some(k) {
                assert(rows[rows.len() - 1].key == Some(k));
            }
            assert(c.contains(k) <==> goes(live, rest, k));
        }
        if distinct_keys(rows) {
            assert(distinct_keys(rest)) by {
                assert forall|i: int, j: int|
                    0 <= i < j < rest.len() && (#[trigger] rest[i]).key is Some implies rest[i].key
                    != (#[trigger] rest[j]).key by {
                    assert(rows[i].key != rows[j].key);
                }
            }
            if condemned(live, row) && c.contains(row.key->0) {
                assert(goes(live, rest, row.key->0));
                let i = choose|i: int|
                    0 <= i < rest.len() && (#[trigger] rest[i]).key == Some(row.key->0)
                        && condemned(live, rest[i]);
                assert(rows[i].key != rows[rows.len() - 1].key);
            }
            if condemned(live, row) {
                let d = c.push(row.key->0);
                assert forall|i: int, j: int| 0 <= i < j < d.len() implies d[i] != d[j] by {
                    assert(c.contains(c[i]));
                }
            }
        }
    } else {
        assert forall|k: Seq<char>| !goes(live, rows, k) by {}
    }
}

proof fn lemma_sessions_as_read(live: Set<Seq<char>>, rows: Seq<RowView>, c: Seq<char>)
    ensures
        tally(live, rows, Sel::Session(c)) == tally(live, as_read(rows, false), Sel::Session(c)),
    decreases rows.len(),
{
    if rows.len() > 0 {
        lemma_sessions_as_read(live, rows.drop_last(), c);
        assert(as_read(rows, false).drop_last() =~= as_read(rows.drop_last(), false));
    }
}

/// The keys that a scan collected are the keys that the full plan finds, in the same
/// order: a sweep may go by either.
pub proof fn lemma_scan_finds_the_plan(
    plan: SweepPlan,
    scan: crate::scan::ScanResult,
    live: Set<Seq<char>>,
    rows: Seq<RowView>,
    deep: bool,
)
    requires
        plan_ok(plan, live, rows, true, Seq::empty()),
        crate::scan::scan_ok(scan, live, rows, deep, true),
    ensures
        views(plan.keys@) == views(scan.condemned_keys@),
{
    assert(live_keys(live, Seq::empty()) =~= Seq::<Seq<char>>::empty());
    assert(views(plan.keys@) =~= condemned_keys(live, rows));
}

/// What a sweep did.
pub struct SweepOutcome {
    pub plan: SweepPlan,
    pub deleted_rows: u64,
    /// The rows of dangling subagents in the table of headers that went too.
    pub purged_header_rows: u64,
    pub backup_path: Option<String>,
    pub page_size: i64,
    pub page_count_before: i64,
    pub page_count_after: i64,
    /// `None` where nothing was given back.
    pub shrink: Option<Shrink>,
}

/// What a restore brought back.
#[derive(Debug)]
pub struct RestoreOutcome {
    pub kv_rows: u64,
    pub header_rows: u64,
    /// The database and the key of each document.
    pub item_snapshots: Vec<(String, String)>,
}

/// The steps that carry a sweep out: none where there is neither a row to delete nor a
/// header. The headers of dangling subagents go as those of deleted sessions do.
pub fn apply(plan: &SweepPlan, make_backup: bool) -> (r: Vec<Step>)
    ensures
        r@ == (if plan.keys@.len() == 0 && plan.dangling_sessions@.len() == 0 {
            Seq::<Step>::empty()
        } else {
            run(plan.dangling_sessions@.len() > 0, make_backup, true)
        }),
        make_backup ==> backs_up_first(r@),
        plan.dangling_sessions@.len() > 0 ==> reaches_all_places(r@),
        plan.keys@.len() > 0 && plan.dangling_sessions@.len() == 0 ==> reaches_rows_only(r@),
        r@.len() > 0 ==> r@.contains(Step::Shrink) && (r@.contains(Step::BackUpRows)
            <==> make_backup),
{
    if plan.keys.len() == 0 && plan.dangling_sessions.len() == 0 {
        Vec::new()
    } else {
        make_run(plan.dangling_sessions.len() > 0, make_backup, true)
    }
}

/// The steps by which keys that are known are swept, with the headers of dangling
/// subagents. What is written stays in the log until the operation is closed.
pub fn apply_keys(dangling: &[String], make_backup: bool) -> (r: Vec<Step>)
    ensures
        r@ == run(dangling@.len() > 0, make_backup, false),
        make_backup ==> backs_up_first(r@),
        dangling@.len() > 0 ==> reaches_all_places(r@),
        dangling@.len() == 0 ==> reaches_rows_only(r@),
        r@.contains(Step::BackUpRows) <==> make_backup,
        !r@.contains(Step::Shrink),
{
    make_run(dangling.len() > 0, make_backup, false)
}

/// Whether a document in a backup belongs to the database at `this_db`, rather than to a
/// workspace.
pub fn is_main(target_db: &str, this_db: &str) -> (r: bool)
    ensures
        r == (target_db@ == this_db@),
{
    same(target_db, this_db)
}

/// The rows of a subagent whose parent is gone go with a sweep, and those of a session that is
/// there stay, its own row without a value aside.
pub proof fn lemma_sweep_by_sessions(
    s: Seq<crate::headers::SessionHeader>,
    row: RowView,
    p: Prefix,
    c: Seq<char>,
)
    requires
        row.key is Some,
        attribution(row.key->0) == Owner::Owned(p, c),
    ensures
        crate::lineage::dangling(s, c) ==> condemned(crate::headers::live_ids(s), row),
        !crate::lineage::exists_id(s, c) ==> condemned(crate::headers::live_ids(s), row),
        crate::lineage::exists_id(s, c) && !crate::lineage::dangling(s, c) ==> (condemned(
            crate::headers::live_ids(s),
            row,
        ) <==> p == Prefix::ComposerData && row.is_null),
{
}

/// A full plan counts under each kind the rows that go and what they weigh; together they are
/// as many as the keys, and weigh what the plan says.
pub proof fn lemma_plan_counts(plan: SweepPlan, live: Set<Seq<char>>, rows: Seq<RowView>)
    requires
        plan_ok(plan, live, rows, true, Seq::empty()),
    ensures
        plan.keys@.len() == kind_rows(plan.per_prefix@),
        plan.total_bytes == kind_bytes(plan.per_prefix@),
        forall|p: Prefix|
            (#[trigger] plan.per_prefix@[rank(p)]).rows == tally(live, rows, Sel::CondemnedKind(p))
                && plan.per_prefix@[rank(p)].bytes == weigh(live, rows, Sel::CondemnedKind(p)),
{
    assert(live_keys(live, Seq::empty()) =~= Seq::<Seq<char>>::empty());
    assert(views(plan.keys@) =~= condemned_keys(live, rows));
    assert(null_rows(Seq::<Seq<char>>::empty()) =~= Seq::<RowView>::empty());
    crate::scan::lemma_condemned_counts(live, rows);
    let t = plan.per_prefix@;
    assert forall|p: Prefix|
        (#[trigger] plan.per_prefix@[rank(p)]).rows == tally(live, rows, Sel::CondemnedKind(p))
            && plan.per_prefix@[rank(p)].bytes == weigh(live, rows, Sel::CondemnedKind(p)) by {}
    assert(t[rank(Prefix::AgentBubbleCheckpoint)].bytes == weigh(live, rows, Sel::CondemnedKind(Prefix::AgentBubbleCheckpoint)));
    assert(t[rank(Prefix::AgentCheckpoint)].bytes == weigh(live, rows, Sel::CondemnedKind(Prefix::AgentCheckpoint)));
    assert(t[rank(Prefix::BubbleId)].bytes == weigh(live, rows, Sel::CondemnedKind(Prefix::BubbleId)));
    assert(t[rank(Prefix::CheckpointId)].bytes == weigh(live, rows, Sel::CondemnedKind(Prefix::CheckpointId)));
    assert(t[rank(Prefix::CodeBlockDiff)].bytes == weigh(live, rows, Sel::CondemnedKind(Prefix::CodeBlockDiff)));
    assert(t[rank(Prefix::CodeBlockPartialInlineDiffFates)].bytes == weigh(live, rows, Sel::CondemnedKind(Prefix::CodeBlockPartialInlineDiffFates)));
    assert(t[rank(Prefix::ComposerData)].bytes == weigh(live, rows, Sel::CondemnedKind(Prefix::ComposerData)));
    assert(t[rank(Prefix::ComposerVirtualRowHeights)].bytes == weigh(live, rows, Sel::CondemnedKind(Prefix::ComposerVirtualRowHeights)));
    assert(t[rank(Prefix::OfsContent)].bytes == weigh(live, rows, Sel::CondemnedKind(Prefix::OfsContent)));
}

/// The rows of all kinds.
pub open spec fn kind_rows(t: Seq<PrefixStat>) -> int {
    t[0].rows + t[1].rows + t[2].rows + t[3].rows + t[4].rows + t[5].rows + t[6].rows + t[7].rows
        + t[8].rows
}

/// The bytes of all kinds.
pub open spec fn kind_bytes(t: Seq<PrefixStat>) -> int {
    t[0].bytes + t[1].bytes + t[2].bytes + t[3].bytes + t[4].bytes + t[5].bytes + t[6].bytes
        + t[7].bytes + t[8].bytes
}

} // verus!
