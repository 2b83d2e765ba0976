//! Collecting the blobs and contents to which nothing refers.

use std::time::Duration;

use vstd::prelude::*;

use crate::error::Error;
use crate::fx::{IdMap, NameSet};
use crate::mark::{MarkOutcome, MarkStats};
use crate::progress::{Cancelled, Progress, ProgressView};
use crate::scan::{row_bytes, row_key, KvRow, RowView};
use crate::steps::{backs_up_first, make_run, reaches_rows_only, run, Step};
use crate::text::{
    join2, lemma_add_contains, lemma_increasing_distinct, lemma_permutation, lemma_push_contains,
    lemma_sorted_distinct, lex_increasing, lex_sorted, lowered, sort_texts, strip_prefix,
    to_ascii_lower, views,
};
use crate::vacuum::Shrink;

verus! {

broadcast use vstd::string::group_string_axioms;

/// The id of a blob in the key of its row, in small letters.
pub open spec fn blob_name(row: RowView) -> Option<Seq<char>> {
    match row.key {
        Some(k) => if "agentKv:blob:"@.is_prefix_of(k) {
            Some(lowered(k.skip("agentKv:blob:"@.len() as int)))
        } else {
            None
        },
        None => None,
    }
}

/// The blobs and the lengths of their values; of two rows of one blob the last counts.
pub open spec fn blob_sizes(rows: Seq<RowView>) -> Map<Seq<char>, u64>
    decreases rows.len(),
{
    if rows.len() == 0 {
        Map::empty()
    } else {
        match blob_name(rows.last()) {
            Some(n) => blob_sizes(rows.drop_last()).insert(n, rows.last().bytes as u64),
            None => blob_sizes(rows.drop_last()),
        }
    }
}

/// The blobs in the order in which they first come.
pub open spec fn blob_order(rows: Seq<RowView>) -> Seq<Seq<char>>
    decreases rows.len(),
{
    if rows.len() == 0 {
        Seq::empty()
    } else {
        let rest = blob_order(rows.drop_last());
        match blob_name(rows.last()) {
            Some(n) => if blob_sizes(rows.drop_last()).contains_key(n) {
                rest
            } else {
                rest.push(n)
            },
            None => rest,
        }
    }
}

/// The blobs that there are.
pub struct Listing {
    blobs: IdMap<u64>,
    rows: Ghost<Seq<RowView>>,
}

/// How many blobs there are between two looks at the wish to stop.
pub const LIST_CHECK: usize = 1024;

impl Listing {
    /// The rows that were listed.
    pub closed spec fn rows(&self) -> Seq<RowView> {
        self.rows@
    }

    pub closed spec fn wf(&self) -> bool {
        &&& self.blobs.wf()
        &&& self.blobs@ == blob_sizes(self.rows@)
        &&& self.blobs.order() == blob_order(self.rows@)
    }

    pub fn new() -> (r: Self)
        ensures
            r.wf(),
            r.rows() == Seq::<RowView>::empty(),
    {
        Listing { blobs: IdMap::new(), rows: Ghost(Seq::empty()) }
    }

    /// Lists a row, and looks at the wish to stop where the number of blobs is due.
    pub fn list(&mut self, row: &KvRow, p: &mut Progress) -> (r: Result<(), Cancelled>)
        requires
            old(self).wf(),
        ensures
            final(self).wf(),
            final(self).rows() == old(self).rows().push(row@),
            ({
                let due = blob_name(row@) is Some && blob_order(final(self).rows()).len()
                    % LIST_CHECK as nat == 0;
                &&& r is Err <==> due && old(p)@.cancelled
                &&& final(p)@ == (if due {
                    ProgressView {
                        done: ((old(p)@.done + LIST_CHECK) % 0x1_0000_0000_0000_0000) as u64,
                        ..old(p)@
                    }
                } else {
                    old(p)@
                })
            }),
    {
        let ghost rows0 = self.rows@;
        proof {
            assert(rows0.push(row@).drop_last() =~= rows0);
        }
        let key = match row_key(row) {
            Some(k) => k,
            None => {
                self.rows = Ghost(rows0.push(row@));
                return Ok(());
            },
        };
        match strip_prefix(key, "agentKv:blob:") {
            Some(hex) => {
                assert(hex@ =~= key@.skip("agentKv:blob:"@.len() as int));
                let name = to_ascii_lower(hex);
                self.blobs.insert(name, row_bytes(row));
                self.rows = Ghost(rows0.push(row@));
                if self.blobs.len() % LIST_CHECK == 0 {
                    p.add(LIST_CHECK as u64);
                    return p.check();
                }
            },
            None => {
                self.rows = Ghost(rows0.push(row@));
            },
        }
        Ok(())
    }
}

/// What these blobs weigh together.
pub open spec fn weight(order: Seq<Seq<char>>, sizes: Map<Seq<char>, u64>) -> nat
    decreases order.len(),
{
    if order.len() == 0 {
        0
    } else {
        weight(order.drop_last(), sizes) + sizes[order.last()] as nat
    }
}

/// Those in the set (`inside`), or those not in it, in the same order.
pub open spec fn part(order: Seq<Seq<char>>, set: Set<Seq<char>>, inside: bool) -> Seq<Seq<char>>
    decreases order.len(),
{
    if order.len() == 0 {
        Seq::empty()
    } else if set.contains(order.last()) == inside {
        part(order.drop_last(), set, inside).push(order.last())
    } else {
        part(order.drop_last(), set, inside)
    }
}

/// The two parts make up the whole.
pub proof fn lemma_parts(order: Seq<Seq<char>>, set: Set<Seq<char>>, sizes: Map<Seq<char>, u64>)
    ensures
        part(order, set, true).len() + part(order, set, false).len() == order.len(),
        weight(part(order, set, true), sizes) + weight(part(order, set, false), sizes) == weight(
            order,
            sizes,
        ),
    decreases order.len(),
{
    if order.len() > 0 {
        let rest = order.drop_last();
        lemma_parts(rest, set, sizes);
        let x = order.last();
        if set.contains(x) {
            assert(part(rest, set, true).push(x).drop_last() =~= part(rest, set, true));
        } else {
            assert(part(rest, set, false).push(x).drop_last() =~= part(rest, set, false));
        }
    }
}

proof fn lemma_part_contains(order: Seq<Seq<char>>, set: Set<Seq<char>>, inside: bool)
    ensures
        forall|x: Seq<char>| #[trigger]
            part(order, set, inside).contains(x) <==> order.contains(x) && set.contains(x) == inside,
        order.no_duplicates() ==> part(order, set, inside).no_duplicates(),
    decreases order.len(),
{
    if order.len() > 0 {
        let rest = order.drop_last();
        let x = order.last();
        lemma_part_contains(rest, set, inside);
        assert(order =~= rest.push(x));
        lemma_push_contains(rest, x);
        lemma_push_contains(part(rest, set, inside), x);
        if order.no_duplicates() {
            assert(!rest.contains(x)) by {
                if rest.contains(x) {
                    let i = choose|i: int| 0 <= i < rest.len() && rest[i] == x;
                    assert(order[i] == order[order.len() - 1]);
                }
            }
            let pr = part(rest, set, inside);
            assert(rest.no_duplicates());
            assert(!pr.contains(x));
            assert forall|i: int, j: int|
                0 <= i < pr.push(x).len() && 0 <= j < pr.push(x).len() && i != j implies pr.push(
                x,
            )[i] != pr.push(x)[j] by {
                if i < pr.len() {
                    assert(pr.contains(pr[i]));
                }
                if j < pr.len() {
                    assert(pr.contains(pr[j]));
                }
            }
        }
    }
}

proof fn lemma_weight_prefix(order: Seq<Seq<char>>, sizes: Map<Seq<char>, u64>, n: int)
    requires
        0 <= n <= order.len(),
    ensures
        weight(order.take(n), sizes) <= weight(order, sizes),
    decreases order.len() - n,
{
    if n < order.len() {
        lemma_weight_prefix(order, sizes, n + 1);
        assert(order.take(n + 1).drop_last() =~= order.take(n));
    } else {
        assert(order.take(n) =~= order);
    }
}

/// The keys of rows with contents, and the lengths of their values.
pub open spec fn content_weight(rows: Seq<(Seq<char>, u64)>) -> nat
    decreases rows.len(),
{
    if rows.len() == 0 {
        0
    } else {
        content_weight(rows.drop_last()) + rows.last().1 as nat
    }
}

/// The rows whose key is not in the set.
pub open spec fn content_left(
    rows: Seq<(Seq<char>, u64)>,
    set: Set<Seq<char>>,
) -> Seq<(Seq<char>, u64)>
    decreases rows.len(),
{
    if rows.len() == 0 {
        Seq::empty()
    } else if set.contains(rows.last().0) {
        content_left(rows.drop_last(), set)
    } else {
        content_left(rows.drop_last(), set).push(rows.last())
    }
}

/// The keys alone.
pub open spec fn firsts(rows: Seq<(Seq<char>, u64)>) -> Seq<Seq<char>> {
    rows.map_values(|r: (Seq<char>, u64)| r.0)
}

/// The views of rows with contents.
pub open spec fn content_views(rows: Seq<(String, u64)>) -> Seq<(Seq<char>, u64)> {
    rows.map_values(|r: (String, u64)| (r.0@, r.1))
}

/// The key and the length of a content's row, where its key is a text.
pub fn content_row(row: &KvRow) -> (r: Option<(String, u64)>)
    ensures
        match r {
            Some((k, n)) => row@.key == Some(k@) && n == row@.bytes,
            None => row@.key is None,
        },
{
    match row_key(row) {
        Some(k) => Some((k.to_owned(), row_bytes(row))),
        None => None,
    }
}

/// What a collection would delete.
pub struct GcPlan {
    pub total_blobs: u64,
    pub total_bytes: u64,
    pub live_blobs: u64,
    pub live_bytes: u64,
    /// The blobs to which nothing refers, in order.
    pub orphans: Vec<String>,
    pub orphan_bytes: u64,
    /// The blobs that are referred to and not there.
    pub dangling_refs: u64,
    pub content_total: u64,
    pub content_bytes: u64,
    /// The keys of the contents to which nothing refers, in order.
    pub content_orphans: Vec<String>,
    pub content_orphan_bytes: u64,
    pub stats: MarkStats,
    pub listing_phase: Duration,
}

/// What the plan says of the blobs.
pub open spec fn blobs_ok(plan: GcPlan, rows: Seq<RowView>, marked: Set<Seq<char>>) -> bool {
    let order = blob_order(rows);
    let sizes = blob_sizes(rows);
    &&& plan.total_blobs == order.len()
    &&& plan.total_bytes == weight(order, sizes)
    &&& plan.live_blobs == part(order, marked, true).len()
    &&& plan.live_bytes == weight(part(order, marked, true), sizes)
    &&& plan.orphan_bytes == weight(part(order, marked, false), sizes)
    &&& lex_increasing(views(plan.orphans@))
    &&& forall|x: Seq<char>| #[trigger]
        views(plan.orphans@).contains(x) <==> sizes.contains_key(x) && !marked.contains(x)
    &&& plan.dangling_refs == marked.difference(sizes.dom()).len()
}

/// What the plan says of the contents.
pub open spec fn contents_ok(
    plan: GcPlan,
    contents: Seq<(Seq<char>, u64)>,
    referred: Set<Seq<char>>,
) -> bool {
    let left = content_left(contents, referred);
    &&& plan.content_total == contents.len()
    &&& plan.content_bytes == content_weight(contents)
    &&& plan.content_orphan_bytes == content_weight(left)
    &&& lex_sorted(views(plan.content_orphans@))
    &&& views(plan.content_orphans@).to_multiset() == firsts(left).to_multiset()
}

/// What the counters must hold.
pub open spec fn plan_fits(rows: Seq<RowView>, contents: Seq<(Seq<char>, u64)>) -> bool {
    weight(blob_order(rows), blob_sizes(rows)) <= u64::MAX && content_weight(contents) <= u64::MAX
}

/// Whether the counters hold what was listed.
pub fn fits(listing: &Listing, contents: &Vec<(String, u64)>) -> (r: bool)
    requires
        listing.wf(),
    ensures
        r == plan_fits(listing.rows(), content_views(contents@)),
{
    let ghost order = listing.blobs.order();
    let ghost sizes = listing.blobs@;
    let n: usize = listing.blobs.len();
    let mut sum: u64 = 0;
    let mut i: usize = 0;
    while i < n
        invariant
            i <= n,
            n == order.len(),
            listing.wf(),
            order == listing.blobs.order(),
            sizes == listing.blobs@,
            sum == weight(order.take(i as int), sizes),
        decreases n - i,
    {
        let b: u64 = *listing.blobs.value(i);
        proof {
            assert(order.take(i + 1).drop_last() =~= order.take(i as int));
            assert(order.take(i + 1).last() == order[i as int]);
            lemma_weight_prefix(order, sizes, i + 1);
        }
        if b > u64::MAX - sum {
            return false;
        }
        sum += b;
        i += 1;
    }
    assert(order.take(i as int) =~= order);
    let ghost cs = content_views(contents@);
    let mut total: u64 = 0;
    let mut k: usize = 0;
    while k < contents.len()
        invariant
            k <= contents@.len(),
            cs == content_views(contents@),
            total == content_weight(cs.take(k as int)),
        decreases contents@.len() - k,
    {
        proof {
            assert(cs.take(k + 1).drop_last() =~= cs.take(k as int));
            assert(cs.take(k + 1).last() == cs[k as int]);
            lemma_content_prefix(cs, k + 1);
        }
        let b: u64 = contents[k].1;
        if b > u64::MAX - total {
            return false;
        }
        total += b;
        k += 1;
    }
    assert(cs.take(k as int) =~= cs);
    true
}

proof fn lemma_content_prefix(rows: Seq<(Seq<char>, u64)>, n: int)
    requires
        0 <= n <= rows.len(),
    ensures
        content_weight(rows.take(n)) <= content_weight(rows),
    decreases rows.len() - n,
{
    if n < rows.len() {
        lemma_content_prefix(rows, n + 1);
        assert(rows.take(n + 1).drop_last() =~= rows.take(n));
    } else {
        assert(rows.take(n) =~= rows);
    }
}

/// The blobs, parted into those that are marked and those that are not.
struct BlobSplit {
    live: u64,
    live_bytes: u64,
    orphans: Vec<String>,
    orphan_bytes: u64,
}

fn split_blobs(listing: &Listing, marked: &NameSet) -> (r: BlobSplit)
    requires
        listing.wf(),
        weight(blob_order(listing.rows()), blob_sizes(listing.rows())) <= u64::MAX,
    ensures
        r.live == part(blob_order(listing.rows()), marked@, true).len(),
        r.live_bytes == weight(
            part(blob_order(listing.rows()), marked@, true),
            blob_sizes(listing.rows()),
        ),
        views(r.orphans@) == part(blob_order(listing.rows()), marked@, false),
        r.orphan_bytes == weight(
            part(blob_order(listing.rows()), marked@, false),
            blob_sizes(listing.rows()),
        ),
{
    let ghost order = listing.blobs.order();
    let ghost sizes = listing.blobs@;
    let n: usize = listing.blobs.len();
    let mut out = BlobSplit { live: 0, live_bytes: 0, orphans: Vec::new(), orphan_bytes: 0 };
    let mut i: usize = 0;
    assert(order.take(0) =~= Seq::<Seq<char>>::empty());
    assert(views(out.orphans@) =~= part(order.take(0), marked@, false));
    while i < n
        invariant
            i <= n,
            n == order.len(),
            listing.wf(),
            order == listing.blobs.order(),
            sizes == listing.blobs@,
            weight(order, sizes) <= u64::MAX,
            out.live == part(order.take(i as int), marked@, true).len(),
            out.live_bytes == weight(part(order.take(i as int), marked@, true), sizes),
            views(out.orphans@) == part(order.take(i as int), marked@, false),
            out.orphan_bytes == weight(part(order.take(i as int), marked@, false), sizes),
        decreases n - i,
    {
        let name = listing.blobs.key(i);
        let bytes: u64 = *listing.blobs.value(i);
        let ghost t = order.take(i as int);
        proof {
            assert(order.take(i + 1).drop_last() =~= t);
            assert(order.take(i + 1).last() == name@);
            lemma_weight_prefix(order, sizes, i + 1);
            lemma_parts(order.take(i + 1), marked@, sizes);
            lemma_parts(t, marked@, sizes);
            assert(part(t, marked@, true).push(name@).drop_last() =~= part(t, marked@, true));
            assert(part(t, marked@, false).push(name@).drop_last() =~= part(t, marked@, false));
        }
        if marked.contains(name.as_str()) {
            out.live = out.live + 1;
            out.live_bytes = out.live_bytes + bytes;
        } else {
            let ghost o0 = views(out.orphans@);
            out.orphans.push(name.clone());
            assert(views(out.orphans@) =~= o0.push(name@));
            out.orphan_bytes = out.orphan_bytes + bytes;
        }
        i += 1;
    }
    assert(order.take(i as int) =~= order);
    out
}

/// How many of the marked blobs are not there.
fn count_dangling(listing: &Listing, marked: &NameSet) -> (r: u64)
    requires
        listing.wf(),
    ensures
        r == marked@.difference(blob_sizes(listing.rows()).dom()).len(),
{
    let n: usize = marked.len();
    let ghost order = marked.order();
    let ghost have = listing.blobs@.dom();
    let mut r: u64 = 0;
    let ghost mut found: Set<Seq<char>> = Set::empty();
    let mut i: usize = 0;
    while i < n
        invariant
            i <= n,
            n == order.len(),
            order == marked.order(),
            order.no_duplicates(),
            listing.wf(),
            have == listing.blobs@.dom(),
            found.finite(),
            found.len() == r,
            r <= i,
            forall|x: Seq<char>| #[trigger]
                found.contains(x) <==> order.take(i as int).contains(x) && !have.contains(x),
        decreases n - i,
    {
        let name = marked.get(i);
        proof {
            crate::text::lemma_take_contains(order, i as int);
        }
        if !listing.blobs.contains(name.as_str()) {
            r += 1;
            proof {
                assert(!found.contains(name@));
                found = found.insert(name@);
            }
        }
        i += 1;
    }
    proof {
        assert(order.take(i as int) =~= order);
        assert(found =~= marked@.difference(have)) by {
            assert forall|x: Seq<char>| found.contains(x) <==> marked@.difference(have).contains(
                x,
            ) by {
                assert(order.to_set().contains(x) <==> order.contains(x));
            }
        }
    }
    r
}

/// What the blobs and contents that were listed, and those that are referred to, add up to.
pub fn plan(
    listing: Listing,
    contents: Vec<(String, u64)>,
    outcome: MarkOutcome,
    listing_phase: Duration,
) -> (r: GcPlan)
    requires
        listing.wf(),
        plan_fits(listing.rows(), content_views(contents@)),
    ensures
        blobs_ok(r, listing.rows(), outcome.marked@),
        contents_ok(r, content_views(contents@), outcome.content_keys@),
        r.stats == outcome.stats,
        r.listing_phase == listing_phase,
{
    let ghost rows = listing.rows@;
    let ghost order = blob_order(rows);
    let ghost sizes = blob_sizes(rows);
    let ghost marked = outcome.marked@;
    let total: usize = listing.blobs.len();
    proof {
        listing.blobs.lemma_order();
        lemma_parts(order, marked, sizes);
        lemma_part_contains(order, marked, false);
    }
    let split = split_blobs(&listing, &outcome.marked);
    let dangling_refs: u64 = count_dangling(&listing, &outcome.marked);
    let mut orphans = split.orphans;
    let ghost o = views(orphans@);
    sort_texts(&mut orphans);
    proof {
        lemma_permutation(o, views(orphans@));
        lemma_sorted_distinct(views(orphans@));
        assert forall|x: Seq<char>| #[trigger] views(orphans@).contains(x) <==> sizes.contains_key(x)
            && !marked.contains(x) by {
            assert(views(orphans@).to_set().contains(x) <==> o.to_set().contains(x));
            assert(order.to_set().contains(x) <==> sizes.dom().contains(x));
        }
    }
    let ghost cs = content_views(contents@);
    let ghost referred = outcome.content_keys@;
    let mut content_bytes: u64 = 0;
    let mut content_orphan_bytes: u64 = 0;
    let mut content_orphans: Vec<String> = Vec::new();
    let mut i: usize = 0;
    assert(views(content_orphans@) =~= firsts(content_left(cs.take(0), referred)));
    while i < contents.len()
        invariant
            i <= contents@.len(),
            cs == content_views(contents@),
            referred == outcome.content_keys@,
            content_weight(cs) <= u64::MAX,
            content_bytes == content_weight(cs.take(i as int)),
            content_orphan_bytes == content_weight(content_left(cs.take(i as int), referred)),
            content_orphan_bytes <= content_bytes,
            views(content_orphans@) == firsts(content_left(cs.take(i as int), referred)),
        decreases contents@.len() - i,
    {
        let bytes: u64 = contents[i].1;
        let ghost left = content_left(cs.take(i as int), referred);
        proof {
            assert(cs.take(i + 1).drop_last() =~= cs.take(i as int));
            assert(cs.take(i + 1).last() == cs[i as int]);
            lemma_content_prefix(cs, i + 1);
        }
        content_bytes += bytes;
        if !outcome.content_keys.contains(contents[i].0.as_str()) {
            let ghost k0 = views(content_orphans@);
            content_orphan_bytes += bytes;
            content_orphans.push(contents[i].0.clone());
            proof {
                assert(views(content_orphans@) =~= k0.push(cs[i as int].0));
                assert(left.push(cs[i as int]).drop_last() =~= left);
                assert(firsts(left.push(cs[i as int])) =~= firsts(left).push(cs[i as int].0));
            }
        }
        i += 1;
    }
    assert(cs.take(i as int) =~= cs);
    sort_texts(&mut content_orphans);
    GcPlan {
        total_blobs: total as u64,
        total_bytes: split.live_bytes + split.orphan_bytes,
        live_blobs: split.live,
        live_bytes: split.live_bytes,
        orphans,
        orphan_bytes: split.orphan_bytes,
        dangling_refs,
        content_total: contents.len() as u64,
        content_bytes,
        content_orphans,
        content_orphan_bytes,
        stats: outcome.stats,
        listing_phase,
    }
}

/// How many rows with a state were tried.
pub open spec fn attempted(stats: MarkStats) -> int {
    stats.counts.root_states + stats.counts.root_decode_errors
}

/// More than one in this many unreadable states is too many.
pub const ROOT_ERROR_ONE_IN: u64 = 50;

/// More than two in a hundred of the states could not be read: the data may be damaged.
pub open spec fn too_many_errors(stats: MarkStats) -> bool {
    stats.counts.root_decode_errors * ROOT_ERROR_ONE_IN > attempted(stats)
}

/// Whether too many states could not be read.
pub fn errors_exceed_limit(stats: &MarkStats) -> (r: bool)
    ensures
        r == too_many_errors(*stats),
{
    let errors: u64 = stats.counts.root_decode_errors;
    let states: u64 = stats.counts.root_states;
    errors as u128 * (ROOT_ERROR_ONE_IN as u128) > states as u128 + errors as u128
}

/// The keys of the rows to delete: those of the blobs, and those of the contents.
pub open spec fn gc_keys(plan: GcPlan) -> Seq<Seq<char>> {
    views(plan.orphans@).map_values(|h: Seq<char>| "agentKv:blob:"@ + h) + views(
        plan.content_orphans@,
    )
}

/// A collection that may go ahead.
pub struct GcJob {
    pub keys: Vec<String>,
    pub steps: Vec<Step>,
}

/// What a collection did.
pub struct GcOutcome {
    pub plan: GcPlan,
    pub deleted_rows: u64,
    pub backup_path: Option<String>,
    pub page_size: i64,
    pub page_count_before: i64,
    pub page_count_after: i64,
    /// `None` where nothing was given back yet.
    pub shrink: Option<Shrink>,
}

/// The keys of the rows to delete.
fn keys_to_delete(plan: &GcPlan) -> (r: Vec<String>)
    ensures
        views(r@) == gc_keys(*plan),
{
    let ghost os = views(plan.orphans@).map_values(|h: Seq<char>| "agentKv:blob:"@ + h);
    let ghost cs = views(plan.content_orphans@);
    let mut out: Vec<String> = Vec::new();
    let mut i: usize = 0;
    assert(views(out@) =~= os.take(0));
    while i < plan.orphans.len()
        invariant
            i <= plan.orphans@.len(),
            os == views(plan.orphans@).map_values(|h: Seq<char>| "agentKv:blob:"@ + h),
            views(out@) == os.take(i as int),
        decreases plan.orphans@.len() - i,
    {
        let ghost b = views(out@);
        let key = join2("agentKv:blob:", plan.orphans[i].as_str());
        out.push(key);
        proof {
            assert(views(out@) =~= b.push(key@));
            assert(os.take(i + 1) =~= os.take(i as int).push(os[i as int]));
        }
        i += 1;
    }
    assert(os.take(i as int) =~= os);
    let mut k: usize = 0;
    assert(views(out@) =~= os + cs.take(0));
    while k < plan.content_orphans.len()
        invariant
            k <= plan.content_orphans@.len(),
            cs == views(plan.content_orphans@),
            views(out@) == os + cs.take(k as int),
        decreases plan.content_orphans@.len() - k,
    {
        let ghost b = views(out@);
        out.push(plan.content_orphans[k].clone());
        proof {
            assert(views(out@) =~= b.push(cs[k as int]));
            assert(cs.take(k + 1) =~= cs.take(k as int).push(cs[k as int]));
            assert(views(out@) =~= os + cs.take(k + 1));
        }
        k += 1;
    }
    assert(cs.take(k as int) =~= cs);
    out
}

/// Decides on a collection. It is refused where too many states could not be read, and
/// where blobs would go though not one state was read. `rate` and `limit` are shown with
/// the first refusal, in percent. Where nothing is to be deleted there are no steps.
pub fn apply_plan(
    plan: &GcPlan,
    make_backup: bool,
    finalize: bool,
    rate: String,
    limit: String,
) -> (r: Result<GcJob, Error>)
    ensures
        if too_many_errors(plan.stats) {
            r matches Err(Error::RootErrorRate { rate: a, limit: b }) && a == rate && b == limit
        } else if plan.stats.counts.root_states == 0 && plan.orphans@.len() > 0 {
            r matches Err(Error::NoDecodedRoots)
        } else {
            r matches Ok(job) && views(job.keys@) == gc_keys(*plan) && job.steps@ == (if gc_keys(
                *plan,
            ).len() == 0 {
                Seq::<Step>::empty()
            } else {
                run(false, make_backup, finalize)
            }) && (make_backup ==> backs_up_first(job.steps@)) && (job.steps@.len() > 0
                ==> reaches_rows_only(job.steps@) && (job.steps@.contains(Step::BackUpRows)
                <==> make_backup) && (job.steps@.contains(Step::Shrink) <==> finalize))
        },
        r is Ok ==> 100 * plan.stats.counts.root_decode_errors <= 2 * (
        plan.stats.counts.root_states + plan.stats.counts.root_decode_errors) && (
        plan.stats.counts.root_states > 0 || plan.orphans@.len() == 0),
{
    if errors_exceed_limit(&plan.stats) {
        return Err(Error::RootErrorRate { rate, limit });
    }
    if plan.stats.counts.root_states == 0 && plan.orphans.len() > 0 {
        return Err(Error::NoDecodedRoots);
    }
    let keys = keys_to_delete(plan);
    assert(views(keys@).len() == keys@.len());
    let steps = if keys.len() == 0 {
        Vec::new()
    } else {
        make_run(false, make_backup, finalize)
    };
    Ok(GcJob { keys, steps })
}

/// No blob goes to which a marked one refers, and none that a session refers to.
pub proof fn lemma_gc_keeps_what_is_marked(
    plan: GcPlan,
    rows: Seq<RowView>,
    marked: Set<Seq<char>>,
    x: Seq<char>,
)
    requires
        blobs_ok(plan, rows, marked),
        marked.contains(x),
    ensures
        !views(plan.orphans@).contains(x),
{
}

/// A row of the blob is there.
pub open spec fn is_stored(rows: Seq<RowView>, x: Seq<char>) -> bool {
    exists|i: int| 0 <= i < rows.len() && blob_name(#[trigger] rows[i]) == Some(x)
}

/// The blobs in order are those that are there, each once.
pub proof fn lemma_blob_order(rows: Seq<RowView>)
    ensures
        blob_order(rows).no_duplicates(),
        forall|x: Seq<char>| #[trigger]
            blob_order(rows).contains(x) <==> blob_sizes(rows).contains_key(x),
        forall|x: Seq<char>| #[trigger] blob_sizes(rows).contains_key(x) <==> is_stored(rows, x),
    decreases rows.len(),
{
    if rows.len() > 0 {
        let rest = rows.drop_last();
        let o = blob_order(rest);
        lemma_blob_order(rest);
        assert forall|x: Seq<char>| is_stored(rows, x) <==> is_stored(rest, x) || blob_name(
            rows.last(),
        ) == Some(x) by {
            if is_stored(rest, x) {
                let k = choose|k: int| 0 <= k < rest.len() && blob_name(#[trigger] rest[k]) == Some(x);
                assert(blob_name(rows[k]) == Some(x));
            }
            if is_stored(rows, x) {
                let k = choose|k: int| 0 <= k < rows.len() && blob_name(#[trigger] rows[k]) == Some(x);
                if k < rest.len() {
                    assert(blob_name(rest[k]) == Some(x));
                }
            }
            if blob_name(rows.last()) == Some(x) {
                assert(blob_name(rows[rows.len() - 1]) == Some(x));
            }
        }
        assert forall|x: Seq<char>| #[trigger] blob_sizes(rows).contains_key(x) <==> is_stored(
            rows,
            x,
        ) by {
            assert(blob_sizes(rest).contains_key(x) <==> is_stored(rest, x));
        }
        match blob_name(rows.last()) {
            Some(n) => {
                lemma_push_contains(o, n);
                if !blob_sizes(rest).contains_key(n) {
                    let d = o.push(n);
                    assert(!o.contains(n));
                    assert forall|a: int, b: int| 0 <= a < b < d.len() implies d[a] != d[b] by {
                        assert(o.contains(o[a]));
                    }
                }
            },
            None => {},
        }
    }
}

/// Every blob that is there is either kept or goes, and so is every byte. The blobs that go
/// are those that are there and not marked, in order, each once; the marked ones that are
/// not there are counted.
pub proof fn lemma_gc_accounts_for_all(plan: GcPlan, rows: Seq<RowView>, marked: Set<Seq<char>>)
    requires
        blobs_ok(plan, rows, marked),
    ensures
        plan.live_blobs + plan.orphans@.len() == plan.total_blobs,
        plan.live_bytes + plan.orphan_bytes == plan.total_bytes,
        lex_increasing(views(plan.orphans@)),
        forall|x: Seq<char>| #[trigger]
            views(plan.orphans@).contains(x) <==> is_stored(rows, x) && !marked.contains(x),
        plan.dangling_refs == marked.filter(|x: Seq<char>| !is_stored(rows, x)).len(),
{
    let order = blob_order(rows);
    let sizes = blob_sizes(rows);
    let o = views(plan.orphans@);
    let left = part(order, marked, false);
    lemma_blob_order(rows);
    lemma_parts(order, marked, sizes);
    lemma_part_contains(order, marked, false);
    lemma_increasing_distinct(o);
    assert(o.to_set() =~= left.to_set()) by {
        assert forall|x: Seq<char>| o.contains(x) <==> left.contains(x) by {
            assert(order.contains(x) <==> sizes.contains_key(x));
        }
    }
    o.unique_seq_to_set();
    left.unique_seq_to_set();
    assert(o.len() == plan.orphans@.len());
    assert(marked.difference(sizes.dom()) =~= marked.filter(|x: Seq<char>| !is_stored(rows, x)))
        by {
        assert forall|x: Seq<char>| sizes.dom().contains(x) <==> is_stored(rows, x) by {
            assert(sizes.contains_key(x) <==> is_stored(rows, x));
        }
    }
}

/// Where no key occurs twice, the contents that go are those that are there and to which
/// nothing refers, in order, each once.
pub proof fn lemma_gc_names_each_content_once(
    plan: GcPlan,
    contents: Seq<(Seq<char>, u64)>,
    referred: Set<Seq<char>>,
)
    requires
        contents_ok(plan, contents, referred),
        firsts(contents).no_duplicates(),
    ensures
        lex_increasing(views(plan.content_orphans@)),
        forall|k: Seq<char>| #[trigger]
            views(plan.content_orphans@).contains(k) <==> firsts(contents).contains(k)
                && !referred.contains(k),
{
    let left = firsts(content_left(contents, referred));
    let o = views(plan.content_orphans@);
    lemma_content_left(contents, referred);
    lemma_part_contains(firsts(contents), referred, false);
    lemma_permutation(left, o);
    lemma_sorted_distinct(o);
    assert forall|k: Seq<char>| #[trigger] o.contains(k) <==> firsts(contents).contains(k)
        && !referred.contains(k) by {
        assert(o.to_set().contains(k) <==> left.to_set().contains(k));
        assert(left.contains(k) <==> firsts(contents).contains(k) && !referred.contains(k));
    }
}

/// The keys of the rows that are left are those of the keys that are left.
proof fn lemma_content_left(rows: Seq<(Seq<char>, u64)>, set: Set<Seq<char>>)
    ensures
        firsts(content_left(rows, set)) == part(firsts(rows), set, false),
    decreases rows.len(),
{
    if rows.len() > 0 {
        let rest = rows.drop_last();
        lemma_content_left(rest, set);
        assert(firsts(rows).drop_last() =~= firsts(rest));
        assert(firsts(rows).last() == rows.last().0);
        assert(firsts(content_left(rest, set).push(rows.last())) =~= firsts(
            content_left(rest, set),
        ).push(rows.last().0));
    } else {
        assert(firsts(rows) =~= Seq::<Seq<char>>::empty());
        assert(firsts(content_left(rows, set)) =~= Seq::<Seq<char>>::empty());
    }
}

/// A collection is refused where more than two in a hundred of the states could not be read.
pub proof fn lemma_too_many_errors(stats: MarkStats)
    ensures
        too_many_errors(stats) <==> 100 * stats.counts.root_decode_errors > 2 * (
        stats.counts.root_states + stats.counts.root_decode_errors),
{
}

/// The rows that go are those of the blobs and of the contents that the plan names.
pub proof fn lemma_gc_keys(plan: GcPlan, k: Seq<char>)
    ensures
        gc_keys(plan).contains(k) <==> (exists|x: Seq<char>| #[trigger]
            views(plan.orphans@).contains(x) && k == "agentKv:blob:"@ + x) || views(
            plan.content_orphans@,
        ).contains(k),
{
    let o = views(plan.orphans@);
    let a = o.map_values(|h: Seq<char>| "agentKv:blob:"@ + h);
    lemma_add_contains(a, views(plan.content_orphans@), k);
    if a.contains(k) {
        let i = choose|i: int| 0 <= i < a.len() && a[i] == k;
        assert(o.contains(o[i]));
    }
    if exists|x: Seq<char>| #[trigger] o.contains(x) && k == "agentKv:blob:"@ + x {
        let x = choose|x: Seq<char>| #[trigger] o.contains(x) && k == "agentKv:blob:"@ + x;
        let i = choose|i: int| 0 <= i < o.len() && o[i] == x;
        assert(a[i] == k);
    }
}

/// The row of a marked blob never goes; that of a stored one that is not marked does.
pub proof fn lemma_gc_deletes_what_is_not_marked(
    plan: GcPlan,
    rows: Seq<RowView>,
    marked: Set<Seq<char>>,
    x: Seq<char>,
)
    requires
        blobs_ok(plan, rows, marked),
        forall|k: Seq<char>| #[trigger]
            views(plan.content_orphans@).contains(k) ==> "composer.content."@.is_prefix_of(k),
    ensures
        gc_keys(plan).contains("agentKv:blob:"@ + x) <==> is_stored(rows, x) && !marked.contains(x),
{
    let k = "agentKv:blob:"@ + x;
    lemma_gc_keys(plan, k);
    lemma_gc_accounts_for_all(plan, rows, marked);
    if views(plan.content_orphans@).contains(k) {
        reveal_strlit("agentKv:blob:");
        reveal_strlit("composer.content.");
        assert("composer.content."@.is_prefix_of(k));
        assert(k[0] == 'a');
        assert("composer.content."@ == k.subrange(0, "composer.content."@.len() as int));
        assert(k.subrange(0, "composer.content."@.len() as int)[0] == k[0]);
        assert(false);
    }
    assert(views(plan.orphans@).contains(x) <==> is_stored(rows, x) && !marked.contains(x));
    if exists|y: Seq<char>| #[trigger]
        views(plan.orphans@).contains(y) && k == "agentKv:blob:"@ + y {
        let y = choose|y: Seq<char>| #[trigger]
            views(plan.orphans@).contains(y) && k == "agentKv:blob:"@ + y;
        let n = "agentKv:blob:"@.len() as int;
        assert(k.skip(n) =~= x);
        assert(("agentKv:blob:"@ + y).skip(n) =~= y);
        assert(x == y);
    }
}

/// The id of a stored blob is what follows the name of its kind, in small letters.
pub proof fn lemma_blob_name(row: RowView, h: Seq<char>)
    requires
        row.key == Some("agentKv:blob:"@ + h),
    ensures
        blob_name(row) == Some(lowered(h)),
{
    let k = "agentKv:blob:"@ + h;
    let n = "agentKv:blob:"@.len() as int;
    assert(k.subrange(0, n) =~= "agentKv:blob:"@);
    assert(k.skip(n) =~= h);
}

/// Of several rows of one blob the last gives its size.
pub proof fn lemma_blob_size(rows: Seq<RowView>, i: int, x: Seq<char>)
    requires
        0 <= i < rows.len(),
        blob_name(rows[i]) == Some(x),
        forall|k: int| i < k < rows.len() ==> blob_name(#[trigger] rows[k]) != Some(x),
    ensures
        blob_sizes(rows).contains_key(x),
        blob_sizes(rows)[x] == rows[i].bytes as u64,
    decreases rows.len(),
{
    let d = rows.drop_last();
    assert(rows[rows.len() - 1] == rows.last());
    if i < d.len() {
        assert forall|k: int| i < k < d.len() implies blob_name(#[trigger] d[k]) != Some(x) by {
            assert(rows[k] == d[k]);
        }
        assert(d[i] == rows[i]);
        lemma_blob_size(d, i, x);
        assert(blob_name(rows[rows.len() - 1]) != Some(x));
    }
}

/// What blobs and contents weigh together grows with each by its own size.
pub proof fn lemma_weights(
    order: Seq<Seq<char>>,
    sizes: Map<Seq<char>, u64>,
    x: Seq<char>,
    rows: Seq<(Seq<char>, u64)>,
    r: (Seq<char>, u64),
)
    ensures
        weight(Seq::empty(), sizes) == 0,
        weight(order.push(x), sizes) == weight(order, sizes) + sizes[x],
        content_weight(Seq::empty()) == 0,
        content_weight(rows.push(r)) == content_weight(rows) + r.1,
{
    assert(order.push(x).drop_last() =~= order);
    assert(rows.push(r).drop_last() =~= rows);
}

/// The contents that go are those to which nothing refers, and they weigh what the plan says.
pub proof fn lemma_content_goes(
    rows: Seq<(Seq<char>, u64)>,
    referred: Set<Seq<char>>,
    r: (Seq<char>, u64),
)
    ensures
        content_left(rows.push(r), referred) == (if referred.contains(r.0) {
            content_left(rows, referred)
        } else {
            content_left(rows, referred).push(r)
        }),
{
    assert(rows.push(r).drop_last() =~= rows);
}

} // verus!
