//! Which rows of the table are a session's, and how they are asked for.

use vstd::prelude::*;

use crate::progress::{Progress, ProgressView};
use crate::scan::{
    attribute, attribution, count, is_of_kind, lemma_attribution_by_tag, lemma_part_of_all,
    lemma_push_row, owner_in, plain_stat_ok, prefix_tag, rank, row_bytes, row_key, row_owner,
    row_views, weigh, whole_rest, zero_stat, Attribution, KvRow, Owner, Prefix, PrefixTable,
    RowView, Sel,
};
use crate::text::{
    first_index, join2, lemma_first_index, lemma_prefix_range, lex_le, lex_lt, lex_sorted, same,
    sort_texts, views,
};
use crate::types::{id_views, is_composer_id, ComposerId};

verus! {

broadcast use vstd::string::group_string_axioms;

/// How the keys of a kind are asked for.
#[derive(Debug, Clone, Copy, PartialEq, Eq, Structural)]
pub enum KeyShape {
    /// The one key of the tag and the owner.
    Exact,
    /// All keys that begin with the tag and the owner.
    Bare,
}

/// How the keys of a kind are asked for.
pub open spec fn shape(p: Prefix) -> KeyShape {
    match p {
        Prefix::ComposerData => KeyShape::Exact,
        Prefix::AgentCheckpoint => KeyShape::Exact,
        _ => KeyShape::Bare,
    }
}

fn key_shape(p: Prefix) -> (r: KeyShape)
    ensures
        r == shape(p),
{
    match p {
        Prefix::ComposerData | Prefix::AgentCheckpoint => KeyShape::Exact,
        _ => KeyShape::Bare,
    }
}

/// A question for rows by their keys.
#[derive(Debug)]
pub enum KeyQuery {
    /// From `lo` on, up to and without `hi`.
    Range { lo: String, hi: String },
    Exact { key: String },
}

/// A question for rows, mathematically.
pub enum Ask {
    Range(Seq<char>, Seq<char>),
    Exact(Seq<char>),
}

impl View for KeyQuery {
    type V = Ask;

    open spec fn view(&self) -> Ask {
        match self {
            KeyQuery::Range { lo, hi } => Ask::Range(lo@, hi@),
            KeyQuery::Exact { key } => Ask::Exact(key@),
        }
    }
}

/// The question asks for the key.
pub open spec fn asks_for(q: Ask, key: Seq<char>) -> bool {
    match q {
        Ask::Range(lo, hi) => lex_le(lo, key) && lex_lt(key, hi),
        Ask::Exact(k) => key == k,
    }
}

/// The text with its last character replaced by the next one.
pub open spec fn bumped(s: Seq<char>) -> Seq<char> {
    s.drop_last().push(((s.last() as u32 + 1) as u32) as char)
}

/// The question for a session's rows of a kind.
pub open spec fn ask(p: Prefix, c: Seq<char>) -> Ask {
    let start = prefix_tag(p) + c;
    match shape(p) {
        KeyShape::Exact => Ask::Exact(start),
        KeyShape::Bare => Ask::Range(start, bumped(start)),
    }
}

proof fn lemma_prefix_parts(a: Seq<char>, b: Seq<char>, key: Seq<char>)
    requires
        (a + b).is_prefix_of(key),
    ensures
        a.is_prefix_of(key),
        b.is_prefix_of(key.skip(a.len() as int)),
{
    let n = a.len() as int;
    assert(a =~= key.subrange(0, n)) by {
        assert forall|i: int| 0 <= i < n implies a[i] == key[i] by {
            assert((a + b)[i] == key.subrange(0, (a + b).len() as int)[i]);
        }
    }
    assert(b =~= key.skip(n).subrange(0, b.len() as int)) by {
        assert forall|i: int| 0 <= i < b.len() implies b[i] == key.skip(n)[i] by {
            assert((a + b)[n + i] == key.subrange(0, (a + b).len() as int)[n + i]);
        }
    }
}

/// What a question for a bare beginning asks for.
proof fn lemma_bare(start: Seq<char>, key: Seq<char>)
    requires
        start.len() > 0,
        (start.last() as u32) < 0x80,
    ensures
        asks_for(Ask::Range(start, bumped(start)), key) <==> start.is_prefix_of(key),
{
    let next = ((start.last() as u32 + 1) as u32) as char;
    assert(next as u32 == start.last() as u32 + 1);
    assert(start.drop_last().push(start.last()) =~= start);
    lemma_prefix_range(start.drop_last(), start.last(), next, key);
}

/// The question for a session's rows of a kind asks for keys of that kind only, and for all
/// of the session's keys of that kind.
pub proof fn lemma_ask(p: Prefix, c: Seq<char>, key: Seq<char>)
    requires
        is_composer_id(c),
    ensures
        asks_for(ask(p, c), key) ==> is_of_kind(p, key),
        attribution(key) == Owner::Owned(p, c) ==> asks_for(ask(p, c), key),
{
    let tag = prefix_tag(p);
    let start = tag + c;
    let rest = key.skip(tag.len() as int);
    assert(start.last() == c.last());
    assert('\0' <= c[c.len() - 1] <= '\u{7f}');
    match shape(p) {
        KeyShape::Exact => {
            if key == start {
                assert(start.is_prefix_of(key)) by {
                    assert(key.subrange(0, start.len() as int) =~= start);
                }
                lemma_prefix_parts(tag, c, key);
            }
        },
        KeyShape::Bare => {
            lemma_bare(start, key);
            if start.is_prefix_of(key) {
                lemma_prefix_parts(tag, c, key);
            }
        },
    }
    if attribution(key) == Owner::Owned(p, c) {
        assert(is_of_kind(p, key)) by {
            let q = choose|q: Prefix| is_of_kind(q, key);
            assert(is_of_kind(q, key));
        }
        lemma_attribution_by_tag(p, key);
        assert(owner_in(p, key) == c);
        assert(key =~= tag + rest) by {
            assert(tag =~= key.subrange(0, tag.len() as int));
        }
        if whole_rest(p) {
            assert(rest == c);
        } else {
            lemma_first_index(rest, ':');
            let k = first_index(rest, ':');
            assert(c == rest.take(k));
            assert(c.len() == k);
            assert(start =~= key.subrange(0, start.len() as int)) by {
                assert forall|i: int| 0 <= i < start.len() implies start[i] == key[i] by {
                    if i >= tag.len() {
                        assert(key[i] == rest[i - tag.len()]);
                        assert(c[i - tag.len()] == rest[i - tag.len()]);
                    }
                }
            }
            assert(start.is_prefix_of(key));
        }
    }
}

/// A question for the rows of one session.
#[derive(Debug)]
pub struct SessionQuery {
    pub composer_id: ComposerId,
    pub kind: Prefix,
    pub query: KeyQuery,
}

impl SessionQuery {
    /// The question is the one for its session and kind.
    pub open spec fn wf(&self) -> bool {
        self.query@ == ask(self.kind, self.composer_id@)
    }
}

/// The kinds and sessions that questions are for.
pub open spec fn aims(s: Seq<SessionQuery>) -> Seq<(Prefix, Seq<char>)> {
    s.map_values(|q: SessionQuery| (q.kind, q.composer_id@))
}

/// One session with each of the kinds.
pub open spec fn each_kind(c: Seq<char>, kinds: Seq<Prefix>) -> Seq<(Prefix, Seq<char>)> {
    kinds.map_values(|p: Prefix| (p, c))
}

/// Each of the sessions with each of the kinds.
pub open spec fn all_aims(ids: Seq<Seq<char>>, kinds: Seq<Prefix>) -> Seq<(Prefix, Seq<char>)>
    decreases ids.len(),
{
    if ids.len() == 0 {
        Seq::empty()
    } else {
        all_aims(ids.drop_last(), kinds) + each_kind(ids.last(), kinds)
    }
}

fn make_query(p: Prefix, id: &ComposerId) -> (r: SessionQuery)
    ensures
        r.wf(),
        r.kind == p,
        r.composer_id@ == id@,
{
    let cid = id.as_str();
    let mut start = join2(p.tag(), cid);
    let ghost s0 = start@;
    proof {
        assert(s0.last() == cid@.last());
        assert('\0' <= cid@[cid@.len() - 1] <= '\u{7f}');
    }
    let query = match key_shape(p) {
        KeyShape::Exact => KeyQuery::Exact { key: start },
        KeyShape::Bare => {
            let lo = start.clone();
            match start.pop() {
                Some(last) => {
                    let code: u8 = last as u8;
                    let next = (code + 1) as char;
                    start.push(next);
                },
                None => {},
            }
            KeyQuery::Range { lo, hi: start }
        },
    };
    SessionQuery { composer_id: id.clone(), kind: p, query }
}

/// The questions for the rows of the sessions, of the given kinds.
pub fn session_queries(ids: &[ComposerId], kinds: &[Prefix]) -> (r: Vec<SessionQuery>)
    ensures
        aims(r@) == all_aims(id_views(ids@), kinds@),
        forall|i: int| 0 <= i < r@.len() ==> (#[trigger] r@[i]).wf(),
{
    let ghost vs = id_views(ids@);
    let mut out: Vec<SessionQuery> = Vec::new();
    let mut i: usize = 0;
    assert(vs.take(0) =~= Seq::<Seq<char>>::empty());
    assert(aims(out@) =~= all_aims(vs.take(0), kinds@));
    while i < ids.len()
        invariant
            i <= ids@.len(),
            vs == id_views(ids@),
            aims(out@) == all_aims(vs.take(i as int), kinds@),
            forall|k: int| 0 <= k < out@.len() ==> (#[trigger] out@[k]).wf(),
        decreases ids@.len() - i,
    {
        let ghost a0 = aims(out@);
        let ghost c = vs[i as int];
        let mut k: usize = 0;
        assert(aims(out@) =~= a0 + each_kind(c, kinds@).take(0));
        while k < kinds.len()
            invariant
                i < ids@.len(),
                k <= kinds@.len(),
                vs == id_views(ids@),
                c == vs[i as int],
                aims(out@) == a0 + each_kind(c, kinds@).take(k as int),
                forall|j: int| 0 <= j < out@.len() ==> (#[trigger] out@[j]).wf(),
            decreases kinds@.len() - k,
        {
            let q = make_query(kinds[k], &ids[i]);
            let ghost b0 = aims(out@);
            let ghost o0 = out@;
            out.push(q);
            proof {
                assert(aims(out@) =~= b0.push((q.kind, q.composer_id@)));
                assert(each_kind(c, kinds@).take(k + 1) =~= each_kind(c, kinds@).take(
                    k as int,
                ).push((kinds@[k as int], c)));
                assert(aims(out@) =~= a0 + each_kind(c, kinds@).take(k + 1));
                assert forall|j: int| 0 <= j < out@.len() implies (#[trigger] out@[j]).wf() by {
                    if j < o0.len() {
                        assert(out@[j] == o0[j]);
                    }
                }
            }
            k += 1;
        }
        proof {
            assert(each_kind(c, kinds@).take(k as int) =~= each_kind(c, kinds@));
            assert(vs.take(i + 1).drop_last() =~= vs.take(i as int));
            assert(vs.take(i + 1).last() == c);
        }
        i += 1;
    }
    assert(vs.take(i as int) =~= vs);
    out
}

/// The rows that the session owns.
pub open spec fn own_rows(c: Seq<char>, rows: Seq<RowView>) -> Seq<RowView>
    decreases rows.len(),
{
    if rows.len() == 0 {
        Seq::empty()
    } else {
        match row_owner(rows.last()) {
            Owner::Owned(_, d) if d == c => own_rows(c, rows.drop_last()).push(rows.last()),
            _ => own_rows(c, rows.drop_last()),
        }
    }
}

/// The keys of rows.
pub open spec fn keys_of(rows: Seq<RowView>) -> Seq<Seq<char>> {
    rows.map_values(|r: RowView| r.key->0)
}

/// Rows of sessions, gathered.
pub struct Collector {
    keys: Vec<String>,
    per_prefix: PrefixTable,
    total_bytes: u64,
    count: u64,
    picked: Ghost<Seq<RowView>>,
}

/// The rows' counts by kind. What is counted does not depend on who is alive.
pub open spec fn kinds_of(t: PrefixTable, rows: Seq<RowView>) -> bool {
    &&& t.wf()
    &&& forall|p: Prefix| plain_stat_ok(#[trigger] t@[rank(p)], Set::empty(), rows, Sel::Kind(p))
}

impl Collector {
    /// The rows gathered so far.
    pub closed spec fn rows(&self) -> Seq<RowView> {
        self.picked@
    }

    pub closed spec fn wf(&self) -> bool {
        &&& self.count == self.picked@.len()
        &&& views(self.keys@) == keys_of(self.picked@)
        &&& kinds_of(self.per_prefix, self.picked@)
        &&& self.total_bytes == weigh(Set::empty(), self.picked@, Sel::All)
    }

    /// The counters hold the session's rows among these too.
    pub open spec fn has_room(&self, c: Seq<char>, more: Seq<RowView>) -> bool {
        let all = self.rows() + own_rows(c, more);
        all.len() <= u64::MAX && weigh(Set::empty(), all, Sel::All) <= u64::MAX
    }

    /// Nothing gathered.
    pub fn new() -> (r: Self)
        ensures
            r.wf(),
            r.rows() == Seq::<RowView>::empty(),
    {
        let r = Collector {
            keys: Vec::new(),
            per_prefix: PrefixTable::new(),
            total_bytes: 0,
            count: 0,
            picked: Ghost(Seq::empty()),
        };
        proof {
            assert(views(r.keys@) =~= keys_of(Seq::empty()));
            assert forall|p: Prefix| plain_stat_ok(
                #[trigger] r.per_prefix@[rank(p)],
                Set::empty(),
                Seq::empty(),
                Sel::Kind(p),
            ) by {
                assert(r.per_prefix@[rank(p)] == zero_stat());
            }
        }
        r
    }

    /// Whether the counters hold the session's rows among these too.
    pub fn fits(&self, id: &ComposerId, rows: &[KvRow]) -> (r: bool)
        requires
            self.wf(),
        ensures
            r == self.has_room(id@, row_views(rows@)),
    {
        let ghost vs = row_views(rows@);
        let mut n: u64 = self.count;
        let mut bytes: u64 = self.total_bytes;
        let mut i: usize = 0;
        assert(vs.take(0) =~= Seq::<RowView>::empty());
        assert(self.rows() + own_rows(id@, vs.take(0)) =~= self.rows());
        while i < rows.len()
            invariant
                i <= rows@.len(),
                self.wf(),
                vs == row_views(rows@),
                n == (self.rows() + own_rows(id@, vs.take(i as int))).len(),
                bytes == weigh(
                    Set::empty(),
                    self.rows() + own_rows(id@, vs.take(i as int)),
                    Sel::All,
                ),
            decreases rows@.len() - i,
        {
            let ghost a = self.rows() + own_rows(id@, vs.take(i as int));
            proof {
                assert(vs.take(i + 1).drop_last() =~= vs.take(i as int));
                assert(vs.take(i + 1).last() == vs[i as int]);
            }
            if is_own(id, &rows[i]) {
                let b: u64 = row_bytes(&rows[i]);
                proof {
                    assert(self.rows() + own_rows(id@, vs.take(i + 1)) =~= a.push(vs[i as int]));
                    lemma_push_row(Set::empty(), a, vs[i as int], Sel::All);
                    lemma_own_grows(id@, vs, self.rows(), i + 1);
                }
                if n == u64::MAX || b > u64::MAX - bytes {
                    return false;
                }
                n += 1;
                bytes += b;
            }
            i += 1;
        }
        assert(vs.take(i as int) =~= vs);
        true
    }
}

/// The first rows give no more than all.
proof fn lemma_own_grows(c: Seq<char>, rows: Seq<RowView>, base: Seq<RowView>, n: int)
    requires
        0 <= n <= rows.len(),
    ensures
        (base + own_rows(c, rows.take(n))).len() <= (base + own_rows(c, rows)).len(),
        weigh(Set::empty(), base + own_rows(c, rows.take(n)), Sel::All) <= weigh(
            Set::empty(),
            base + own_rows(c, rows),
            Sel::All,
        ),
    decreases rows.len() - n,
{
    if n < rows.len() {
        lemma_own_grows(c, rows, base, n + 1);
        assert(rows.take(n + 1).drop_last() =~= rows.take(n));
        let a = base + own_rows(c, rows.take(n));
        let b = base + own_rows(c, rows.take(n + 1));
        if own_rows(c, rows.take(n + 1)) != own_rows(c, rows.take(n)) {
            assert(b =~= a.push(rows[n]));
            lemma_push_row(Set::empty(), a, rows[n], Sel::All);
        }
    } else {
        assert(rows.take(n) =~= rows);
    }
}

/// Whether the session owns the row.
fn is_own(id: &ComposerId, row: &KvRow) -> (r: bool)
    ensures
        r == (row_owner(row@) matches Owner::Owned(_, d) && d == id@),
{
    match row_key(row) {
        Some(key) => match attribute(key) {
            Attribution::Owned(_, owner) => same(owner, id.as_str()),
            _ => false,
        },
        None => false,
    }
}

/// Takes up what a question found: the rows that its session owns. A row that another
/// session owns, whose id goes on where this one ends, is left.
pub fn collect_session_keys(
    c: &mut Collector,
    q: &SessionQuery,
    rows: &[KvRow],
    p: &mut Progress,
)
    requires
        old(c).wf(),
        old(c).has_room(q.composer_id@, row_views(rows@)),
    ensures
        final(c).wf(),
        final(c).rows() == old(c).rows() + own_rows(q.composer_id@, row_views(rows@)),
        final(p)@ == (ProgressView {
            done: ((old(p)@.done + 1) % 0x1_0000_0000_0000_0000) as u64,
            ..old(p)@
        }),
{
    let ghost cid = q.composer_id@;
    let ghost vs = row_views(rows@);
    let ghost base = c.rows();
    let mut i: usize = 0;
    assert(vs.take(0) =~= Seq::<RowView>::empty());
    assert(base + own_rows(cid, vs.take(0)) =~= base);
    while i < rows.len()
        invariant
            i <= rows@.len(),
            vs == row_views(rows@),
            cid == q.composer_id@,
            base == old(c).rows(),
            old(c).has_room(cid, vs),
            c.wf(),
            c.rows() == base + own_rows(cid, vs.take(i as int)),
        decreases rows@.len() - i,
    {
        let row = &rows[i];
        let ghost a = c.rows();
        proof {
            assert(vs.take(i + 1).drop_last() =~= vs.take(i as int));
            assert(vs.take(i + 1).last() == row@);
            lemma_own_grows(cid, vs, base, i + 1);
        }
        match row_key(row) {
            Some(key) => match attribute(key) {
                Attribution::Owned(kind, owner) => {
                    if same(owner, q.composer_id.as_str()) {
                        let bytes: u64 = row_bytes(row);
                        proof {
                            assert(base + own_rows(cid, vs.take(i + 1)) =~= a.push(row@));
                            lemma_push_row(Set::empty(), a, row@, Sel::All);
                            lemma_part_of_all(Set::empty(), a, Sel::Kind(kind));
                            assert(plain_stat_ok(
                                c.per_prefix@[rank(kind)],
                                Set::empty(),
                                a,
                                Sel::Kind(kind),
                            ));
                        }
                        let ghost t0 = c.per_prefix@;
                        let ghost k0 = views(c.keys@);
                        let s = count(c.per_prefix.get(kind), bytes);
                        c.per_prefix.set(kind, s);
                        c.total_bytes = c.total_bytes + bytes;
                        c.count = c.count + 1;
                        c.keys.push(key.to_owned());
                        c.picked = Ghost(a.push(row@));
                        proof {
                            assert(views(c.keys@) =~= k0.push(key@));
                            assert(keys_of(a.push(row@)) =~= keys_of(a).push(key@));
                            assert forall|x: Prefix| plain_stat_ok(
                                #[trigger] c.per_prefix@[rank(x)],
                                Set::empty(),
                                a.push(row@),
                                Sel::Kind(x),
                            ) by {
                                lemma_push_row(Set::empty(), a, row@, Sel::Kind(x));
                                assert(plain_stat_ok(t0[rank(x)], Set::empty(), a, Sel::Kind(x)));
                                if x != kind {
                                    assert(rank(x) != rank(kind));
                                }
                            }
                        }
                    }
                },
                _ => {},
            },
            None => {},
        }
        i += 1;
    }
    assert(vs.take(i as int) =~= vs);
    p.add(1);
}

/// The gathered rows: their keys in order, and their counts.
pub struct Collected {
    pub keys: Vec<String>,
    pub per_prefix: PrefixTable,
    pub total_bytes: u64,
}

/// What was gathered.
pub open spec fn collected_ok(c: Collected, rows: Seq<RowView>) -> bool {
    &&& views(c.keys@).to_multiset() == keys_of(rows).to_multiset()
    &&& lex_sorted(views(c.keys@))
    &&& kinds_of(c.per_prefix, rows)
    &&& c.total_bytes == weigh(Set::empty(), rows, Sel::All)
}

/// Ends the gathering.
pub fn collected(c: Collector) -> (r: Collected)
    requires
        c.wf(),
    ensures
        collected_ok(r, c.rows()),
{
    let mut keys = c.keys;
    sort_texts(&mut keys);
    Collected { keys, per_prefix: c.per_prefix, total_bytes: c.total_bytes }
}

/// The rows of the table that a question asks for.
pub open spec fn answer(q: Ask, table: Seq<RowView>) -> Seq<RowView>
    decreases table.len(),
{
    if table.len() == 0 {
        Seq::empty()
    } else {
        let rest = answer(q, table.drop_last());
        match table.last().key {
            Some(k) if asks_for(q, k) => rest.push(table.last()),
            _ => rest,
        }
    }
}

/// What all the questions together gather from the table.
pub open spec fn gathered(qs: Seq<(Prefix, Seq<char>)>, table: Seq<RowView>) -> Seq<RowView>
    decreases qs.len(),
{
    if qs.len() == 0 {
        Seq::empty()
    } else {
        let (p, c) = qs.last();
        gathered(qs.drop_last(), table) + own_rows(c, answer(ask(p, c), table))
    }
}

/// The row belongs to one of the sessions, and is of one of the kinds.
pub open spec fn is_wanted(ids: Seq<Seq<char>>, kinds: Seq<Prefix>, row: RowView) -> bool {
    row_owner(row) matches Owner::Owned(p, c) && ids.contains(c) && kinds.contains(p)
}

/// The question for a session and a kind brings the row.
pub open spec fn brings(q: (Prefix, Seq<char>), row: RowView) -> bool {
    row_owner(row) == Owner::Owned(q.0, q.1)
}

proof fn lemma_answer_count(q: (Prefix, Seq<char>), table: Seq<RowView>, row: RowView)
    requires
        is_composer_id(q.1),
    ensures
        own_rows(q.1, answer(ask(q.0, q.1), table)).to_multiset().count(row) == (if brings(q, row) {
            table.to_multiset().count(row)
        } else {
            0
        }),
    decreases table.len(),
{
    broadcast use vstd::multiset::group_multiset_axioms;

    let a = ask(q.0, q.1);
    if table.len() == 0 {
        assert(table =~= Seq::<RowView>::empty());
        table.to_multiset_ensures();
        assert(own_rows(q.1, answer(a, table)) =~= Seq::<RowView>::empty());
    } else {
        let rest = table.drop_last();
        let x = table.last();
        lemma_answer_count(q, rest, row);
        assert(table =~= rest.push(x));
        rest.to_multiset_ensures();
        let r0 = answer(a, rest);
        own_rows(q.1, r0).to_multiset_ensures();
        match x.key {
            Some(k) => {
                lemma_ask(q.0, q.1, k);
                if asks_for(a, k) {
                    lemma_attribution_by_tag(q.0, k);
                    assert(answer(a, table).drop_last() =~= r0);
                }
            },
            None => {},
        }
    }
}

proof fn lemma_gathered_count(qs: Seq<(Prefix, Seq<char>)>, table: Seq<RowView>, row: RowView)
    requires
        qs.no_duplicates(),
        forall|i: int| 0 <= i < qs.len() ==> is_composer_id((#[trigger] qs[i]).1),
    ensures
        gathered(qs, table).to_multiset().count(row) == (if exists|i: int|
            0 <= i < qs.len() && brings(#[trigger] qs[i], row) {
            table.to_multiset().count(row)
        } else {
            0
        }),
    decreases qs.len(),
{
    broadcast use vstd::multiset::group_multiset_axioms;

    if qs.len() == 0 {
        Seq::<RowView>::empty().to_multiset_ensures();
    } else {
        let rest = qs.drop_last();
        let q = qs.last();
        assert(qs[qs.len() - 1] == q);
        lemma_gathered_count(rest, table, row);
        lemma_answer_count(q, table, row);
        vstd::seq_lib::lemma_multiset_commutative(
            gathered(rest, table),
            own_rows(q.1, answer(ask(q.0, q.1), table)),
        );
        if brings(q, row) {
            assert forall|i: int| 0 <= i < rest.len() implies !brings(#[trigger] rest[i], row) by {
                assert(rest[i] == qs[i]);
                assert(qs[i] != qs[qs.len() - 1]);
            }
        }
        if exists|i: int| 0 <= i < rest.len() && brings(#[trigger] rest[i], row) {
            let i = choose|i: int| 0 <= i < rest.len() && brings(#[trigger] rest[i], row);
            assert(brings(qs[i], row));
        }
        if exists|i: int| 0 <= i < qs.len() && brings(#[trigger] qs[i], row) {
            let i = choose|i: int| 0 <= i < qs.len() && brings(#[trigger] qs[i], row);
            if i < rest.len() {
                assert(brings(rest[i], row));
            }
        }
    }
}

proof fn lemma_aims(ids: Seq<Seq<char>>, kinds: Seq<Prefix>)
    requires
        ids.no_duplicates(),
        kinds.no_duplicates(),
    ensures
        all_aims(ids, kinds).no_duplicates(),
        forall|q: (Prefix, Seq<char>)| #[trigger]
            all_aims(ids, kinds).contains(q) <==> kinds.contains(q.0) && ids.contains(q.1),
    decreases ids.len(),
{
    let all = all_aims(ids, kinds);
    if ids.len() > 0 {
        let rest = ids.drop_last();
        let c = ids.last();
        lemma_aims(rest, kinds);
        let a = all_aims(rest, kinds);
        let b = each_kind(c, kinds);
        assert(ids =~= rest.push(c));
        crate::text::lemma_push_contains(rest, c);
        assert(!rest.contains(c)) by {
            if rest.contains(c) {
                let i = choose|i: int| 0 <= i < rest.len() && rest[i] == c;
                assert(ids[i] == ids[ids.len() - 1]);
            }
        }
        assert forall|i: int, j: int| 0 <= i < all.len() && 0 <= j < all.len() && i != j implies all[i]
            != all[j] by {
            if i < a.len() {
                assert(a.contains(a[i]));
            }
            if j < a.len() {
                assert(a.contains(a[j]));
            }
        }
        assert forall|q: (Prefix, Seq<char>)| #[trigger] all.contains(q) <==> kinds.contains(q.0)
            && ids.contains(q.1) by {
            if all.contains(q) {
                let i = choose|i: int| 0 <= i < all.len() && all[i] == q;
                if i < a.len() {
                    assert(a.contains(q));
                } else {
                    assert(b[i - a.len()] == q);
                    assert(kinds[i - a.len()] == q.0);
                }
            }
            if kinds.contains(q.0) && ids.contains(q.1) {
                if q.1 == c {
                    let i = choose|i: int| 0 <= i < kinds.len() && kinds[i] == q.0;
                    assert(b[i] == q);
                    assert(all[a.len() + i] == q);
                } else {
                    assert(a.contains(q));
                    let i = choose|i: int| 0 <= i < a.len() && a[i] == q;
                    assert(all[i] == q);
                }
            }
        }
    }
}

/// The questions gather from any table the rows of the sessions, of the given kinds, and
/// no others, each as often as it is there.
pub proof fn lemma_gathers_what_is_wanted(
    ids: Seq<Seq<char>>,
    kinds: Seq<Prefix>,
    table: Seq<RowView>,
    row: RowView,
)
    requires
        ids.no_duplicates(),
        kinds.no_duplicates(),
        forall|i: int| 0 <= i < ids.len() ==> is_composer_id(#[trigger] ids[i]),
    ensures
        gathered(all_aims(ids, kinds), table).to_multiset().count(row) == (if is_wanted(
            ids,
            kinds,
            row,
        ) {
            table.to_multiset().count(row)
        } else {
            0
        }),
{
    let qs = all_aims(ids, kinds);
    lemma_aims(ids, kinds);
    assert forall|i: int| 0 <= i < qs.len() implies is_composer_id((#[trigger] qs[i]).1) by {
        assert(qs.contains(qs[i]));
        assert(ids.contains(qs[i].1));
    }
    lemma_gathered_count(qs, table, row);
    if is_wanted(ids, kinds, row) {
        match row_owner(row) {
            Owner::Owned(p, c) => {
                assert(qs.contains((p, c)));
                let i = choose|i: int| 0 <= i < qs.len() && qs[i] == (p, c);
                assert(brings(qs[i], row));
            },
            _ => {},
        }
    } else if exists|i: int| 0 <= i < qs.len() && brings(#[trigger] qs[i], row) {
        let i = choose|i: int| 0 <= i < qs.len() && brings(#[trigger] qs[i], row);
        assert(qs.contains(qs[i]));
    }
}

} // verus!
