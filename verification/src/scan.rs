//! Whose a row of the key-value table is, and what the rows add up to.
//!
//! Apart from blobs, contents and foreign keys, the key of a row holds the id of the
//! session that owns it. A row whose owner is not alive is an orphan.

use rustc_hash::FxHashSet;
use vstd::prelude::*;

use crate::fx::{fx_names, names_add, names_has, names_new, IdMap};
use crate::progress::{Cancelled, Progress, ProgressView};
use crate::text::{
    before, from_utf8, lemma_increasing_unique, lemma_permutation, lemma_sorted_distinct, lex_increasing, segment,
    sort_texts, starts_with, strip_prefix, utf8_text, views,
};
use crate::types::{id_views, LiveSet};

verus! {

broadcast use vstd::string::group_string_axioms;

/// The kinds of keys that belong to a session, in the order of their names.
#[derive(Debug, Clone, Copy, PartialEq, Eq, Structural)]
pub enum Prefix {
    AgentBubbleCheckpoint,
    AgentCheckpoint,
    BubbleId,
    CheckpointId,
    CodeBlockDiff,
    CodeBlockPartialInlineDiffFates,
    ComposerData,
    ComposerVirtualRowHeights,
    OfsContent,
}

/// The number of kinds.
pub const PREFIXES: usize = 9;

/// The place of a kind in the order of the names.
pub open spec fn rank(p: Prefix) -> int {
    match p {
        Prefix::AgentBubbleCheckpoint => 0,
        Prefix::AgentCheckpoint => 1,
        Prefix::BubbleId => 2,
        Prefix::CheckpointId => 3,
        Prefix::CodeBlockDiff => 4,
        Prefix::CodeBlockPartialInlineDiffFates => 5,
        Prefix::ComposerData => 6,
        Prefix::ComposerVirtualRowHeights => 7,
        Prefix::OfsContent => 8,
    }
}

/// The name under which a kind is counted.
pub open spec fn prefix_name(p: Prefix) -> Seq<char> {
    match p {
        Prefix::AgentBubbleCheckpoint => "agentKv:bubbleCheckpoint"@,
        Prefix::AgentCheckpoint => "agentKv:checkpoint"@,
        Prefix::BubbleId => "bubbleId"@,
        Prefix::CheckpointId => "checkpointId"@,
        Prefix::CodeBlockDiff => "codeBlockDiff"@,
        Prefix::CodeBlockPartialInlineDiffFates => "codeBlockPartialInlineDiffFates"@,
        Prefix::ComposerData => "composerData"@,
        Prefix::ComposerVirtualRowHeights => "composerVirtualRowHeights"@,
        Prefix::OfsContent => "ofsContent"@,
    }
}

/// What the keys of a kind begin with: the name and a colon.
pub open spec fn prefix_tag(p: Prefix) -> Seq<char> {
    match p {
        Prefix::AgentBubbleCheckpoint => "agentKv:bubbleCheckpoint:"@,
        Prefix::AgentCheckpoint => "agentKv:checkpoint:"@,
        Prefix::BubbleId => "bubbleId:"@,
        Prefix::CheckpointId => "checkpointId:"@,
        Prefix::CodeBlockDiff => "codeBlockDiff:"@,
        Prefix::CodeBlockPartialInlineDiffFates => "codeBlockPartialInlineDiffFates:"@,
        Prefix::ComposerData => "composerData:"@,
        Prefix::ComposerVirtualRowHeights => "composerVirtualRowHeights:"@,
        Prefix::OfsContent => "ofsContent:"@,
    }
}

/// Whether all that follows the tag is the owner, rather than what stands before the
/// next colon.
pub open spec fn whole_rest(p: Prefix) -> bool {
    p == Prefix::ComposerData || p == Prefix::AgentCheckpoint
}

impl Prefix {
    pub fn rank(self) -> (r: usize)
        ensures
            r == rank(self),
            r < PREFIXES,
    {
        match self {
            Prefix::AgentBubbleCheckpoint => 0,
            Prefix::AgentCheckpoint => 1,
            Prefix::BubbleId => 2,
            Prefix::CheckpointId => 3,
            Prefix::CodeBlockDiff => 4,
            Prefix::CodeBlockPartialInlineDiffFates => 5,
            Prefix::ComposerData => 6,
            Prefix::ComposerVirtualRowHeights => 7,
            Prefix::OfsContent => 8,
        }
    }

    /// The kind at a place.
    pub fn at(i: usize) -> (p: Prefix)
        requires
            i < PREFIXES,
        ensures
            rank(p) == i,
    {
        match i {
            0 => Prefix::AgentBubbleCheckpoint,
            1 => Prefix::AgentCheckpoint,
            2 => Prefix::BubbleId,
            3 => Prefix::CheckpointId,
            4 => Prefix::CodeBlockDiff,
            5 => Prefix::CodeBlockPartialInlineDiffFates,
            6 => Prefix::ComposerData,
            7 => Prefix::ComposerVirtualRowHeights,
            _ => Prefix::OfsContent,
        }
    }

    pub fn name(self) -> (r: &'static str)
        ensures
            r@ == prefix_name(self),
    {
        match self {
            Prefix::AgentBubbleCheckpoint => "agentKv:bubbleCheckpoint",
            Prefix::AgentCheckpoint => "agentKv:checkpoint",
            Prefix::BubbleId => "bubbleId",
            Prefix::CheckpointId => "checkpointId",
            Prefix::CodeBlockDiff => "codeBlockDiff",
            Prefix::CodeBlockPartialInlineDiffFates => "codeBlockPartialInlineDiffFates",
            Prefix::ComposerData => "composerData",
            Prefix::ComposerVirtualRowHeights => "composerVirtualRowHeights",
            Prefix::OfsContent => "ofsContent",
        }
    }

    pub fn tag(self) -> (r: &'static str)
        ensures
            r@ == prefix_tag(self),
    {
        match self {
            Prefix::AgentBubbleCheckpoint => "agentKv:bubbleCheckpoint:",
            Prefix::AgentCheckpoint => "agentKv:checkpoint:",
            Prefix::BubbleId => "bubbleId:",
            Prefix::CheckpointId => "checkpointId:",
            Prefix::CodeBlockDiff => "codeBlockDiff:",
            Prefix::CodeBlockPartialInlineDiffFates => "codeBlockPartialInlineDiffFates:",
            Prefix::ComposerData => "composerData:",
            Prefix::ComposerVirtualRowHeights => "composerVirtualRowHeights:",
            Prefix::OfsContent => "ofsContent:",
        }
    }
}

/// Whose a key is.
#[derive(Debug, PartialEq, Eq)]
pub enum Attribution<'a> {
    /// A session's: the kind of the key, and the session's id.
    Owned(Prefix, &'a str),
    /// A large object, found by its content; whose it is takes a walk to know.
    Blob,
    /// A file's content, found by its hash; nobody's.
    Content,
    /// Nothing to do with chats.
    Other,
}

/// Whose a key is, mathematically.
pub enum Owner {
    Owned(Prefix, Seq<char>),
    Blob,
    Content,
    Other,
}

impl<'a> View for Attribution<'a> {
    type V = Owner;

    open spec fn view(&self) -> Owner {
        match self {
            Attribution::Owned(p, id) => Owner::Owned(*p, id@),
            Attribution::Blob => Owner::Blob,
            Attribution::Content => Owner::Content,
            Attribution::Other => Owner::Other,
        }
    }
}

/// The owner that a key of a kind names.
pub open spec fn owner_in(p: Prefix, key: Seq<char>) -> Seq<char> {
    let rest = key.skip(prefix_tag(p).len() as int);
    if whole_rest(p) {
        rest
    } else {
        before(rest, ':')
    }
}

/// The key begins with the tag of the kind.
pub open spec fn is_of_kind(p: Prefix, key: Seq<char>) -> bool {
    prefix_tag(p).is_prefix_of(key)
}

/// Whose a key is.
pub open spec fn attribution(key: Seq<char>) -> Owner {
    if exists|p: Prefix| is_of_kind(p, key) {
        let p = choose|p: Prefix| is_of_kind(p, key);
        Owner::Owned(p, owner_in(p, key))
    } else if "agentKv:blob:"@.is_prefix_of(key) {
        Owner::Blob
    } else if "composer.content."@.is_prefix_of(key) {
        Owner::Content
    } else {
        Owner::Other
    }
}

/// Decides whose a key is.
pub fn attribute(key: &str) -> (r: Attribution<'_>)
    ensures
        r@ == attribution(key@),
{
    let mut i: usize = 0;
    while i < PREFIXES
        invariant
            i <= PREFIXES,
            forall|q: Prefix| rank(q) < i ==> !#[trigger] is_of_kind(q, key@),
        decreases PREFIXES - i,
    {
        let p = Prefix::at(i);
        match strip_prefix(key, p.tag()) {
            Some(rest) => {
                proof {
                    lemma_attribution_by_tag(p, key@);
                }
                assert(rest@ =~= key@.skip(prefix_tag(p).len() as int));
                let owner = match p {
                    Prefix::ComposerData | Prefix::AgentCheckpoint => rest,
                    _ => segment(rest, ':'),
                };
                return Attribution::Owned(p, owner);
            },
            None => {},
        }
        proof {
            assert forall|q: Prefix| rank(q) < i + 1 implies !#[trigger] is_of_kind(q, key@) by {
                if rank(q) == i {
                    assert(q == p);
                }
            }
        }
        i += 1;
    }
    assert(forall|q: Prefix| rank(q) < PREFIXES && !#[trigger] is_of_kind(q, key@));
    if starts_with(key, "agentKv:blob:") {
        Attribution::Blob
    } else if starts_with(key, "composer.content.") {
        Attribution::Content
    } else {
        Attribution::Other
    }
}

/// Two texts of which neither goes on from the other do not both begin a third.
proof fn lemma_not_both(a: Seq<char>, b: Seq<char>, i: int, key: Seq<char>)
    requires
        0 <= i < a.len(),
        i < b.len(),
        a[i] != b[i],
    ensures
        !(a.is_prefix_of(key) && b.is_prefix_of(key)),
{
    if a.is_prefix_of(key) && b.is_prefix_of(key) {
        assert(a[i] == key.subrange(0, a.len() as int)[i]);
        assert(b[i] == key.subrange(0, b.len() as int)[i]);
    }
}

/// A place at which the tags of two different kinds differ.
spec fn split_place(p: Prefix, q: Prefix) -> int {
    if prefix_tag(p)[0] != prefix_tag(q)[0] {
        0
    } else if prefix_tag(p)[1] != prefix_tag(q)[1] {
        1
    } else if prefix_tag(p)[8] != prefix_tag(q)[8] {
        8
    } else {
        9
    }
}

proof fn lemma_tags_differ(p: Prefix, q: Prefix)
    requires
        p != q,
    ensures
        0 <= split_place(p, q) < prefix_tag(p).len(),
        split_place(p, q) < prefix_tag(q).len(),
        prefix_tag(p)[split_place(p, q)] != prefix_tag(q)[split_place(p, q)],
{
    reveal_strlit("agentKv:bubbleCheckpoint:");
    reveal_strlit("agentKv:checkpoint:");
    reveal_strlit("bubbleId:");
    reveal_strlit("checkpointId:");
    reveal_strlit("codeBlockDiff:");
    reveal_strlit("codeBlockPartialInlineDiffFates:");
    reveal_strlit("composerData:");
    reveal_strlit("composerVirtualRowHeights:");
    reveal_strlit("ofsContent:");
}

/// A key that begins with the tag of a kind is of that kind: the kinds do not overlap.
pub proof fn lemma_attribution_by_tag(p: Prefix, key: Seq<char>)
    requires
        is_of_kind(p, key),
    ensures
        attribution(key) == Owner::Owned(p, owner_in(p, key)),
{
    let q = choose|q: Prefix| is_of_kind(q, key);
    if q != p {
        lemma_tags_differ(p, q);
        lemma_not_both(prefix_tag(p), prefix_tag(q), split_place(p, q), key);
    }
}

/// A row of the table, as it was read.
#[derive(Debug)]
pub struct KvRow {
    /// The bytes of the key, where it is a text.
    pub key: Option<Vec<u8>>,
    /// The length of the value, where it was asked for.
    pub length: i64,
    /// Whether there is no value.
    pub is_null: bool,
}

/// A row of the table.
pub struct RowView {
    /// The key, where it is a text in UTF-8.
    pub key: Option<Seq<char>>,
    pub bytes: nat,
    pub is_null: bool,
}

impl View for KvRow {
    type V = RowView;

    open spec fn view(&self) -> RowView {
        RowView {
            key: match self.key {
                Some(b) => utf8_text(b@),
                None => None,
            },
            bytes: if self.length < 0 {
                0
            } else {
                self.length as nat
            },
            is_null: self.is_null,
        }
    }
}

/// The views of rows.
pub open spec fn row_views(rows: Seq<KvRow>) -> Seq<RowView> {
    rows.map_values(|r: KvRow| r@)
}

/// Whose a row is.
pub open spec fn row_owner(row: RowView) -> Owner {
    match row.key {
        Some(k) => attribution(k),
        None => Owner::Other,
    }
}

/// A way to pick rows.
pub enum Sel {
    All,
    /// The rows of a kind.
    Kind(Prefix),
    /// The orphans of a kind.
    OrphanKind(Prefix),
    /// The rows of a session.
    Session(Seq<char>),
    /// The rows of a session and a kind.
    SessionKind(Seq<char>, Prefix),
    Blob,
    Content,
    Other,
    /// The tombstones of live sessions.
    LiveTombstone,
    /// All tombstones.
    Tombstone,
    /// The rows that a sweep deletes.
    Condemned,
    /// The rows of a kind that a sweep deletes.
    CondemnedKind(Prefix),
    /// The rows of sessions.
    Owned,
    /// The rows of live sessions of a kind.
    LiveKind(Prefix),
}

/// A tombstone is a row of the kind `composerData` without a value.
pub open spec fn is_tombstone(row: RowView) -> bool {
    row.is_null && (row_owner(row) matches Owner::Owned(Prefix::ComposerData, _))
}

/// Whether a row is picked.
pub open spec fn picks(live: Set<Seq<char>>, sel: Sel, row: RowView) -> bool {
    match sel {
        Sel::All => true,
        Sel::Kind(p) => row_owner(row) matches Owner::Owned(q, _) && q == p,
        Sel::OrphanKind(p) => row_owner(row) matches Owner::Owned(q, c) && q == p && !live.contains(
            c,
        ),
        Sel::Session(c) => row_owner(row) matches Owner::Owned(_, d) && d == c,
        Sel::SessionKind(c, p) => row_owner(row) matches Owner::Owned(q, d) && q == p && d == c,
        Sel::Blob => row_owner(row) is Blob,
        Sel::Content => row_owner(row) is Content,
        Sel::Other => row_owner(row) is Other,
        Sel::LiveTombstone => is_tombstone(row) && (row_owner(row) matches Owner::Owned(_, c)
            && live.contains(c)),
        Sel::Tombstone => is_tombstone(row),
        Sel::Condemned => condemned(live, row),
        Sel::CondemnedKind(p) => condemned(live, row) && (row_owner(row) matches Owner::Owned(q, _)
            && q == p),
        Sel::Owned => row_owner(row) is Owned,
        Sel::LiveKind(p) => row_owner(row) matches Owner::Owned(q, c) && q == p && live.contains(c),
    }
}

/// How many rows are picked.
pub open spec fn tally(live: Set<Seq<char>>, rows: Seq<RowView>, sel: Sel) -> nat
    decreases rows.len(),
{
    if rows.len() == 0 {
        0
    } else {
        tally(live, rows.drop_last(), sel) + if picks(live, sel, rows.last()) {
            1nat
        } else {
            0
        }
    }
}

/// What the values of the picked rows weigh together.
pub open spec fn weigh(live: Set<Seq<char>>, rows: Seq<RowView>, sel: Sel) -> nat
    decreases rows.len(),
{
    if rows.len() == 0 {
        0
    } else {
        weigh(live, rows.drop_last(), sel) + if picks(live, sel, rows.last()) {
            rows.last().bytes
        } else {
            0
        }
    }
}

/// What one more row adds.
pub proof fn lemma_push_row(live: Set<Seq<char>>, rows: Seq<RowView>, row: RowView, sel: Sel)
    ensures
        tally(live, rows.push(row), sel) == tally(live, rows, sel) + if picks(live, sel, row) {
            1nat
        } else {
            0
        },
        weigh(live, rows.push(row), sel) == weigh(live, rows, sel) + if picks(live, sel, row) {
            row.bytes
        } else {
            0
        },
{
    assert(rows.push(row).drop_last() =~= rows);
}

/// No selection exceeds all rows.
pub proof fn lemma_part_of_all(live: Set<Seq<char>>, rows: Seq<RowView>, sel: Sel)
    ensures
        tally(live, rows, sel) <= tally(live, rows, Sel::All) == rows.len(),
        weigh(live, rows, sel) <= weigh(live, rows, Sel::All),
    decreases rows.len(),
{
    if rows.len() > 0 {
        lemma_part_of_all(live, rows.drop_last(), sel);
    }
}

/// Rows and the bytes of their values, and how many of them are orphans'.
#[derive(Debug, Clone, Copy, PartialEq, Eq, Structural)]
pub struct PrefixStat {
    pub rows: u64,
    pub bytes: u64,
    pub orphan_rows: u64,
    pub orphan_bytes: u64,
}

/// Nothing counted.
pub open spec fn zero_stat() -> PrefixStat {
    PrefixStat { rows: 0, bytes: 0, orphan_rows: 0, orphan_bytes: 0 }
}

impl Default for PrefixStat {
    fn default() -> (r: Self)
        ensures
            r == zero_stat(),
    {
        PrefixStat { rows: 0, bytes: 0, orphan_rows: 0, orphan_bytes: 0 }
    }
}

/// One count for each kind. A kind of which there are no rows counts zero.
#[derive(Debug)]
pub struct PrefixTable {
    stats: Vec<PrefixStat>,
}

impl View for PrefixTable {
    type V = Seq<PrefixStat>;

    closed spec fn view(&self) -> Seq<PrefixStat> {
        self.stats@
    }
}

impl PrefixTable {
    pub open spec fn wf(&self) -> bool {
        self@.len() == PREFIXES
    }

    pub fn new() -> (r: Self)
        ensures
            r.wf(),
            forall|p: Prefix| #[trigger] r@[rank(p)] == zero_stat(),
    {
        let mut stats: Vec<PrefixStat> = Vec::new();
        stats.resize(PREFIXES, PrefixStat::default());
        PrefixTable { stats }
    }

    pub fn get(&self, p: Prefix) -> (r: PrefixStat)
        requires
            self.wf(),
        ensures
            r == self@[rank(p)],
    {
        self.stats[p.rank()]
    }

    pub fn set(&mut self, p: Prefix, s: PrefixStat)
        requires
            old(self).wf(),
        ensures
            final(self).wf(),
            final(self)@ == old(self)@.update(rank(p), s),
    {
        let i: usize = p.rank();
        self.stats.set(i, s);
    }

    /// A table with the same counts.
    pub fn copy(&self) -> (r: Self)
        requires
            self.wf(),
        ensures
            r@ == self@,
    {
        let mut stats: Vec<PrefixStat> = Vec::new();
        let mut i: usize = 0;
        while i < PREFIXES
            invariant
                i <= PREFIXES,
                self.wf(),
                stats@ == self@.take(i as int),
            decreases PREFIXES - i,
        {
            stats.push(self.stats[i]);
            proof {
                assert(self@.take(i + 1) =~= self@.take(i as int).push(self@[i as int]));
            }
            i += 1;
        }
        assert(self@.take(i as int) =~= self@);
        PrefixTable { stats }
    }
}

/// What a session's rows add up to.
#[derive(Debug)]
pub struct ComposerStat {
    pub rows: u64,
    pub bytes: u64,
    /// The same by kind. The counts of orphans are not used here.
    pub per_prefix: PrefixTable,
}

/// What the rows of the table add up to.
pub struct ScanResult {
    pub total_rows: u64,
    pub per_prefix: PrefixTable,
    /// What belongs to each session that owns a row, alive or not.
    pub per_composer: IdMap<ComposerStat>,
    /// The owners that are not alive, in the order of their ids.
    pub orphan_composers: Vec<String>,
    pub blob: PrefixStat,
    pub content: PrefixStat,
    pub other: PrefixStat,
    /// The live sessions without a `composerData` row.
    pub ghost_headers: u64,
    /// The tombstones of live sessions; those of orphans count as orphans.
    pub live_tombstone_rows: u64,
    /// The keys that a sweep deletes, where they were asked for.
    pub condemned_keys: Vec<String>,
    /// Whether the lengths of the values were read.
    pub sized: bool,
}

/// The figures before a scan.
pub open spec fn no_figures() -> Figures {
    Figures {
        total_rows: 0,
        kinds: Seq::new(PREFIXES as nat, |i: int| zero_stat()),
        sessions: Map::empty(),
        orphans: Seq::empty(),
        blob: zero_stat(),
        content: zero_stat(),
        other: zero_stat(),
        ghost_headers: 0,
        live_tombstone_rows: 0,
        condemned: Seq::empty(),
        sized: false,
    }
}

impl Default for ScanResult {
    /// Nothing was scanned.
    fn default() -> (r: Self)
        ensures
            r.wf(),
            r@ == no_figures(),
    {
        let r = ScanResult {
            total_rows: 0,
            per_prefix: PrefixTable::new(),
            per_composer: IdMap::new(),
            orphan_composers: Vec::new(),
            blob: PrefixStat::default(),
            content: PrefixStat::default(),
            other: PrefixStat::default(),
            ghost_headers: 0,
            live_tombstone_rows: 0,
            condemned_keys: Vec::new(),
            sized: false,
        };
        proof {
            assert forall|i: int| 0 <= i < PREFIXES implies r.per_prefix@[i] == zero_stat() by {
                let p = kind_at(i);
                assert(rank(p) == i);
            }
            assert(r@.kinds =~= Seq::new(PREFIXES as nat, |i: int| zero_stat()));
            assert(r@.sessions =~= Map::<Seq<char>, SessionFigures>::empty());
            assert(r@.orphans =~= Seq::<Seq<char>>::empty());
            assert(r@.condemned =~= Seq::<Seq<char>>::empty());
        }
        r
    }
}

/// The kind at a place in the order of the names.
pub open spec fn kind_at(i: int) -> Prefix {
    if i == 0 {
        Prefix::AgentBubbleCheckpoint
    } else if i == 1 {
        Prefix::AgentCheckpoint
    } else if i == 2 {
        Prefix::BubbleId
    } else if i == 3 {
        Prefix::CheckpointId
    } else if i == 4 {
        Prefix::CodeBlockDiff
    } else if i == 5 {
        Prefix::CodeBlockPartialInlineDiffFates
    } else if i == 6 {
        Prefix::ComposerData
    } else if i == 7 {
        Prefix::ComposerVirtualRowHeights
    } else {
        Prefix::OfsContent
    }
}

/// The figures of a session.
pub struct SessionFigures {
    pub rows: u64,
    pub bytes: u64,
    pub kinds: Seq<PrefixStat>,
}

/// The figures of a scan.
pub struct Figures {
    pub total_rows: u64,
    pub kinds: Seq<PrefixStat>,
    pub sessions: Map<Seq<char>, SessionFigures>,
    pub orphans: Seq<Seq<char>>,
    pub blob: PrefixStat,
    pub content: PrefixStat,
    pub other: PrefixStat,
    pub ghost_headers: u64,
    pub live_tombstone_rows: u64,
    pub condemned: Seq<Seq<char>>,
    pub sized: bool,
}

impl View for ComposerStat {
    type V = SessionFigures;

    open spec fn view(&self) -> SessionFigures {
        SessionFigures { rows: self.rows, bytes: self.bytes, kinds: self.per_prefix@ }
    }
}

impl View for ScanResult {
    type V = Figures;

    open spec fn view(&self) -> Figures {
        Figures {
            total_rows: self.total_rows,
            kinds: self.per_prefix@,
            sessions: self.per_composer@.map_values(|c: ComposerStat| c@),
            orphans: views(self.orphan_composers@),
            blob: self.blob,
            content: self.content,
            other: self.other,
            ghost_headers: self.ghost_headers,
            live_tombstone_rows: self.live_tombstone_rows,
            condemned: views(self.condemned_keys@),
            sized: self.sized,
        }
    }
}

impl ScanResult {
    /// The tables have a count for each kind.
    pub open spec fn wf(&self) -> bool {
        &&& self.per_prefix.wf()
        &&& self.per_composer.wf()
        &&& forall|c: Seq<char>| #[trigger]
            self.per_composer@.contains_key(c) ==> self.per_composer@[c].per_prefix.wf()
    }
}

/// The counts of a kind.
pub open spec fn kind_stat_ok(
    s: PrefixStat,
    live: Set<Seq<char>>,
    rows: Seq<RowView>,
    p: Prefix,
) -> bool {
    &&& s.rows == tally(live, rows, Sel::Kind(p))
    &&& s.bytes == weigh(live, rows, Sel::Kind(p))
    &&& s.orphan_rows == tally(live, rows, Sel::OrphanKind(p))
    &&& s.orphan_bytes == weigh(live, rows, Sel::OrphanKind(p))
}

/// The counts of all kinds.
pub open spec fn kinds_ok(t: PrefixTable, live: Set<Seq<char>>, rows: Seq<RowView>) -> bool {
    &&& t.wf()
    &&& forall|p: Prefix| kind_stat_ok(#[trigger] t@[rank(p)], live, rows, p)
}

/// The counts of rows that belong to nobody.
pub open spec fn plain_stat_ok(
    s: PrefixStat,
    live: Set<Seq<char>>,
    rows: Seq<RowView>,
    sel: Sel,
) -> bool {
    &&& s.rows == tally(live, rows, sel)
    &&& s.bytes == weigh(live, rows, sel)
    &&& s.orphan_rows == 0
    &&& s.orphan_bytes == 0
}

/// The counts of a session.
pub open spec fn session_stat_ok(
    s: ComposerStat,
    live: Set<Seq<char>>,
    rows: Seq<RowView>,
    c: Seq<char>,
) -> bool {
    &&& s.rows == tally(live, rows, Sel::Session(c))
    &&& s.bytes == weigh(live, rows, Sel::Session(c))
    &&& s.per_prefix.wf()
    &&& forall|p: Prefix|
        plain_stat_ok(#[trigger] s.per_prefix@[rank(p)], live, rows, Sel::SessionKind(c, p))
}

/// The counts of all sessions.
pub open spec fn sessions_ok(
    m: Map<Seq<char>, ComposerStat>,
    live: Set<Seq<char>>,
    rows: Seq<RowView>,
) -> bool {
    &&& forall|c: Seq<char>| #[trigger]
        m.contains_key(c) <==> tally(live, rows, Sel::Session(c)) > 0
    &&& forall|c: Seq<char>| #[trigger] m.contains_key(c) ==> session_stat_ok(m[c], live, rows, c)
}

/// The id owns a row and is not alive.
pub open spec fn is_orphan(live: Set<Seq<char>>, rows: Seq<RowView>, c: Seq<char>) -> bool {
    !live.contains(c) && tally(live, rows, Sel::Session(c)) > 0
}

/// The session has a `composerData` row.
pub open spec fn has_data(rows: Seq<RowView>, c: Seq<char>) -> bool {
    tally(Set::empty(), rows, Sel::SessionKind(c, Prefix::ComposerData)) > 0
}

/// The live sessions without a `composerData` row.
pub open spec fn ghosts(live: Set<Seq<char>>, rows: Seq<RowView>) -> Set<Seq<char>> {
    live.filter(|c: Seq<char>| !has_data(rows, c))
}

/// A sweep deletes the row: it is an orphan's, or a tombstone.
pub open spec fn condemned(live: Set<Seq<char>>, row: RowView) -> bool {
    match row_owner(row) {
        Owner::Owned(p, c) => !live.contains(c) || is_tombstone(row),
        _ => false,
    }
}

/// The keys of the rows that a sweep deletes, in the order of the rows.
pub open spec fn condemned_keys(live: Set<Seq<char>>, rows: Seq<RowView>) -> Seq<Seq<char>>
    decreases rows.len(),
{
    if rows.len() == 0 {
        Seq::empty()
    } else {
        let rest = condemned_keys(live, rows.drop_last());
        if condemned(live, rows.last()) {
            rest.push(rows.last().key->0)
        } else {
            rest
        }
    }
}

/// What a scan of the rows says.
pub open spec fn scan_ok(
    r: ScanResult,
    live: Set<Seq<char>>,
    rows: Seq<RowView>,
    deep: bool,
    collect: bool,
) -> bool {
    &&& r.total_rows == rows.len()
    &&& kinds_ok(r.per_prefix, live, rows)
    &&& r.per_composer.wf()
    &&& sessions_ok(r.per_composer@, live, rows)
    &&& lex_increasing(views(r.orphan_composers@))
    &&& forall|c: Seq<char>| #[trigger]
        views(r.orphan_composers@).contains(c) <==> is_orphan(live, rows, c)
    &&& plain_stat_ok(r.blob, live, rows, Sel::Blob)
    &&& plain_stat_ok(r.content, live, rows, Sel::Content)
    &&& plain_stat_ok(r.other, live, rows, Sel::Other)
    &&& r.ghost_headers == ghosts(live, rows).len()
    &&& r.live_tombstone_rows == tally(live, rows, Sel::LiveTombstone)
    &&& views(r.condemned_keys@) == (if collect {
        condemned_keys(live, rows)
    } else {
        Seq::empty()
    })
    &&& r.sized == deep
}

/// One row more in a count.
pub(crate) fn count(s: PrefixStat, bytes: u64) -> (r: PrefixStat)
    requires
        s.rows < u64::MAX,
        s.bytes + bytes <= u64::MAX,
    ensures
        r == (PrefixStat {
            rows: (s.rows + 1) as u64,
            bytes: (s.bytes + bytes) as u64,
            ..s
        }),
{
    PrefixStat {
        rows: s.rows + 1,
        bytes: s.bytes + bytes,
        orphan_rows: s.orphan_rows,
        orphan_bytes: s.orphan_bytes,
    }
}

/// One row more in the count of a kind.
fn count_kind(
    t: &mut PrefixTable,
    p: Prefix,
    bytes: u64,
    orphan: bool,
    live: Ghost<Set<Seq<char>>>,
    rows: Ghost<Seq<RowView>>,
    row: Ghost<RowView>,
)
    requires
        kinds_ok(*old(t), live@, rows@),
        rows@.len() < u64::MAX,
        weigh(live@, rows@, Sel::All) + bytes <= u64::MAX,
        row@.bytes == bytes,
        row_owner(row@) matches Owner::Owned(q, c) && q == p && orphan == !live@.contains(c),
    ensures
        kinds_ok(*final(t), live@, rows@.push(row@)),
{
    let s = t.get(p);
    proof {
        assert(kind_stat_ok(t@[rank(p)], live@, rows@, p));
        lemma_part_of_all(live@, rows@, Sel::Kind(p));
        lemma_part_of_all(live@, rows@, Sel::OrphanKind(p));
    }
    let mut s2 = count(s, bytes);
    if orphan {
        s2 = PrefixStat {
            rows: s2.rows,
            bytes: s2.bytes,
            orphan_rows: s2.orphan_rows + 1,
            orphan_bytes: s2.orphan_bytes + bytes,
        };
    }
    t.set(p, s2);
    proof {
        assert forall|q: Prefix| kind_stat_ok(#[trigger] t@[rank(q)], live@, rows@.push(row@), q) by {
            lemma_push_row(live@, rows@, row@, Sel::Kind(q));
            lemma_push_row(live@, rows@, row@, Sel::OrphanKind(q));
            assert(kind_stat_ok(old(t)@[rank(q)], live@, rows@, q));
            if q != p {
                assert(rank(q) != rank(p));
            }
        }
    }
}

/// A row that is no session's leaves the counts of kinds as they are.
proof fn lemma_kinds_same(
    t: PrefixTable,
    live: Set<Seq<char>>,
    rows: Seq<RowView>,
    row: RowView,
)
    requires
        kinds_ok(t, live, rows),
        !(row_owner(row) is Owned),
    ensures
        kinds_ok(t, live, rows.push(row)),
{
    assert forall|q: Prefix| kind_stat_ok(#[trigger] t@[rank(q)], live, rows.push(row), q) by {
        lemma_push_row(live, rows, row, Sel::Kind(q));
        lemma_push_row(live, rows, row, Sel::OrphanKind(q));
    }
}

/// One row more in the count of a session.
fn count_session(
    m: &mut IdMap<ComposerStat>,
    cid: &str,
    p: Prefix,
    bytes: u64,
    live: Ghost<Set<Seq<char>>>,
    rows: Ghost<Seq<RowView>>,
    row: Ghost<RowView>,
)
    requires
        old(m).wf(),
        sessions_ok(old(m)@, live@, rows@),
        rows@.len() < u64::MAX,
        weigh(live@, rows@, Sel::All) + bytes <= u64::MAX,
        row@.bytes == bytes,
        row_owner(row@) == Owner::Owned(p, cid@),
    ensures
        final(m).wf(),
        sessions_ok(final(m)@, live@, rows@.push(row@)),
{
    let ghost before = m@;
    let ghost more = rows@.push(row@);
    proof {
        lemma_part_of_all(live@, rows@, Sel::Session(cid@));
        lemma_part_of_all(live@, rows@, Sel::SessionKind(cid@, p));
        assert(m@.contains_key(cid@) <==> tally(live@, rows@, Sel::Session(cid@)) > 0);
        lemma_push_row(live@, rows@, row@, Sel::Session(cid@));
    }
    if m.contains(cid) {
        match m.get_mut(cid) {
            Some(c) => {
                proof {
                    assert(session_stat_ok(*c, live@, rows@, cid@));
                    assert(plain_stat_ok(
                        c.per_prefix@[rank(p)],
                        live@,
                        rows@,
                        Sel::SessionKind(cid@, p),
                    ));
                }
                let ghost c0 = *c;
                c.rows = c.rows + 1;
                c.bytes = c.bytes + bytes;
                let s = count(c.per_prefix.get(p), bytes);
                c.per_prefix.set(p, s);
                proof {
                    assert forall|q: Prefix| plain_stat_ok(
                        #[trigger] c.per_prefix@[rank(q)],
                        live@,
                        more,
                        Sel::SessionKind(cid@, q),
                    ) by {
                        lemma_push_row(live@, rows@, row@, Sel::SessionKind(cid@, q));
                        assert(plain_stat_ok(
                            c0.per_prefix@[rank(q)],
                            live@,
                            rows@,
                            Sel::SessionKind(cid@, q),
                        ));
                        if q != p {
                            assert(rank(q) != rank(p));
                        }
                    }
                    assert(session_stat_ok(*c, live@, more, cid@));
                }
            },
            None => {},
        }
    } else {
        let mut table = PrefixTable::new();
        let ghost empty = table@;
        table.set(p, count(PrefixStat::default(), bytes));
        let c = ComposerStat { rows: 1, bytes, per_prefix: table };
        proof {
            lemma_none(live@, rows@, cid@);
            assert forall|q: Prefix| plain_stat_ok(
                #[trigger] c.per_prefix@[rank(q)],
                live@,
                more,
                Sel::SessionKind(cid@, q),
            ) by {
                lemma_push_row(live@, rows@, row@, Sel::SessionKind(cid@, q));
                lemma_none_of_kind(live@, rows@, cid@, q);
                assert(empty[rank(q)] == zero_stat());
                if q != p {
                    assert(rank(q) != rank(p));
                }
            }
            assert(session_stat_ok(c, live@, more, cid@));
        }
        m.insert(cid.to_owned(), c);
    }
    proof {
        assert forall|c: Seq<char>| #[trigger] m@.contains_key(c) <==> tally(
            live@,
            more,
            Sel::Session(c),
        ) > 0 by {
            lemma_push_row(live@, rows@, row@, Sel::Session(c));
            assert(before.contains_key(c) <==> tally(live@, rows@, Sel::Session(c)) > 0);
        }
        assert forall|c: Seq<char>| #[trigger] m@.contains_key(c) implies session_stat_ok(
            m@[c],
            live@,
            more,
            c,
        ) by {
            if c != cid@ {
                assert(before.contains_key(c));
                lemma_session_same(before[c], live@, rows@, row@, c);
            }
        }
    }
}

/// A row of another session, or of none, leaves a session's counts as they are.
proof fn lemma_session_same(
    s: ComposerStat,
    live: Set<Seq<char>>,
    rows: Seq<RowView>,
    row: RowView,
    c: Seq<char>,
)
    requires
        session_stat_ok(s, live, rows, c),
        !picks(live, Sel::Session(c), row),
    ensures
        session_stat_ok(s, live, rows.push(row), c),
{
    lemma_push_row(live, rows, row, Sel::Session(c));
    assert forall|q: Prefix| plain_stat_ok(
        #[trigger] s.per_prefix@[rank(q)],
        live,
        rows.push(row),
        Sel::SessionKind(c, q),
    ) by {
        lemma_push_row(live, rows, row, Sel::SessionKind(c, q));
    }
}

/// What weighs nothing for a session without rows.
proof fn lemma_none(live: Set<Seq<char>>, rows: Seq<RowView>, c: Seq<char>)
    ensures
        tally(live, rows, Sel::Session(c)) == 0 ==> weigh(live, rows, Sel::Session(c)) == 0,
    decreases rows.len(),
{
    if rows.len() > 0 {
        lemma_none(live, rows.drop_last(), c);
    }
}

proof fn lemma_none_of_kind(live: Set<Seq<char>>, rows: Seq<RowView>, c: Seq<char>, p: Prefix)
    ensures
        tally(live, rows, Sel::SessionKind(c, p)) <= tally(live, rows, Sel::Session(c)),
        tally(live, rows, Sel::Session(c)) == 0 ==> weigh(live, rows, Sel::SessionKind(c, p)) == 0,
    decreases rows.len(),
{
    if rows.len() > 0 {
        lemma_none_of_kind(live, rows.drop_last(), c, p);
    }
}

/// What a selection that does not ask for life picks does not depend on it.
proof fn lemma_kind_without_live(
    live: Set<Seq<char>>,
    rows: Seq<RowView>,
    c: Seq<char>,
    p: Prefix,
)
    ensures
        tally(live, rows, Sel::SessionKind(c, p)) == tally(
            Set::empty(),
            rows,
            Sel::SessionKind(c, p),
        ),
    decreases rows.len(),
{
    if rows.len() > 0 {
        lemma_kind_without_live(live, rows.drop_last(), c, p);
    }
}

/// The key of a row, where it is a text in UTF-8.
pub(crate) fn row_key(row: &KvRow) -> (r: Option<&str>)
    ensures
        r is Some <==> row@.key is Some,
        r matches Some(k) ==> row@.key == Some(k@),
{
    match &row.key {
        Some(b) => from_utf8(b.as_slice()),
        None => None,
    }
}

/// The length of a row's value, where it has one.
pub(crate) fn row_bytes(row: &KvRow) -> (r: u64)
    ensures
        r == row@.bytes,
{
    if row.length < 0 {
        0
    } else {
        row.length as u64
    }
}

/// A scan under way.
pub struct Scanner<'a> {
    live: &'a LiveSet,
    collect: bool,
    result: ScanResult,
    orphans: FxHashSet<String>,
    with_data: FxHashSet<String>,
    total_bytes: u64,
    seen: Ghost<Seq<RowView>>,
}

/// How many rows there are between two looks at the wish to stop.
pub const CHECK_EVERY: u64 = 1024;

impl<'a> Scanner<'a> {
    /// The ids that count as alive.
    pub closed spec fn live(&self) -> Set<Seq<char>> {
        self.live@
    }

    /// The rows counted so far.
    pub closed spec fn rows(&self) -> Seq<RowView> {
        self.seen@
    }

    /// Whether the lengths of the values are read.
    pub closed spec fn deep(&self) -> bool {
        self.result.sized
    }

    /// Whether the keys to sweep are collected.
    pub closed spec fn collects(&self) -> bool {
        self.collect
    }

    /// The counts are those of the rows so far.
    pub closed spec fn wf(&self) -> bool {
        let live = self.live@;
        let rows = self.seen@;
        let r = self.result;
        &&& r.total_rows == rows.len()
        &&& self.total_bytes == weigh(live, rows, Sel::All)
        &&& kinds_ok(r.per_prefix, live, rows)
        &&& r.per_composer.wf()
        &&& sessions_ok(r.per_composer@, live, rows)
        &&& views(r.orphan_composers@).no_duplicates()
        &&& views(r.orphan_composers@).to_set() =~= fx_names(self.orphans)
        &&& forall|c: Seq<char>| #[trigger]
            fx_names(self.orphans).contains(c) <==> is_orphan(live, rows, c)
        &&& forall|c: Seq<char>| #[trigger]
            fx_names(self.with_data).contains(c) <==> has_data(rows, c)
        &&& plain_stat_ok(r.blob, live, rows, Sel::Blob)
        &&& plain_stat_ok(r.content, live, rows, Sel::Content)
        &&& plain_stat_ok(r.other, live, rows, Sel::Other)
        &&& r.live_tombstone_rows == tally(live, rows, Sel::LiveTombstone)
        &&& views(r.condemned_keys@) == (if self.collect {
            condemned_keys(live, rows)
        } else {
            Seq::empty()
        })
    }

    /// The counters hold these rows too.
    pub open spec fn has_room(&self, more: Seq<RowView>) -> bool {
        &&& self.rows().len() + more.len() <= u64::MAX
        &&& weigh(self.live(), self.rows() + more, Sel::All) <= u64::MAX
    }

    /// No rows counted yet.
    pub fn new(live: &'a LiveSet, deep: bool, collect: bool) -> (r: Self)
        ensures
            r.wf(),
            r.live() == live@,
            r.rows() == Seq::<RowView>::empty(),
            r.deep() == deep,
            r.collects() == collect,
    {
        let result = ScanResult {
            total_rows: 0,
            per_prefix: PrefixTable::new(),
            per_composer: IdMap::new(),
            orphan_composers: Vec::new(),
            blob: PrefixStat::default(),
            content: PrefixStat::default(),
            other: PrefixStat::default(),
            ghost_headers: 0,
            live_tombstone_rows: 0,
            condemned_keys: Vec::new(),
            sized: deep,
        };
        let r = Scanner {
            live,
            collect,
            result,
            orphans: names_new(),
            with_data: names_new(),
            total_bytes: 0,
            seen: Ghost(Seq::empty()),
        };
        proof {
            assert(views(r.result.condemned_keys@) =~= Seq::<Seq<char>>::empty());
            assert(views(r.result.orphan_composers@) =~= Seq::<Seq<char>>::empty());
            assert(views(r.result.orphan_composers@).to_set() =~= Set::<Seq<char>>::empty());
            assert forall|p: Prefix| kind_stat_ok(
                #[trigger] r.result.per_prefix@[rank(p)],
                live@,
                Seq::empty(),
                p,
            ) by {
                assert(r.result.per_prefix@[rank(p)] == zero_stat());
            }
        }
        r
    }

    /// Whether the counters hold these rows too.
    pub fn fits(&self, rows: &[KvRow]) -> (r: bool)
        requires
            self.wf(),
        ensures
            r == self.has_room(row_views(rows@)),
    {
        let ghost vs = row_views(rows@);
        let mut n: u64 = self.result.total_rows;
        let mut bytes: u64 = self.total_bytes;
        let mut i: usize = 0;
        assert(self.rows() + vs.take(0) =~= self.rows());
        while i < rows.len()
            invariant
                i <= rows@.len(),
                self.wf(),
                vs == row_views(rows@),
                n == self.rows().len() + i,
                bytes == weigh(self.live(), self.rows() + vs.take(i as int), Sel::All),
            decreases rows@.len() - i,
        {
            let b: u64 = row_bytes(&rows[i]);
            proof {
                let a = self.rows() + vs.take(i as int);
                assert(self.rows() + vs.take(i + 1) =~= a.push(vs[i as int]));
                lemma_push_row(self.live(), a, vs[i as int], Sel::All);
                lemma_weigh_prefix(self.live(), self.rows() + vs, self.rows().len() + i + 1);
                assert((self.rows() + vs).take(self.rows().len() + i + 1) =~= self.rows() + vs.take(
                    i + 1,
                ));
            }
            if n == u64::MAX || b > u64::MAX - bytes {
                return false;
            }
            n += 1;
            bytes += b;
            i += 1;
        }
        assert(vs.take(i as int) =~= vs);
        true
    }

    /// Counts a row.
    fn push(&mut self, row: &KvRow)
        requires
            old(self).wf(),
            old(self).rows().len() < u64::MAX,
            weigh(old(self).live(), old(self).rows().push(row@), Sel::All) <= u64::MAX,
        ensures
            final(self).wf(),
            final(self).rows() == old(self).rows().push(row@),
            final(self).live() == old(self).live(),
            final(self).deep() == old(self).deep(),
            final(self).collects() == old(self).collects(),
    {
        let ghost live = self.live@;
        let ghost rows = self.seen@;
        let ghost more = rows.push(row@);
        let bytes: u64 = row_bytes(row);
        proof {
            lemma_push_row(live, rows, row@, Sel::All);
            lemma_push_row(live, rows, row@, Sel::Blob);
            lemma_push_row(live, rows, row@, Sel::Content);
            lemma_push_row(live, rows, row@, Sel::Other);
            lemma_push_row(live, rows, row@, Sel::LiveTombstone);
            lemma_part_of_all(live, rows, Sel::Blob);
            lemma_part_of_all(live, rows, Sel::Content);
            lemma_part_of_all(live, rows, Sel::Other);
            lemma_part_of_all(live, rows, Sel::LiveTombstone);
            assert(more.drop_last() =~= rows);
        }
        self.result.total_rows = self.result.total_rows + 1;
        self.total_bytes = self.total_bytes + bytes;
        let who = match row_key(row) {
            Some(key) => attribute(key),
            None => Attribution::Other,
        };
        assert(who@ == row_owner(row@));
        match who {
            Attribution::Owned(prefix, cid) => {
                let is_live = self.live.contains(cid);
                let tombstone = row.is_null && prefix == Prefix::ComposerData;
                assert(tombstone == is_tombstone(row@));
                count_kind(
                    &mut self.result.per_prefix,
                    prefix,
                    bytes,
                    !is_live,
                    Ghost(live),
                    Ghost(rows),
                    Ghost(row@),
                );
                count_session(
                    &mut self.result.per_composer,
                    cid,
                    prefix,
                    bytes,
                    Ghost(live),
                    Ghost(rows),
                    Ghost(row@),
                );
                if is_live && tombstone {
                    self.result.live_tombstone_rows = self.result.live_tombstone_rows + 1;
                }
                if self.collect && (!is_live || tombstone) {
                    let ghost k0 = views(self.result.condemned_keys@);
                    match row_key(row) {
                        Some(key) => {
                            self.result.condemned_keys.push(key.to_owned());
                            assert(views(self.result.condemned_keys@) =~= k0.push(row@.key->0));
                        },
                        None => {},
                    }
                }
                if !is_live && !names_has(&self.orphans, cid) {
                    let ghost o0 = views(self.result.orphan_composers@);
                    let ghost s0 = fx_names(self.orphans);
                    names_add(&mut self.orphans, cid.to_owned());
                    self.result.orphan_composers.push(cid.to_owned());
                    proof {
                        assert(views(self.result.orphan_composers@) =~= o0.push(cid@));
                        assert(!o0.contains(cid@)) by {
                            assert(!o0.to_set().contains(cid@));
                        }
                        crate::types::lemma_to_set_push(o0, cid@);
                    }
                }
                if prefix == Prefix::ComposerData && !names_has(&self.with_data, cid) {
                    names_add(&mut self.with_data, cid.to_owned());
                }
            },
            Attribution::Blob => {
                self.result.blob = count(self.result.blob, bytes);
            },
            Attribution::Content => {
                self.result.content = count(self.result.content, bytes);
            },
            Attribution::Other => {
                self.result.other = count(self.result.other, bytes);
            },
        }
        proof {
            if !(row_owner(row@) is Owned) {
                lemma_kinds_same(old(self).result.per_prefix, live, rows, row@);
                assert forall|c: Seq<char>| #[trigger] self.result.per_composer@.contains_key(c)
                    <==> tally(live, more, Sel::Session(c)) > 0 by {
                    lemma_push_row(live, rows, row@, Sel::Session(c));
                }
                assert forall|c: Seq<char>| #[trigger]
                    self.result.per_composer@.contains_key(c) implies session_stat_ok(
                    self.result.per_composer@[c],
                    live,
                    more,
                    c,
                ) by {
                    lemma_session_same(self.result.per_composer@[c], live, rows, row@, c);
                }
            }
            assert forall|c: Seq<char>| #[trigger] fx_names(self.orphans).contains(c)
                <==> is_orphan(live, more, c) by {
                lemma_push_row(live, rows, row@, Sel::Session(c));
                assert(fx_names(old(self).orphans).contains(c) <==> is_orphan(live, rows, c));
            }
            assert forall|c: Seq<char>| #[trigger] fx_names(self.with_data).contains(c)
                <==> has_data(more, c) by {
                lemma_push_row(
                    Set::empty(),
                    rows,
                    row@,
                    Sel::SessionKind(c, Prefix::ComposerData),
                );
                assert(fx_names(old(self).with_data).contains(c) <==> has_data(rows, c));
            }
        }
        self.seen = Ghost(more);
    }

    /// Ends the scan.
    pub fn finish(self) -> (r: ScanResult)
        requires
            self.wf(),
        ensures
            scan_ok(r, self.live(), self.rows(), self.deep(), self.collects()),
    {
        let ghost live = self.live@;
        let ghost rows = self.seen@;
        let ids = self.live.iter();
        let ghost vs = id_views(ids@);
        let mut ghost_headers: u64 = 0;
        let ghost mut found: Set<Seq<char>> = Set::empty();
        let mut i: usize = 0;
        while i < ids.len()
            invariant
                i <= ids@.len(),
                vs == id_views(ids@),
                vs.no_duplicates(),
                vs.to_set() == live,
                rows == self.seen@,
                self.wf(),
                found.finite(),
                found.len() == ghost_headers,
                ghost_headers <= i,
                forall|c: Seq<char>| #[trigger]
                    found.contains(c) <==> vs.take(i as int).contains(c) && !has_data(rows, c),
            decreases ids@.len() - i,
        {
            proof {
                crate::text::lemma_take_contains(vs, i as int);
            }
            let id = ids[i].as_str();
            assert(id@ == vs[i as int]);
            if !names_has(&self.with_data, id) {
                ghost_headers += 1;
                proof {
                    assert(!found.contains(id@));
                    found = found.insert(id@);
                }
            }
            i += 1;
        }
        proof {
            assert(vs.take(i as int) =~= vs);
            assert(found =~= ghosts(live, rows)) by {
                assert forall|c: Seq<char>| found.contains(c) <==> ghosts(live, rows).contains(c) by {
                    assert(vs.to_set().contains(c) <==> vs.contains(c));
                }
            }
        }
        let mut result = self.result;
        result.ghost_headers = ghost_headers;
        let ghost o = views(result.orphan_composers@);
        sort_texts(&mut result.orphan_composers);
        proof {
            let sorted = views(result.orphan_composers@);
            lemma_permutation(o, sorted);
            lemma_sorted_distinct(sorted);
            assert forall|c: Seq<char>| #[trigger] sorted.contains(c) <==> is_orphan(
                live,
                rows,
                c,
            ) by {
                assert(sorted.to_set().contains(c) <==> o.to_set().contains(c));
                assert(fx_names(self.orphans).contains(c) <==> is_orphan(live, rows, c));
            }
        }
        result
    }
}

/// What the first rows weigh is no more than what all weigh.
pub proof fn lemma_weigh_prefix(live: Set<Seq<char>>, rows: Seq<RowView>, n: int)
    requires
        0 <= n <= rows.len(),
    ensures
        weigh(live, rows.take(n), Sel::All) <= weigh(live, rows, Sel::All),
    decreases rows.len(),
{
    if n == rows.len() {
        assert(rows.take(n) =~= rows);
    } else {
        lemma_weigh_prefix(live, rows.drop_last(), n);
        assert(rows.drop_last().take(n) =~= rows.take(n));
    }
}

/// The first of the rows at which a look at the wish to stop is due, counted from the
/// rows before them: `m` more rows, or none where there is no such row among `len`.
pub open spec fn stops_at(before: nat, len: nat) -> Option<nat> {
    let due = (CHECK_EVERY - before % CHECK_EVERY as nat) as nat;
    if due <= len {
        Some(due)
    } else {
        None
    }
}

/// How many checkpoints are behind, after `n` rows.
pub open spec fn laps(n: nat) -> nat {
    n / (CHECK_EVERY as nat)
}

/// Counts a batch of rows, and shows how far it is at every checkpoint. Where the user
/// asked to stop, it stops at the first checkpoint, before the row that is due there.
pub fn scan_keys(s: &mut Scanner, rows: &[KvRow], p: &mut Progress) -> (r: Result<(), Cancelled>)
    requires
        old(s).wf(),
        old(s).has_room(row_views(rows@)),
    ensures
        final(s).wf(),
        final(s).live() == old(s).live(),
        final(s).deep() == old(s).deep(),
        final(s).collects() == old(s).collects(),
        r is Err <==> old(p)@.cancelled && stops_at(old(s).rows().len(), rows@.len()) is Some,
        final(s).rows() == old(s).rows() + row_views(rows@).take(
            if r is Err {
                stops_at(old(s).rows().len(), rows@.len())->0 - 1
            } else {
                rows@.len() as int
            },
        ),
        final(p)@ == (ProgressView {
            done: if r is Err {
                (old(s).rows().len() + stops_at(old(s).rows().len(), rows@.len())->0) as u64
            } else if stops_at(old(s).rows().len(), rows@.len()) is Some {
                (laps(final(s).rows().len()) * CHECK_EVERY) as u64
            } else {
                old(p)@.done
            },
            ..old(p)@
        }),
{
    let ghost vs = row_views(rows@);
    let ghost start = s.rows();
    let ghost n0 = start.len();
    let mut i: usize = 0;
    assert(start + vs.take(0) =~= start);
    while i < rows.len()
        invariant
            i <= rows@.len(),
            vs == row_views(rows@),
            start == old(s).rows(),
            n0 == start.len(),
            s.wf(),
            s.live() == old(s).live(),
            s.deep() == old(s).deep(),
            s.collects() == old(s).collects(),
            s.rows() == start + vs.take(i as int),
            old(s).has_room(vs),
            old(p)@.cancelled ==> (stops_at(n0, rows@.len()) matches Some(d) ==> i < d),
            p@ == (ProgressView {
                done: if laps(n0) < laps((n0 + i) as nat) {
                    (laps((n0 + i) as nat) * CHECK_EVERY) as u64
                } else {
                    old(p)@.done
                },
                ..old(p)@
            }),
        decreases rows@.len() - i,
    {
        let n: u64 = s.result.total_rows;
        proof {
            assert(n == n0 + i);
        }
        let next: u64 = n + 1;
        if next % CHECK_EVERY == 0 {
            p.set_done(next);
            match p.check() {
                Ok(()) => {},
                Err(c) => {
                    proof {
                        assert(stops_at(n0, rows@.len()) == Some((i + 1) as nat)) by {
                            lemma_due(n0, i as nat);
                        }
                    }
                    return Err(c);
                },
            }
        }
        proof {
            let all = start + vs;
            assert(s.rows().push(vs[i as int]) =~= start + vs.take(i + 1));
            assert(all.take(n0 + i + 1) =~= start + vs.take(i + 1));
            lemma_weigh_prefix(s.live(), all, (n0 + i + 1) as int);
            lemma_due_step(n0, i as nat);
        }
        s.push(&rows[i]);
        i += 1;
    }
    proof {
        assert(vs.take(i as int) =~= vs);
        lemma_due_all(n0, rows@.len());
    }
    Ok(())
}

/// The first due row is the first at which the count is a multiple of the interval.
pub proof fn lemma_due(n0: nat, i: nat)
    requires
        (n0 + i + 1) % CHECK_EVERY as nat == 0,
        (CHECK_EVERY - n0 % CHECK_EVERY as nat) > i,
    ensures
        (CHECK_EVERY - n0 % CHECK_EVERY as nat) == i + 1,
{
}

pub proof fn lemma_due_step(n0: nat, i: nat)
    ensures
        (n0 + i + 1) % CHECK_EVERY as nat != 0 ==> laps(n0 + i + 1) == laps(n0 + i) && (CHECK_EVERY
            - n0 % CHECK_EVERY as nat) != i + 1,
        (n0 + i + 1) % CHECK_EVERY as nat == 0 ==> laps(n0 + i + 1) > laps(n0) && laps(n0 + i + 1)
            * CHECK_EVERY == n0 + i + 1,
{
}

pub proof fn lemma_due_all(n0: nat, len: nat)
    ensures
        stops_at(n0, len) is Some <==> laps(n0) < laps(n0 + len),
{
}

/// Two readings of the same rows, of which at most the lengths differ.
pub open spec fn same_but_lengths(a: Seq<RowView>, b: Seq<RowView>) -> bool {
    a.len() == b.len() && forall|i: int|
        0 <= i < a.len() ==> (#[trigger] a[i]).key == b[i].key && a[i].is_null == b[i].is_null
}

/// Reading the lengths or not changes nothing but the bytes: every count of rows, the
/// orphans, the ghosts and the keys to sweep are the same.
pub proof fn lemma_tiers_agree(live: Set<Seq<char>>, a: Seq<RowView>, b: Seq<RowView>)
    requires
        same_but_lengths(a, b),
    ensures
        forall|sel: Sel| #[trigger] tally(live, a, sel) == tally(live, b, sel),
        forall|c: Seq<char>| #[trigger] is_orphan(live, a, c) == is_orphan(live, b, c),
        ghosts(live, a) == ghosts(live, b),
        condemned_keys(live, a) == condemned_keys(live, b),
{
    assert forall|sel: Sel| #[trigger] tally(live, a, sel) == tally(live, b, sel) by {
        lemma_tally_agrees(live, a, b, sel);
    }
    assert forall|c: Seq<char>| #[trigger] is_orphan(live, a, c) == is_orphan(live, b, c) by {
        lemma_tally_agrees(live, a, b, Sel::Session(c));
    }
    assert forall|c: Seq<char>| has_data(a, c) == has_data(b, c) by {
        lemma_tally_agrees(Set::empty(), a, b, Sel::SessionKind(c, Prefix::ComposerData));
    }
    assert(ghosts(live, a) =~= ghosts(live, b));
    lemma_condemned_agree(live, a, b);
}

proof fn lemma_tally_agrees(live: Set<Seq<char>>, a: Seq<RowView>, b: Seq<RowView>, sel: Sel)
    requires
        same_but_lengths(a, b),
    ensures
        tally(live, a, sel) == tally(live, b, sel),
    decreases a.len(),
{
    if a.len() > 0 {
        assert(a[a.len() - 1].key == b[a.len() - 1].key);
        assert(same_but_lengths(a.drop_last(), b.drop_last())) by {
            assert forall|i: int| 0 <= i < a.len() - 1 implies (#[trigger] a.drop_last()[i]).key
                == b.drop_last()[i].key && a.drop_last()[i].is_null == b.drop_last()[i].is_null by {
                assert(a[i].key == b[i].key);
            }
        }
        lemma_tally_agrees(live, a.drop_last(), b.drop_last(), sel);
        assert(picks(live, sel, a.last()) == picks(live, sel, b.last()));
    }
}

proof fn lemma_condemned_agree(live: Set<Seq<char>>, a: Seq<RowView>, b: Seq<RowView>)
    requires
        same_but_lengths(a, b),
    ensures
        condemned_keys(live, a) == condemned_keys(live, b),
    decreases a.len(),
{
    if a.len() > 0 {
        assert(a[a.len() - 1].key == b[a.len() - 1].key);
        assert(same_but_lengths(a.drop_last(), b.drop_last())) by {
            assert forall|i: int| 0 <= i < a.len() - 1 implies (#[trigger] a.drop_last()[i]).key
                == b.drop_last()[i].key && a.drop_last()[i].is_null == b.drop_last()[i].is_null by {
                assert(a[i].key == b[i].key);
            }
        }
        lemma_condemned_agree(live, a.drop_last(), b.drop_last());
    } else {
        assert(a =~= b);
    }
}

/// What the count loses with a row.
pub proof fn lemma_tally_remove(live: Set<Seq<char>>, rows: Seq<RowView>, i: int, sel: Sel)
    requires
        0 <= i < rows.len(),
    ensures
        tally(live, rows, sel) == tally(live, rows.remove(i), sel) + if picks(live, sel, rows[i]) {
            1nat
        } else {
            0
        },
    decreases rows.len(),
{
    if i == rows.len() - 1 {
        assert(rows.remove(i) =~= rows.drop_last());
    } else {
        lemma_tally_remove(live, rows.drop_last(), i, sel);
        assert(rows.remove(i).drop_last() =~= rows.drop_last().remove(i));
        assert(rows.remove(i).last() == rows.last());
    }
}

/// Counts do not depend on the order of the rows.
pub proof fn lemma_tally_permuted(
    live: Set<Seq<char>>,
    a: Seq<RowView>,
    b: Seq<RowView>,
    sel: Sel,
)
    requires
        a.to_multiset() == b.to_multiset(),
    ensures
        tally(live, a, sel) == tally(live, b, sel),
    decreases a.len(),
{
    lemma_permutation(a, b);
    if a.len() == 0 {
        assert(a =~= b);
    } else {
        let i = lemma_without_last(a, b);
        lemma_tally_permuted(live, a.drop_last(), b.remove(i), sel);
        lemma_tally_remove(live, b, i, sel);
    }
}

/// The keys to sweep do not depend on the order of the rows, but for their own order.
pub proof fn lemma_condemned_permuted(live: Set<Seq<char>>, a: Seq<RowView>, b: Seq<RowView>)
    requires
        a.to_multiset() == b.to_multiset(),
    ensures
        condemned_keys(live, a).to_multiset() == condemned_keys(live, b).to_multiset(),
    decreases a.len(),
{
    broadcast use vstd::multiset::group_multiset_axioms;

    lemma_permutation(a, b);
    if a.len() == 0 {
        assert(a =~= b);
    } else {
        let i = lemma_without_last(a, b);
        lemma_condemned_permuted(live, a.drop_last(), b.remove(i));
        lemma_condemned_remove(live, b, i);
        condemned_keys(live, a.drop_last()).to_multiset_ensures();
    }
}

/// What the keys to sweep lose with a row.
proof fn lemma_condemned_remove(live: Set<Seq<char>>, rows: Seq<RowView>, i: int)
    requires
        0 <= i < rows.len(),
    ensures
        condemned_keys(live, rows).to_multiset() == (if condemned(live, rows[i]) {
            condemned_keys(live, rows.remove(i)).to_multiset().insert(rows[i].key->0)
        } else {
            condemned_keys(live, rows.remove(i)).to_multiset()
        }),
    decreases rows.len(),
{
    broadcast use vstd::multiset::group_multiset_axioms;

    let rest = rows.drop_last();
    condemned_keys(live, rest).to_multiset_ensures();
    if i == rows.len() - 1 {
        assert(rows.remove(i) =~= rest);
    } else {
        let less = rows.remove(i);
        lemma_condemned_remove(live, rest, i);
        assert(less.drop_last() =~= rest.remove(i));
        assert(less.last() == rows.last());
        condemned_keys(live, rest.remove(i)).to_multiset_ensures();
        assert(condemned_keys(live, rows).to_multiset() =~= (if condemned(live, rows[i]) {
            condemned_keys(live, less).to_multiset().insert(rows[i].key->0)
        } else {
            condemned_keys(live, less).to_multiset()
        }));
    }
}

/// Where the last row of `a` stands in `b`, which holds the same rows.
proof fn lemma_without_last(a: Seq<RowView>, b: Seq<RowView>) -> (i: int)
    requires
        a.to_multiset() == b.to_multiset(),
        a.len() > 0,
    ensures
        0 <= i < b.len(),
        b[i] == a.last(),
        a.drop_last().to_multiset() == b.remove(i).to_multiset(),
{
    broadcast use vstd::multiset::group_multiset_axioms;

    lemma_permutation(a, b);
    let x = a.last();
    let rest = a.drop_last();
    a.to_multiset_ensures();
    b.to_multiset_ensures();
    rest.to_multiset_ensures();
    assert(a =~= rest.push(x));
    assert(a.to_set().contains(x)) by {
        assert(a[a.len() - 1] == x);
    }
    assert(b.to_set().contains(x));
    let i = choose|i: int| 0 <= i < b.len() && b[i] == x;
    assert(b.remove(i).to_multiset() =~= b.to_multiset().remove(x));
    assert(rest.to_multiset() =~= a.to_multiset().remove(x));
    i
}

/// The rows without the lengths of their values.
pub open spec fn bare_rows(rows: Seq<RowView>) -> Seq<RowView> {
    rows.map_values(|r: RowView| (RowView { bytes: 0, ..r }))
}

/// Two readings of the same rows, in whatever order, of which at most the lengths differ.
pub open spec fn same_rows(a: Seq<RowView>, b: Seq<RowView>) -> bool {
    bare_rows(a).to_multiset() == bare_rows(b).to_multiset()
}

/// No length was read.
pub open spec fn without_lengths(rows: Seq<RowView>) -> bool {
    forall|i: int| 0 <= i < rows.len() ==> (#[trigger] rows[i]).bytes == 0
}

/// Counts depend on neither the order of the rows nor their lengths.
proof fn lemma_tally_of_same(live: Set<Seq<char>>, a: Seq<RowView>, b: Seq<RowView>, sel: Sel)
    requires
        same_rows(a, b),
    ensures
        tally(live, a, sel) == tally(live, b, sel),
{
    lemma_tally_agrees(live, a, bare_rows(a), sel);
    lemma_tally_permuted(live, bare_rows(a), bare_rows(b), sel);
    lemma_tally_agrees(live, b, bare_rows(b), sel);
}

/// Rows without lengths weigh nothing.
pub proof fn lemma_weigh_nothing(live: Set<Seq<char>>, rows: Seq<RowView>, sel: Sel)
    requires
        without_lengths(rows),
    ensures
        weigh(live, rows, sel) == 0,
    decreases rows.len(),
{
    if rows.len() > 0 {
        assert forall|i: int| 0 <= i < rows.len() - 1 implies (#[trigger] rows.drop_last()[i]).bytes
            == 0 by {
            assert(rows[i].bytes == 0);
        }
        lemma_weigh_nothing(live, rows.drop_last(), sel);
        assert(rows[rows.len() - 1].bytes == 0);
    }
}

/// The scan counted no byte.
pub open spec fn counts_no_bytes(r: ScanResult) -> bool {
    &&& forall|p: Prefix|
        {
            let s = #[trigger] r.per_prefix@[rank(p)];
            s.bytes == 0 && s.orphan_bytes == 0
        }
    &&& forall|c: Seq<char>| #[trigger]
        r.per_composer@.contains_key(c) ==> {
            let s = r.per_composer@[c];
            s.bytes == 0 && forall|p: Prefix|
                {
                    let k = #[trigger] s.per_prefix@[rank(p)];
                    k.bytes == 0 && k.orphan_bytes == 0
                }
        }
    &&& r.blob.bytes == 0 && r.blob.orphan_bytes == 0
    &&& r.content.bytes == 0 && r.content.orphan_bytes == 0
    &&& r.other.bytes == 0 && r.other.orphan_bytes == 0
}

/// The counts of rows of two scans agree.
pub open spec fn counts_same_rows(q: ScanResult, d: ScanResult) -> bool {
    &&& q.total_rows == d.total_rows
    &&& forall|p: Prefix|
        {
            let s = #[trigger] q.per_prefix@[rank(p)];
            let t = d.per_prefix@[rank(p)];
            s.rows == t.rows && s.orphan_rows == t.orphan_rows
        }
    &&& q.per_composer@.dom() == d.per_composer@.dom()
    &&& forall|c: Seq<char>| #[trigger]
        q.per_composer@.contains_key(c) ==> {
            let s = q.per_composer@[c];
            let t = d.per_composer@[c];
            s.rows == t.rows && forall|p: Prefix|
                {
                    let k = #[trigger] s.per_prefix@[rank(p)];
                    let l = t.per_prefix@[rank(p)];
                    k.rows == l.rows && k.orphan_rows == l.orphan_rows
                }
        }
    &&& q.blob.rows == d.blob.rows
    &&& q.content.rows == d.content.rows
    &&& q.other.rows == d.other.rows
    &&& q.live_tombstone_rows == d.live_tombstone_rows
    &&& q.ghost_headers == d.ghost_headers
    &&& views(q.orphan_composers@) == views(d.orphan_composers@)
}

/// A quick and a deep scan of the same rows agree on everything but the bytes, whatever the
/// order in which each met the rows: on all counts of rows, the orphans and their order, the
/// ghosts, and the keys to sweep but for their order. The quick scan counts no byte.
pub proof fn lemma_scans_agree(
    quick: ScanResult,
    deep: ScanResult,
    live: Set<Seq<char>>,
    a: Seq<RowView>,
    b: Seq<RowView>,
    collect: bool,
)
    requires
        scan_ok(quick, live, a, false, collect),
        scan_ok(deep, live, b, true, collect),
        same_rows(a, b),
        without_lengths(a),
    ensures
        counts_same_rows(quick, deep),
        views(quick.condemned_keys@).to_multiset() == views(deep.condemned_keys@).to_multiset(),
        counts_no_bytes(quick),
{
    assert forall|sel: Sel| #[trigger] tally(live, a, sel) == tally(live, b, sel) by {
        lemma_tally_of_same(live, a, b, sel);
    }
    lemma_permutation(bare_rows(a), bare_rows(b));
    assert forall|p: Prefix|
        {
            let s = #[trigger] quick.per_prefix@[rank(p)];
            let t = deep.per_prefix@[rank(p)];
            s.rows == t.rows && s.orphan_rows == t.orphan_rows
        } by {
        assert(kind_stat_ok(deep.per_prefix@[rank(p)], live, b, p));
    }
    assert(quick.per_composer@.dom() =~= deep.per_composer@.dom()) by {
        assert forall|c: Seq<char>| quick.per_composer@.contains_key(c)
            <==> deep.per_composer@.contains_key(c) by {
            assert(tally(live, a, Sel::Session(c)) == tally(live, b, Sel::Session(c)));
        }
    }
    assert forall|c: Seq<char>| #[trigger] quick.per_composer@.contains_key(c) implies ({
        let s = quick.per_composer@[c];
        let t = deep.per_composer@[c];
        s.rows == t.rows && forall|p: Prefix|
            {
                let k = #[trigger] s.per_prefix@[rank(p)];
                let l = t.per_prefix@[rank(p)];
                k.rows == l.rows && k.orphan_rows == l.orphan_rows
            }
    }) by {
        lemma_sessions_agree(quick.per_composer@[c], deep.per_composer@[c], live, a, b, c);
    }
    assert(ghosts(live, a) =~= ghosts(live, b)) by {
        assert forall|c: Seq<char>| has_data(a, c) == has_data(b, c) by {
            lemma_tally_of_same(
                Set::empty(),
                a,
                b,
                Sel::SessionKind(c, Prefix::ComposerData),
            );
        }
    }
    assert forall|c: Seq<char>| views(quick.orphan_composers@).contains(c) <==> views(
        deep.orphan_composers@,
    ).contains(c) by {
        assert(is_orphan(live, a, c) == is_orphan(live, b, c));
    }
    lemma_increasing_unique(views(quick.orphan_composers@), views(deep.orphan_composers@));
    lemma_condemned_agree(live, a, bare_rows(a));
    lemma_condemned_agree(live, b, bare_rows(b));
    lemma_condemned_permuted(live, bare_rows(a), bare_rows(b));
    lemma_counts_no_bytes(quick, live, a, collect);
}

/// The counts of a session in two readings of the same rows.
proof fn lemma_sessions_agree(
    s: ComposerStat,
    t: ComposerStat,
    live: Set<Seq<char>>,
    a: Seq<RowView>,
    b: Seq<RowView>,
    c: Seq<char>,
)
    requires
        session_stat_ok(s, live, a, c),
        session_stat_ok(t, live, b, c),
        same_rows(a, b),
    ensures
        s.rows == t.rows,
        forall|p: Prefix|
            {
                let k = #[trigger] s.per_prefix@[rank(p)];
                let l = t.per_prefix@[rank(p)];
                k.rows == l.rows && k.orphan_rows == l.orphan_rows
            },
{
    lemma_tally_of_same(live, a, b, Sel::Session(c));
    assert forall|p: Prefix|
        {
            let k = #[trigger] s.per_prefix@[rank(p)];
            let l = t.per_prefix@[rank(p)];
            k.rows == l.rows && k.orphan_rows == l.orphan_rows
        } by {
        lemma_tally_of_same(live, a, b, Sel::SessionKind(c, p));
        assert(plain_stat_ok(t.per_prefix@[rank(p)], live, b, Sel::SessionKind(c, p)));
    }
}

proof fn lemma_counts_no_bytes(
    r: ScanResult,
    live: Set<Seq<char>>,
    rows: Seq<RowView>,
    collect: bool,
)
    requires
        scan_ok(r, live, rows, false, collect),
        without_lengths(rows),
    ensures
        counts_no_bytes(r),
{
    assert forall|sel: Sel| #[trigger] weigh(live, rows, sel) == 0 by {
        lemma_weigh_nothing(live, rows, sel);
    }
    assert forall|p: Prefix|
        {
            let s = #[trigger] r.per_prefix@[rank(p)];
            s.bytes == 0 && s.orphan_bytes == 0
        } by {
        assert(kind_stat_ok(r.per_prefix@[rank(p)], live, rows, p));
    }
    assert forall|c: Seq<char>| #[trigger] r.per_composer@.contains_key(c) implies ({
        let s = r.per_composer@[c];
        s.bytes == 0 && forall|p: Prefix|
            {
                let k = #[trigger] s.per_prefix@[rank(p)];
                k.bytes == 0 && k.orphan_bytes == 0
            }
    }) by {
        let s = r.per_composer@[c];
        assert(session_stat_ok(s, live, rows, c));
        assert forall|p: Prefix|
            {
                let k = #[trigger] s.per_prefix@[rank(p)];
                k.bytes == 0 && k.orphan_bytes == 0
            } by {
            assert(plain_stat_ok(s.per_prefix@[rank(p)], live, rows, Sel::SessionKind(c, p)));
        }
    }
}

/// How many rows belong to sessions.
pub open spec fn owned_rows(live: Set<Seq<char>>, rows: Seq<RowView>) -> nat {
    tally(live, rows, Sel::Kind(Prefix::AgentBubbleCheckpoint)) + tally(
        live,
        rows,
        Sel::Kind(Prefix::AgentCheckpoint),
    ) + tally(live, rows, Sel::Kind(Prefix::BubbleId)) + tally(
        live,
        rows,
        Sel::Kind(Prefix::CheckpointId),
    ) + tally(live, rows, Sel::Kind(Prefix::CodeBlockDiff)) + tally(
        live,
        rows,
        Sel::Kind(Prefix::CodeBlockPartialInlineDiffFates),
    ) + tally(live, rows, Sel::Kind(Prefix::ComposerData)) + tally(
        live,
        rows,
        Sel::Kind(Prefix::ComposerVirtualRowHeights),
    ) + tally(live, rows, Sel::Kind(Prefix::OfsContent))
}

/// Every row is counted once: under its kind, as a blob, as a content, or as something
/// else.
pub proof fn lemma_counted_once(live: Set<Seq<char>>, rows: Seq<RowView>)
    ensures
        rows.len() == owned_rows(live, rows) + tally(live, rows, Sel::Blob) + tally(
            live,
            rows,
            Sel::Content,
        ) + tally(live, rows, Sel::Other),
    decreases rows.len(),
{
    if rows.len() > 0 {
        lemma_counted_once(live, rows.drop_last());
    }
}

/// The kinds make up all that belongs to sessions, in rows and in bytes.
pub proof fn lemma_kinds_make_owned(live: Set<Seq<char>>, rows: Seq<RowView>)
    ensures
        weigh(live, rows, Sel::Owned) == weigh(live, rows, Sel::Kind(Prefix::AgentBubbleCheckpoint))
            + weigh(live, rows, Sel::Kind(Prefix::AgentCheckpoint))
            + weigh(live, rows, Sel::Kind(Prefix::BubbleId))
            + weigh(live, rows, Sel::Kind(Prefix::CheckpointId))
            + weigh(live, rows, Sel::Kind(Prefix::CodeBlockDiff))
            + weigh(live, rows, Sel::Kind(Prefix::CodeBlockPartialInlineDiffFates))
            + weigh(live, rows, Sel::Kind(Prefix::ComposerData))
            + weigh(live, rows, Sel::Kind(Prefix::ComposerVirtualRowHeights))
            + weigh(live, rows, Sel::Kind(Prefix::OfsContent)),
        tally(live, rows, Sel::Owned) == tally(live, rows, Sel::Kind(Prefix::AgentBubbleCheckpoint))
            + tally(live, rows, Sel::Kind(Prefix::AgentCheckpoint))
            + tally(live, rows, Sel::Kind(Prefix::BubbleId))
            + tally(live, rows, Sel::Kind(Prefix::CheckpointId))
            + tally(live, rows, Sel::Kind(Prefix::CodeBlockDiff))
            + tally(live, rows, Sel::Kind(Prefix::CodeBlockPartialInlineDiffFates))
            + tally(live, rows, Sel::Kind(Prefix::ComposerData))
            + tally(live, rows, Sel::Kind(Prefix::ComposerVirtualRowHeights))
            + tally(live, rows, Sel::Kind(Prefix::OfsContent)),
    decreases rows.len(),
{
    if rows.len() > 0 {
        lemma_kinds_make_owned(live, rows.drop_last());
    }
}

/// No sweep deletes a blob, a content, or a row that is not a chat's: only keys with the
/// tag of a kind.
pub proof fn lemma_sweep_spares_the_rest(live: Set<Seq<char>>, row: RowView)
    requires
        condemned(live, row),
    ensures
        row.key is Some,
        exists|p: Prefix| is_of_kind(p, row.key->0),
        !("agentKv:blob:"@.is_prefix_of(row.key->0)),
        !("composer.content."@.is_prefix_of(row.key->0)),
{
    let key = row.key->0;
    let p = choose|p: Prefix| is_of_kind(p, key);
    assert(is_of_kind(p, key));
    reveal_strlit("agentKv:bubbleCheckpoint:");
    reveal_strlit("agentKv:checkpoint:");
    reveal_strlit("bubbleId:");
    reveal_strlit("checkpointId:");
    reveal_strlit("codeBlockDiff:");
    reveal_strlit("codeBlockPartialInlineDiffFates:");
    reveal_strlit("composerData:");
    reveal_strlit("composerVirtualRowHeights:");
    reveal_strlit("ofsContent:");
    reveal_strlit("agentKv:blob:");
    reveal_strlit("composer.content.");
    let tag = prefix_tag(p);
    let blob = "agentKv:blob:"@;
    let content = "composer.content."@;
    if tag[0] != blob[0] {
        lemma_not_both(tag, blob, 0, key);
    } else if tag[8] != blob[8] {
        lemma_not_both(tag, blob, 8, key);
    } else {
        lemma_not_both(tag, blob, 9, key);
    }
    if tag[0] != content[0] {
        lemma_not_both(tag, content, 0, key);
    } else if tag[1] != content[1] {
        lemma_not_both(tag, content, 1, key);
    } else {
        lemma_not_both(tag, content, 8, key);
    }
}

/// The owner of a key stands behind the name of its kind: up to the next colon, and for the
/// session itself and its checkpoint up to the end.
pub proof fn lemma_whose_key(c: Seq<char>, rest: Seq<char>)
    requires
        !c.contains(':'),
    ensures
        attribution("composerData:"@ + rest) == Owner::Owned(Prefix::ComposerData, rest),
        attribution("agentKv:checkpoint:"@ + rest) == Owner::Owned(Prefix::AgentCheckpoint, rest),
        attribution("agentKv:bubbleCheckpoint:"@
            + c) == Owner::Owned(Prefix::AgentBubbleCheckpoint, c),
        attribution("agentKv:bubbleCheckpoint:"@ + c + ":"@
            + rest) == Owner::Owned(Prefix::AgentBubbleCheckpoint, c),
        attribution("bubbleId:"@ + c) == Owner::Owned(Prefix::BubbleId, c),
        attribution("bubbleId:"@ + c + ":"@ + rest) == Owner::Owned(Prefix::BubbleId, c),
        attribution("checkpointId:"@ + c) == Owner::Owned(Prefix::CheckpointId, c),
        attribution("checkpointId:"@ + c + ":"@ + rest) == Owner::Owned(Prefix::CheckpointId, c),
        attribution("codeBlockDiff:"@ + c) == Owner::Owned(Prefix::CodeBlockDiff, c),
        attribution("codeBlockDiff:"@ + c + ":"@ + rest) == Owner::Owned(Prefix::CodeBlockDiff, c),
        attribution("codeBlockPartialInlineDiffFates:"@
            + c) == Owner::Owned(Prefix::CodeBlockPartialInlineDiffFates, c),
        attribution("codeBlockPartialInlineDiffFates:"@ + c + ":"@
            + rest) == Owner::Owned(Prefix::CodeBlockPartialInlineDiffFates, c),
        attribution("composerVirtualRowHeights:"@
            + c) == Owner::Owned(Prefix::ComposerVirtualRowHeights, c),
        attribution("composerVirtualRowHeights:"@ + c + ":"@
            + rest) == Owner::Owned(Prefix::ComposerVirtualRowHeights, c),
        attribution("ofsContent:"@ + c) == Owner::Owned(Prefix::OfsContent, c),
        attribution("ofsContent:"@ + c + ":"@ + rest) == Owner::Owned(Prefix::OfsContent, c),
{
    lemma_owner_whole(Prefix::ComposerData, rest);
    lemma_owner_whole(Prefix::AgentCheckpoint, rest);
    lemma_owner_before_colon(Prefix::AgentBubbleCheckpoint, "agentKv:bubbleCheckpoint:"@, c, rest);
    lemma_owner_before_colon(Prefix::BubbleId, "bubbleId:"@, c, rest);
    lemma_owner_before_colon(Prefix::CheckpointId, "checkpointId:"@, c, rest);
    lemma_owner_before_colon(Prefix::CodeBlockDiff, "codeBlockDiff:"@, c, rest);
    lemma_owner_before_colon(Prefix::CodeBlockPartialInlineDiffFates, "codeBlockPartialInlineDiffFates:"@, c, rest);
    lemma_owner_before_colon(Prefix::ComposerVirtualRowHeights, "composerVirtualRowHeights:"@, c, rest);
    lemma_owner_before_colon(Prefix::OfsContent, "ofsContent:"@, c, rest);
}

proof fn lemma_owner_before_colon(p: Prefix, tag: Seq<char>, c: Seq<char>, rest: Seq<char>)
    requires
        tag == prefix_tag(p),
        !whole_rest(p),
        !c.contains(':'),
    ensures
        attribution(tag + c) == Owner::Owned(p, c),
        attribution(tag + c + ":"@ + rest) == Owner::Owned(p, c),
{
    reveal_strlit(":");
    let n = tag.len() as int;
    let a = tag + c;
    let b = tag + c + ":"@ + rest;
    assert(a.subrange(0, n) =~= tag);
    assert(b.subrange(0, n) =~= tag);
    assert(a.skip(n) =~= c);
    let r = b.skip(n);
    assert(r =~= c + ":"@ + rest);
    assert forall|i: int| 0 <= i < c.len() implies c[i] != ':' by {
        assert(c.contains(c[i]));
    }
    assert forall|i: int| 0 <= i < c.len() implies r[i] != ':' by {
        assert(r[i] == c[i]);
    }
    assert(r[c.len() as int] == ':') by {
        assert(r[c.len() as int] == ":"@[0]);
    }
    crate::text::lemma_first_index_unique(c, ':', c.len() as int);
    crate::text::lemma_first_index_unique(r, ':', c.len() as int);
    assert(c.take(c.len() as int) =~= c);
    assert(r.take(c.len() as int) =~= c);
    lemma_attribution_by_tag(p, a);
    lemma_attribution_by_tag(p, b);
}

/// Blobs and contents belong to no session, whatever follows in their keys.
pub proof fn lemma_whose_blob(rest: Seq<char>)
    ensures
        attribution("agentKv:blob:"@ + rest) == Owner::Blob,
        attribution("composer.content."@ + rest) == Owner::Content,
{
    let a = "agentKv:blob:"@ + rest;
    let b = "composer.content."@ + rest;
    assert("agentKv:blob:"@.is_prefix_of(a)) by {
        assert(a.subrange(0, "agentKv:blob:"@.len() as int) =~= "agentKv:blob:"@);
    }
    assert("composer.content."@.is_prefix_of(b)) by {
        assert(b.subrange(0, "composer.content."@.len() as int) =~= "composer.content."@);
    }
    if exists|p: Prefix| is_of_kind(p, a) {
        lemma_sweep_spares_the_rest(
            Set::empty(),
            RowView { key: Some(a), bytes: 0, is_null: false },
        );
    }
    if exists|p: Prefix| is_of_kind(p, b) {
        lemma_sweep_spares_the_rest(
            Set::empty(),
            RowView { key: Some(b), bytes: 0, is_null: false },
        );
    }
    assert(!("agentKv:blob:"@.is_prefix_of(b))) by {
        reveal_strlit("agentKv:blob:");
        reveal_strlit("composer.content.");
        assert(b[0] == 'c');
        if "agentKv:blob:"@.is_prefix_of(b) {
            assert(b.subrange(0, "agentKv:blob:"@.len() as int)[0] == 'a');
        }
    }
}

/// A sweep deletes a row exactly where a session owns it that is not alive, or where it is
/// the row of a session itself and holds no value. Whatever else belongs to a live session
/// stays, and so does what belongs to nobody.
pub proof fn lemma_condemned(live: Set<Seq<char>>, row: RowView)
    ensures
        condemned(live, row) <==> (row.key matches Some(k) && (attribution(k) matches Owner::Owned(
            p,
            c,
        ) && (!live.contains(c) || (p == Prefix::ComposerData && row.is_null)))),
{
}

/// What is counted of a single row more: one, and its length, in each count that it belongs
/// to, and nothing in any other.
pub proof fn lemma_row_counts(live: Set<Seq<char>>, rows: Seq<RowView>, row: RowView)
    ensures
        ({
            let m = rows.push(row);
            &&& forall|p: Prefix| #[trigger]
                tally(live, m, Sel::Kind(p)) == tally(live, rows, Sel::Kind(p))
                    + (if (row_owner(row)
                    matches Owner::Owned(q, _) && q == p) {
                    1nat
                } else {
                    0
                })
            &&& forall|p: Prefix| #[trigger]
                weigh(live, m, Sel::Kind(p)) == weigh(live, rows, Sel::Kind(p))
                    + (if (row_owner(row)
                    matches Owner::Owned(q, _) && q == p) {
                    row.bytes
                } else {
                    0
                })
            &&& forall|p: Prefix| #[trigger]
                tally(live, m, Sel::OrphanKind(p)) == tally(live, rows, Sel::OrphanKind(p)) + (if (
                row_owner(row) matches Owner::Owned(q, c) && q == p && !live.contains(c)) {
                    1nat
                } else {
                    0
                })
            &&& forall|p: Prefix| #[trigger]
                weigh(live, m, Sel::OrphanKind(p)) == weigh(live, rows, Sel::OrphanKind(p)) + (if (
                row_owner(row) matches Owner::Owned(q, c) && q == p && !live.contains(c)) {
                    row.bytes
                } else {
                    0
                })
            &&& forall|c: Seq<char>| #[trigger]
                tally(live, m, Sel::Session(c)) == tally(live, rows, Sel::Session(c)) + (if (
                row_owner(row) matches Owner::Owned(_, d) && d == c) {
                    1nat
                } else {
                    0
                })
            &&& forall|c: Seq<char>| #[trigger]
                weigh(live, m, Sel::Session(c)) == weigh(live, rows, Sel::Session(c)) + (if (
                row_owner(row) matches Owner::Owned(_, d) && d == c) {
                    row.bytes
                } else {
                    0
                })
            &&& forall|c: Seq<char>, p: Prefix| #[trigger]
                tally(live, m, Sel::SessionKind(c, p)) == tally(live, rows, Sel::SessionKind(c, p))
                    + (if row_owner(row) == Owner::Owned(p, c) {
                    1nat
                } else {
                    0
                })
            &&& forall|c: Seq<char>, p: Prefix| #[trigger]
                weigh(live, m, Sel::SessionKind(c, p)) == weigh(live, rows, Sel::SessionKind(c, p))
                    + (if row_owner(row) == Owner::Owned(p, c) {
                    row.bytes
                } else {
                    0
                })
            &&& tally(live, m, Sel::Blob) == tally(live, rows, Sel::Blob) + (if row_owner(row)
                == Owner::Blob {
                1nat
            } else {
                0
            })
            &&& weigh(live, m, Sel::Blob) == weigh(live, rows, Sel::Blob) + (if row_owner(row)
                == Owner::Blob {
                row.bytes
            } else {
                0
            })
            &&& tally(live, m, Sel::Content) == tally(live, rows, Sel::Content) + (if row_owner(row)
                == Owner::Content {
                1nat
            } else {
                0
            })
            &&& weigh(live, m, Sel::Content) == weigh(live, rows, Sel::Content) + (if row_owner(row)
                == Owner::Content {
                row.bytes
            } else {
                0
            })
            &&& tally(live, m, Sel::Other) == tally(live, rows, Sel::Other) + (if row_owner(row)
                == Owner::Other {
                1nat
            } else {
                0
            })
            &&& weigh(live, m, Sel::Other) == weigh(live, rows, Sel::Other) + (if row_owner(row)
                == Owner::Other {
                row.bytes
            } else {
                0
            })
            &&& tally(live, m, Sel::LiveTombstone) == tally(live, rows, Sel::LiveTombstone) + (if (
            row_owner(row) matches Owner::Owned(Prefix::ComposerData, c) && row.is_null
                && live.contains(c)) {
                1nat
            } else {
                0
            })
            &&& tally(live, m, Sel::Tombstone) == tally(live, rows, Sel::Tombstone)
                + (if (row_owner(
                row,
            ) matches Owner::Owned(Prefix::ComposerData, _) && row.is_null) {
                1nat
            } else {
                0
            })
        }),
{
    let m = rows.push(row);
    assert(m.drop_last() =~= rows);
    assert(m.last() == row);
}

/// A live session is a ghost exactly where no row of the table is its own.
pub proof fn lemma_ghosts(live: Set<Seq<char>>, rows: Seq<RowView>, c: Seq<char>)
    ensures
        ghosts(live, rows).contains(c) <==> live.contains(c) && forall|i: int|
            0 <= i < rows.len() ==> row_owner(#[trigger] rows[i]) != Owner::Owned(
                Prefix::ComposerData,
                c,
            ),
        is_orphan(live, rows, c) <==> !live.contains(c) && exists|i: int|
            0 <= i < rows.len() && (row_owner(#[trigger] rows[i]) matches Owner::Owned(_, d) && d
                == c),
{
    lemma_some_picked(Set::empty(), rows, Sel::SessionKind(c, Prefix::ComposerData));
    lemma_some_picked(live, rows, Sel::Session(c));
    let sel = Sel::SessionKind(c, Prefix::ComposerData);
    if has_data(rows, c) {
        let i = choose|i: int| 0 <= i < rows.len() && picks(Set::empty(), sel, #[trigger] rows[i]);
        assert(row_owner(rows[i]) == Owner::Owned(Prefix::ComposerData, c));
    } else {
        assert forall|i: int| 0 <= i < rows.len() implies row_owner(#[trigger] rows[i])
            != Owner::Owned(Prefix::ComposerData, c) by {
            assert(!picks(Set::empty(), sel, rows[i]));
        }
    }
    if tally(live, rows, Sel::Session(c)) > 0 {
        let i = choose|i: int|
            0 <= i < rows.len() && picks(live, Sel::Session(c), #[trigger] rows[i]);
        assert(row_owner(rows[i]) matches Owner::Owned(_, d) && d == c);
    } else {
        assert forall|i: int| 0 <= i < rows.len() implies !(row_owner(#[trigger] rows[i])
            matches Owner::Owned(_, d) && d == c) by {
            assert(!picks(live, Sel::Session(c), rows[i]));
        }
    }
}

proof fn lemma_some_picked(live: Set<Seq<char>>, rows: Seq<RowView>, sel: Sel)
    ensures
        tally(live, rows, sel) > 0 <==> exists|i: int|
            0 <= i < rows.len() && picks(live, sel, #[trigger] rows[i]),
    decreases rows.len(),
{
    if rows.len() > 0 {
        let rest = rows.drop_last();
        lemma_some_picked(live, rest, sel);
        if tally(live, rest, sel) > 0 {
            let i = choose|i: int| 0 <= i < rest.len() && picks(live, sel, #[trigger] rest[i]);
            assert(picks(live, sel, rows[i]));
        }
        if picks(live, sel, rows.last()) {
            assert(picks(live, sel, rows[rows.len() - 1]));
        }
        if exists|i: int| 0 <= i < rows.len() && picks(live, sel, #[trigger] rows[i]) {
            let i = choose|i: int| 0 <= i < rows.len() && picks(live, sel, #[trigger] rows[i]);
            if i < rest.len() {
                assert(picks(live, sel, rest[i]));
            }
        }
    }
}

/// A proper id owns just the keys that name it: no other session has such a key.
pub proof fn lemma_id_owns_its_keys(c: Seq<char>, d: Seq<char>, rest: Seq<char>, p: Prefix)
    requires
        crate::types::is_composer_id(c),
        crate::types::is_composer_id(d),
        c != d,
    ensures
        attribution(prefix_tag(p) + c) == Owner::Owned(p, c),
        attribution(prefix_tag(p) + c) != attribution(prefix_tag(p) + d),
        p != Prefix::ComposerData && p != Prefix::AgentCheckpoint ==> attribution(
            prefix_tag(p) + c + ":"@ + rest,
        ) == Owner::Owned(p, c),
{
    if whole_rest(p) {
        lemma_owner_whole(p, c);
        lemma_owner_whole(p, d);
    } else {
        lemma_owner_before_colon(p, prefix_tag(p), c, rest);
        lemma_owner_before_colon(p, prefix_tag(p), d, rest);
    }
}

proof fn lemma_owner_whole(p: Prefix, c: Seq<char>)
    requires
        whole_rest(p),
    ensures
        attribution(prefix_tag(p) + c) == Owner::Owned(p, c),
{
    let tag = prefix_tag(p);
    let k = tag + c;
    assert(k.subrange(0, tag.len() as int) =~= tag);
    assert(k.skip(tag.len() as int) =~= c);
    lemma_attribution_by_tag(p, k);
}

/// The keys of a kind begin with its name and a colon.
pub proof fn lemma_tag_is_name(p: Prefix)
    ensures
        prefix_tag(p) == prefix_name(p) + ":"@,
{
    reveal_strlit(":");
    reveal_strlit("agentKv:bubbleCheckpoint");
    reveal_strlit("agentKv:bubbleCheckpoint:");
    reveal_strlit("agentKv:checkpoint");
    reveal_strlit("agentKv:checkpoint:");
    reveal_strlit("bubbleId");
    reveal_strlit("bubbleId:");
    reveal_strlit("checkpointId");
    reveal_strlit("checkpointId:");
    reveal_strlit("codeBlockDiff");
    reveal_strlit("codeBlockDiff:");
    reveal_strlit("codeBlockPartialInlineDiffFates");
    reveal_strlit("codeBlockPartialInlineDiffFates:");
    reveal_strlit("composerData");
    reveal_strlit("composerData:");
    reveal_strlit("composerVirtualRowHeights");
    reveal_strlit("composerVirtualRowHeights:");
    reveal_strlit("ofsContent");
    reveal_strlit("ofsContent:");
    assert(prefix_tag(p) =~= prefix_name(p) + ":"@);
}

/// A row says what was read: its key where it is a text, whether it has a value, and the length
/// of that, where a negative one counts as none.
pub proof fn lemma_row_view(r: KvRow)
    ensures
        r@.is_null == r.is_null,
        r.length >= 0 ==> r@.bytes == r.length,
        r.length < 0 ==> r@.bytes == 0,
        r.key is None ==> r@.key is None,
        r.key matches Some(b) ==> r@.key == utf8_text(b@),
{
}

/// What a sweep deletes is counted under the kinds of its rows, each row once, and so are the
/// bytes; a row counts exactly where it goes.
pub proof fn lemma_condemned_counts(live: Set<Seq<char>>, rows: Seq<RowView>)
    ensures
        condemned_keys(live, rows).len() == tally(live, rows, Sel::CondemnedKind(Prefix::AgentBubbleCheckpoint))
            + tally(live, rows, Sel::CondemnedKind(Prefix::AgentCheckpoint))
            + tally(live, rows, Sel::CondemnedKind(Prefix::BubbleId))
            + tally(live, rows, Sel::CondemnedKind(Prefix::CheckpointId))
            + tally(live, rows, Sel::CondemnedKind(Prefix::CodeBlockDiff))
            + tally(live, rows, Sel::CondemnedKind(Prefix::CodeBlockPartialInlineDiffFates))
            + tally(live, rows, Sel::CondemnedKind(Prefix::ComposerData))
            + tally(live, rows, Sel::CondemnedKind(Prefix::ComposerVirtualRowHeights))
            + tally(live, rows, Sel::CondemnedKind(Prefix::OfsContent)),
        weigh(live, rows, Sel::Condemned) == weigh(live, rows, Sel::CondemnedKind(Prefix::AgentBubbleCheckpoint))
            + weigh(live, rows, Sel::CondemnedKind(Prefix::AgentCheckpoint))
            + weigh(live, rows, Sel::CondemnedKind(Prefix::BubbleId))
            + weigh(live, rows, Sel::CondemnedKind(Prefix::CheckpointId))
            + weigh(live, rows, Sel::CondemnedKind(Prefix::CodeBlockDiff))
            + weigh(live, rows, Sel::CondemnedKind(Prefix::CodeBlockPartialInlineDiffFates))
            + weigh(live, rows, Sel::CondemnedKind(Prefix::ComposerData))
            + weigh(live, rows, Sel::CondemnedKind(Prefix::ComposerVirtualRowHeights))
            + weigh(live, rows, Sel::CondemnedKind(Prefix::OfsContent)),
    decreases rows.len(),
{
    if rows.len() > 0 {
        lemma_condemned_counts(live, rows.drop_last());
    }
}

/// What is counted of one row more where a sweep deletes it, and where not.
pub proof fn lemma_row_condemned(live: Set<Seq<char>>, rows: Seq<RowView>, row: RowView, p: Prefix)
    ensures
        ({
            let m = rows.push(row);
            let goes = row_owner(row) matches Owner::Owned(q, c) && (!live.contains(c) || (q
                == Prefix::ComposerData && row.is_null));
            let here = row_owner(row) matches Owner::Owned(q, _) && q == p;
            &&& condemned_keys(live, m) == (if goes {
                condemned_keys(live, rows).push(row.key->0)
            } else {
                condemned_keys(live, rows)
            })
            &&& tally(live, m, Sel::CondemnedKind(p)) == tally(live, rows, Sel::CondemnedKind(p))
                + (
            if goes && here {
                1nat
            } else {
                0
            })
            &&& weigh(live, m, Sel::CondemnedKind(p)) == weigh(live, rows, Sel::CondemnedKind(p))
                + (
            if goes && here {
                row.bytes
            } else {
                0
            })
            &&& weigh(live, m, Sel::Condemned) == weigh(live, rows, Sel::Condemned) + (if goes {
                row.bytes
            } else {
                0
            })
            &&& weigh(live, m, Sel::All) == weigh(live, rows, Sel::All) + row.bytes
            &&& weigh(live, m, Sel::Owned) == weigh(live, rows, Sel::Owned) + (if row_owner(row)
                is Owned {
                row.bytes
            } else {
                0
            })
        }),
{
    let m = rows.push(row);
    assert(m.drop_last() =~= rows);
    assert(m.last() == row);
}

} // verus!
