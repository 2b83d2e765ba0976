//! The two lists of sessions and their union.
//!
//! A table of headers and an older document both list the sessions, and either may know
//! of one that the other does not. Only their union says which sessions there are.

use vstd::prelude::*;

use crate::error::Error;
use crate::fx::IdMap;
use crate::json::{
    docs, flag_of, holds, inner, int_of, items_of, json_parsed, lemma_docs, lemma_member, member,
    parse, text_of, Doc, Json,
};
use crate::lineage::{dangling, exists_id, Lineage};
use crate::order::reversed;
use crate::text::{from_utf8_lossy, same, starts_with, utf8_lossy, views};
use crate::types::{id_views, is_composer_id, ComposerId, IdError, LiveSet};

verus! {

broadcast use vstd::string::group_string_axioms;

/// What is known of one session from its header.
#[derive(Debug)]
pub struct SessionHeader {
    pub composer_id: String,
    pub name: Option<String>,
    pub created_at: Option<i64>,
    pub last_updated_at: Option<i64>,
    /// When it was last updated, else when it was created, else zero: the key by which lists
    /// of sessions are sorted.
    pub recency: i64,
    pub is_archived: bool,
    pub is_subagent: bool,
    /// A parallel best-of-N session, which is never counted as a subagent.
    pub is_best_of_n: bool,
    pub workspace_id: Option<String>,
    /// The project folder that the header itself names.
    pub workspace_folder: Option<String>,
    pub parent_composer_id: Option<String>,
    /// The sessions that a best-of-N parent claims as its own.
    pub sub_composer_ids: Vec<String>,
    pub in_header_table: bool,
    pub in_legacy_blob: bool,
}

/// What a header says.
#[verifier::ext_equal]
pub struct HeaderView {
    pub composer_id: Seq<char>,
    pub name: Option<Seq<char>>,
    pub created_at: Option<i64>,
    pub last_updated_at: Option<i64>,
    pub recency: i64,
    pub is_archived: bool,
    pub is_subagent: bool,
    pub is_best_of_n: bool,
    pub workspace_id: Option<Seq<char>>,
    pub workspace_folder: Option<Seq<char>>,
    pub parent_composer_id: Option<Seq<char>>,
    pub sub_composer_ids: Seq<Seq<char>>,
    pub in_header_table: bool,
    pub in_legacy_blob: bool,
}

/// The text in an option.
pub open spec fn opt_text(o: Option<String>) -> Option<Seq<char>> {
    match o {
        Some(s) => Some(s@),
        None => None,
    }
}

impl View for SessionHeader {
    type V = HeaderView;

    open spec fn view(&self) -> HeaderView {
        HeaderView {
            composer_id: self.composer_id@,
            name: opt_text(self.name),
            created_at: self.created_at,
            last_updated_at: self.last_updated_at,
            recency: self.recency,
            is_archived: self.is_archived,
            is_subagent: self.is_subagent,
            is_best_of_n: self.is_best_of_n,
            workspace_id: opt_text(self.workspace_id),
            workspace_folder: opt_text(self.workspace_folder),
            parent_composer_id: opt_text(self.parent_composer_id),
            sub_composer_ids: views(self.sub_composer_ids@),
            in_header_table: self.in_header_table,
            in_legacy_blob: self.in_legacy_blob,
        }
    }
}

/// What headers say.
pub open spec fn header_views(s: Seq<SessionHeader>) -> Seq<HeaderView> {
    s.map_values(|h: SessionHeader| h@)
}

/// The project folder that a header names: the whole address where it is given, else
/// the path alone.
pub open spec fn folder_of(d: Doc) -> Option<Seq<char>> {
    match inner(d, "workspaceIdentifier"@, "uri"@) {
        Some(uri) => match text_of(member(uri, "external"@)) {
            Some(s) => Some(s),
            None => text_of(member(uri, "path"@)),
        },
        None => None,
    }
}

/// The texts among the elements.
pub open spec fn texts_in(items: Seq<Doc>) -> Seq<Seq<char>>
    decreases items.len(),
{
    if items.len() == 0 {
        Seq::empty()
    } else {
        match items.last() {
            Doc::Str(s) => texts_in(items.drop_last()).push(s),
            _ => texts_in(items.drop_last()),
        }
    }
}

/// The sessions that a header claims.
pub open spec fn claims_of(d: Doc) -> Seq<Seq<char>> {
    match items_of(member(d, "subComposerIds"@)) {
        Some(items) => texts_in(items),
        None => Seq::empty(),
    }
}

/// The project folder that a header names.
fn workspace_folder_of(header: &Json) -> (r: Option<String>)
    ensures
        opt_text(r) == folder_of(header@),
{
    match header.get("workspaceIdentifier") {
        Some(w) => match w.get("uri") {
            Some(uri) => match uri.text("external") {
                Some(s) => Some(s),
                None => uri.text("path"),
            },
            None => None,
        },
        None => None,
    }
}

/// The sessions that a header claims.
fn sub_composer_ids_of(header: &Json) -> (r: Vec<String>)
    ensures
        views(r@) == claims_of(header@),
{
    let mut out: Vec<String> = Vec::new();
    match header.get("subComposerIds") {
        Some(list) => match list.as_array() {
            Some(a) => {
                let ghost ds = docs(a@);
                proof {
                    lemma_docs(a@);
                    assert(ds.take(0) =~= Seq::<Doc>::empty());
                    assert(views(out@) =~= texts_in(ds.take(0)));
                }
                let mut i: usize = 0;
                while i < a.len()
                    invariant
                        i <= a@.len(),
                        ds == docs(a@),
                        ds.len() == a@.len(),
                        forall|k: int| 0 <= k < ds.len() ==> #[trigger] ds[k] == doc_at(a@, k),
                        views(out@) == texts_in(ds.take(i as int)),
                    decreases a@.len() - i,
                {
                    proof {
                        assert(ds.take(i + 1).drop_last() =~= ds.take(i as int));
                        assert(ds.take(i + 1).last() == ds[i as int]);
                    }
                    let ghost before = views(out@);
                    match a[i].as_str() {
                        Some(s) => {
                            out.push(s.to_owned());
                            assert(views(out@) =~= before.push(s@));
                        },
                        None => {},
                    }
                    i += 1;
                }
                assert(ds.take(i as int) =~= ds);
            },
            None => {
                assert(views(out@) =~= Seq::<Seq<char>>::empty());
            },
        },
        None => {
            assert(views(out@) =~= Seq::<Seq<char>>::empty());
        },
    }
    out
}

/// An element of an array.
spec fn doc_at(a: Seq<Json>, k: int) -> Doc {
    a[k]@
}

/// A row of the table of headers, as it was read.
#[derive(Debug)]
pub struct HeaderRow {
    pub composer_id: String,
    pub workspace_id: Option<String>,
    pub created_at: Option<i64>,
    pub last_updated_at: Option<i64>,
    pub is_archived: Option<i64>,
    pub is_subagent: Option<i64>,
    /// The sort key that the table keeps itself; the header's goes by the two times.
    pub recency: Option<i64>,
    /// The header itself, a JSON text.
    pub value: Option<String>,
}

/// The document in a row, where there is one.
pub open spec fn row_doc(row: HeaderRow) -> Option<Doc> {
    match row.value {
        Some(v) => match json_parsed(v@) {
            Ok(d) => Some(d),
            Err(_) => None,
        },
        None => None,
    }
}

/// The first of two times that is there, or zero.
pub open spec fn first_time(a: Option<i64>, b: Option<i64>) -> i64 {
    match (a, b) {
        (Some(t), _) => t,
        (None, Some(t)) => t,
        (None, None) => 0,
    }
}

/// A column that counts as true where it is there and not zero.
pub open spec fn set(column: Option<i64>) -> bool {
    column matches Some(n) && n != 0
}

/// The header that a row and its document make.
pub open spec fn row_header(row: HeaderRow, d: Option<Doc>) -> HeaderView {
    HeaderView {
        composer_id: row.composer_id@,
        name: match d {
            Some(d) => text_of(member(d, "name"@)),
            None => None,
        },
        created_at: row.created_at,
        last_updated_at: row.last_updated_at,
        recency: first_time(row.last_updated_at, row.created_at),
        is_archived: set(row.is_archived),
        is_subagent: set(row.is_subagent),
        is_best_of_n: match d {
            Some(d) => flag_of(member(d, "isBestOfNSubcomposer"@)) == Some(true),
            None => false,
        },
        workspace_id: opt_text(row.workspace_id),
        workspace_folder: match d {
            Some(d) => folder_of(d),
            None => None,
        },
        parent_composer_id: match d {
            Some(d) => text_of(inner(d, "subagentInfo"@, "parentComposerId"@)),
            None => None,
        },
        sub_composer_ids: match d {
            Some(d) => claims_of(d),
            None => Seq::empty(),
        },
        in_header_table: true,
        in_legacy_blob: false,
    }
}

fn is_set(column: Option<i64>) -> (r: bool)
    ensures
        r == set(column),
{
    match column {
        Some(n) => n != 0,
        None => false,
    }
}

/// Whether the member with this name is true.
fn is_true(j: &Json, name: &str) -> (r: bool)
    ensures
        r == (flag_of(member(j@, name@)) == Some(true)),
{
    match j.get(name) {
        Some(v) => match v.as_bool() {
            Some(b) => b,
            None => false,
        },
        None => false,
    }
}

/// The integer of the member with this name.
fn int_member(j: &Json, name: &str) -> (r: Option<i64>)
    ensures
        r == int_of(member(j@, name@)),
{
    match j.get(name) {
        Some(v) => v.as_i64(),
        None => None,
    }
}

/// The header that a row and its document make.
pub fn header_of_row(row: HeaderRow, json: Option<Json>) -> (r: SessionHeader)
    ensures
        r@ == row_header(
            row,
            match json {
                Some(j) => Some(j@),
                None => None,
            },
        ),
{
    let recency: i64 = match (row.last_updated_at, row.created_at) {
        (Some(t), _) => t,
        (None, Some(t)) => t,
        (None, None) => 0,
    };
    let mut name: Option<String> = None;
    let mut parent: Option<String> = None;
    let mut folder: Option<String> = None;
    let mut best = false;
    let mut subs: Vec<String> = Vec::new();
    match &json {
        Some(j) => {
            name = j.text("name");
            parent = j.inner_text("subagentInfo", "parentComposerId");
            folder = workspace_folder_of(j);
            best = is_true(j, "isBestOfNSubcomposer");
            subs = sub_composer_ids_of(j);
        },
        None => {
            assert(views(subs@) =~= Seq::<Seq<char>>::empty());
        },
    }
    SessionHeader {
        composer_id: row.composer_id,
        name,
        created_at: row.created_at,
        last_updated_at: row.last_updated_at,
        recency,
        is_archived: is_set(row.is_archived),
        is_subagent: is_set(row.is_subagent),
        is_best_of_n: best,
        workspace_id: row.workspace_id,
        workspace_folder: folder,
        parent_composer_id: parent,
        sub_composer_ids: subs,
        in_header_table: true,
        in_legacy_blob: false,
    }
}

/// The headers of the rows.
pub open spec fn table_headers(rows: Seq<HeaderRow>) -> Seq<HeaderView> {
    rows.map_values(|r: HeaderRow| row_header(r, row_doc(r)))
}

/// The headers in the table. A value that is no JSON counts as none.
pub fn load_header_table(rows: Vec<HeaderRow>) -> (r: Vec<SessionHeader>)
    ensures
        header_views(r@) == table_headers(rows@),
{
    let ghost all = rows@;
    let mut rest = reversed(rows);
    let mut out: Vec<SessionHeader> = Vec::new();
    assert(all.skip(0) =~= all);
    assert(header_views(out@) =~= table_headers(all.take(0)));
    while rest.len() > 0
        invariant
            out@.len() + rest@.len() == all.len(),
            rest@ == all.skip(out@.len() as int).reverse(),
            header_views(out@) == table_headers(all.take(out@.len() as int)),
        decreases rest@.len(),
    {
        let ghost k = out@.len() as int;
        let ghost before = header_views(out@);
        match rest.pop() {
            Some(row) => {
                assert(row == all[k]);
                let json = match &row.value {
                    Some(v) => match parse(v.as_str()) {
                        Ok(j) => Some(j),
                        Err(_) => None,
                    },
                    None => None,
                };
                let h = header_of_row(row, json);
                out.push(h);
                proof {
                    assert(header_views(out@) =~= before.push(h@));
                    assert(table_headers(all.take(k + 1)) =~= table_headers(all.take(k)).push(
                        row_header(all[k], row_doc(all[k])),
                    ));
                    assert(rest@ =~= all.skip(k + 1).reverse());
                }
            },
            None => {},
        }
    }
    assert(all.take(out@.len() as int) =~= all);
    out
}

/// The header that an entry of the older document makes: it is of the type `head`, and
/// has an id and a time of creation.
pub open spec fn entry_header(d: Doc) -> Option<HeaderView> {
    let id = text_of(member(d, "composerId"@));
    let created = int_of(member(d, "createdAt"@));
    if text_of(member(d, "type"@)) == Some("head"@) && id is Some && created is Some {
        let updated = int_of(member(d, "lastUpdatedAt"@));
        let parent = text_of(inner(d, "subagentInfo"@, "parentComposerId"@));
        let best = flag_of(member(d, "isBestOfNSubcomposer"@)) == Some(true);
        Some(
            HeaderView {
                composer_id: id->0,
                name: text_of(member(d, "name"@)),
                created_at: created,
                last_updated_at: updated,
                recency: first_time(updated, created),
                is_archived: flag_of(member(d, "isArchived"@)) == Some(true),
                is_subagent: ("task-"@.is_prefix_of(id->0) || parent is Some) && !best,
                is_best_of_n: best,
                workspace_id: text_of(inner(d, "workspaceIdentifier"@, "id"@)),
                workspace_folder: folder_of(d),
                parent_composer_id: parent,
                sub_composer_ids: claims_of(d),
                in_header_table: false,
                in_legacy_blob: true,
            },
        )
    } else {
        None
    }
}

/// The header that an entry of the older document makes.
pub fn header_of_entry(h: &Json) -> (r: Option<SessionHeader>)
    ensures
        match r {
            Some(s) => entry_header(h@) == Some(s@),
            None => entry_header(h@) is None,
        },
{
    let is_head = match h.get("type") {
        Some(t) => match t.as_str() {
            Some(s) => same(s, "head"),
            None => false,
        },
        None => false,
    };
    if !is_head {
        return None;
    }
    let composer_id = match h.text("composerId") {
        Some(s) => s,
        None => return None,
    };
    let created_at: i64 = match int_member(h, "createdAt") {
        Some(t) => t,
        None => return None,
    };
    let last_updated_at = int_member(h, "lastUpdatedAt");
    let parent_composer_id = h.inner_text("subagentInfo", "parentComposerId");
    let is_best_of_n = is_true(h, "isBestOfNSubcomposer");
    let is_subagent = (starts_with(composer_id.as_str(), "task-") || parent_composer_id.is_some())
        && !is_best_of_n;
    let recency: i64 = match last_updated_at {
        Some(t) => t,
        None => created_at,
    };
    Some(
        SessionHeader {
            composer_id,
            name: h.text("name"),
            created_at: Some(created_at),
            last_updated_at,
            recency,
            is_archived: is_true(h, "isArchived"),
            is_subagent,
            is_best_of_n,
            workspace_id: h.inner_text("workspaceIdentifier", "id"),
            workspace_folder: workspace_folder_of(h),
            parent_composer_id,
            sub_composer_ids: sub_composer_ids_of(h),
            in_header_table: false,
            in_legacy_blob: true,
        },
    )
}

/// The headers that the entries make, those left out that make none.
pub open spec fn entry_headers(items: Seq<Doc>) -> Seq<HeaderView>
    decreases items.len(),
{
    if items.len() == 0 {
        Seq::empty()
    } else {
        match entry_header(items.last()) {
            Some(h) => entry_headers(items.drop_last()).push(h),
            None => entry_headers(items.drop_last()),
        }
    }
}

/// The headers in the older document.
pub open spec fn legacy_headers(d: Doc) -> Seq<HeaderView> {
    match items_of(member(d, "allComposers"@)) {
        Some(items) => entry_headers(items),
        None => Seq::empty(),
    }
}

/// The headers in the older document.
pub fn headers_of_document(json: &Json) -> (r: Vec<SessionHeader>)
    ensures
        header_views(r@) == legacy_headers(json@),
{
    let mut out: Vec<SessionHeader> = Vec::new();
    assert(header_views(out@) =~= Seq::<HeaderView>::empty());
    match json.get("allComposers") {
        Some(list) => match list.as_array() {
            Some(a) => {
                let ghost ds = docs(a@);
                proof {
                    lemma_docs(a@);
                    assert(ds.take(0) =~= Seq::<Doc>::empty());
                }
                let mut i: usize = 0;
                while i < a.len()
                    invariant
                        i <= a@.len(),
                        ds == docs(a@),
                        ds.len() == a@.len(),
                        forall|k: int| 0 <= k < ds.len() ==> #[trigger] ds[k] == doc_at(a@, k),
                        header_views(out@) == entry_headers(ds.take(i as int)),
                    decreases a@.len() - i,
                {
                    proof {
                        assert(ds.take(i + 1).drop_last() =~= ds.take(i as int));
                        assert(ds.take(i + 1).last() == ds[i as int]);
                    }
                    let ghost before = header_views(out@);
                    match header_of_entry(&a[i]) {
                        Some(h) => {
                            out.push(h);
                            assert(header_views(out@) =~= before.push(h@));
                        },
                        None => {},
                    }
                    i += 1;
                }
                assert(ds.take(i as int) =~= ds);
            },
            None => {},
        },
        None => {},
    }
    out
}

/// The headers in the older document, from the bytes in which it is kept. Bytes that are
/// no UTF-8 are replaced; a text that is no JSON is an error.
pub fn load_legacy_blob(raw: Option<&[u8]>) -> (r: Result<Vec<SessionHeader>, Error>)
    ensures
        match raw {
            None => r matches Ok(v) && header_views(v@) == Seq::<HeaderView>::empty(),
            Some(b) => match json_parsed(utf8_lossy(b@)) {
                Ok(d) => r matches Ok(v) && header_views(v@) == legacy_headers(d),
                Err(e) => r matches Err(Error::Json { what, source }) && what@ == "旧 header blob"@
                    && source@ == e,
            },
        },
{
    match raw {
        None => {
            let out: Vec<SessionHeader> = Vec::new();
            assert(header_views(out@) =~= Seq::<HeaderView>::empty());
            Ok(out)
        },
        Some(b) => {
            let text = from_utf8_lossy(b);
            match parse(text.as_str()) {
                Ok(json) => Ok(headers_of_document(&json)),
                Err(e) => Err(Error::Json { what: "旧 header blob", source: e }),
            }
        },
    }
}

/// Where the header with this id stands.
pub open spec fn place_of(list: Seq<HeaderView>, id: Seq<char>) -> Option<int>
    decreases list.len(),
{
    if list.len() == 0 {
        None
    } else if list.last().composer_id == id {
        Some(list.len() - 1)
    } else {
        place_of(list.drop_last(), id)
    }
}

/// The list with a header of the table: in the place of one with its id, or at the end.
pub open spec fn put_header(list: Seq<HeaderView>, h: HeaderView) -> Seq<HeaderView> {
    match place_of(list, h.composer_id) {
        Some(i) => list.update(i, h),
        None => list.push(h),
    }
}

/// The list with a header of the older document: where one with its id is there, that
/// one is marked; else it comes to the end.
pub open spec fn mark_header(list: Seq<HeaderView>, h: HeaderView) -> Seq<HeaderView> {
    match place_of(list, h.composer_id) {
        Some(i) => list.update(i, HeaderView { in_legacy_blob: true, ..list[i] }),
        None => list.push(h),
    }
}

/// The headers of the table, of each id the last.
pub open spec fn put_all(table: Seq<HeaderView>) -> Seq<HeaderView>
    decreases table.len(),
{
    if table.len() == 0 {
        Seq::empty()
    } else {
        put_header(put_all(table.drop_last()), table.last())
    }
}

/// The union of the two lists: the table goes before the older document.
pub open spec fn union(table: Seq<HeaderView>, legacy: Seq<HeaderView>) -> Seq<HeaderView>
    decreases legacy.len(),
{
    if legacy.len() == 0 {
        put_all(table)
    } else {
        mark_header(union(table, legacy.drop_last()), legacy.last())
    }
}

/// A list by recency with one header more: behind all that are as recent.
pub open spec fn insert_by_recency(s: Seq<HeaderView>, x: HeaderView) -> Seq<HeaderView>
    decreases s.len(),
{
    if s.len() == 0 || s.last().recency >= x.recency {
        s.push(x)
    } else {
        insert_by_recency(s.drop_last(), x).push(s.last())
    }
}

/// The headers, the most recent first; those as recent as each other keep their order.
pub open spec fn by_recency(s: Seq<HeaderView>) -> Seq<HeaderView>
    decreases s.len(),
{
    if s.len() == 0 {
        Seq::empty()
    } else {
        insert_by_recency(by_recency(s.drop_last()), s.last())
    }
}

/// `slice::sort_by_key` with the recency in reverse: the stable order [`by_recency`].
#[verifier::external_body]
fn sort_by_recency(v: &mut Vec<SessionHeader>)
    ensures
        header_views(final(v)@) == by_recency(header_views(old(v)@)),
{
    v.sort_by_key(|h| std::cmp::Reverse(h.recency))
}

/// The list and the places of its ids.
struct Merger {
    list: Vec<SessionHeader>,
    places: IdMap<usize>,
}

impl Merger {
    spec fn wf(&self) -> bool {
        &&& self.places.wf()
        &&& forall|id: Seq<char>| #[trigger]
            self.places@.contains_key(id) <==> place_of(header_views(self.list@), id) is Some
        &&& forall|id: Seq<char>| #[trigger]
            self.places@.contains_key(id) ==> self.places@[id] == place_of(
                header_views(self.list@),
                id,
            )->0
    }

    fn new() -> (m: Self)
        ensures
            m.wf(),
            header_views(m.list@) == Seq::<HeaderView>::empty(),
    {
        let m = Merger { list: Vec::new(), places: IdMap::new() };
        assert(header_views(m.list@) =~= Seq::<HeaderView>::empty());
        m
    }

    fn append(&mut self, h: SessionHeader)
        requires
            old(self).wf(),
            place_of(header_views(old(self).list@), h@.composer_id) is None,
        ensures
            final(self).wf(),
            header_views(final(self).list@) == header_views(old(self).list@).push(h@),
    {
        let n: usize = self.list.len();
        self.places.insert(h.composer_id.clone(), n);
        self.list.push(h);
        proof {
            let a = header_views(old(self).list@);
            let b = header_views(self.list@);
            assert(b =~= a.push(h@));
            assert(b.drop_last() =~= a);
        }
    }

    /// A header of the table.
    fn put(&mut self, h: SessionHeader)
        requires
            old(self).wf(),
        ensures
            final(self).wf(),
            header_views(final(self).list@) == put_header(header_views(old(self).list@), h@),
    {
        let ghost a = header_views(self.list@);
        assert(self.places@.contains_key(h@.composer_id) <==> place_of(a, h@.composer_id) is Some);
        match self.places.get(h.composer_id.as_str()) {
            Some(i) => {
                let i: usize = *i;
                proof {
                    lemma_place_of(a, h@.composer_id);
                }
                self.list.set(i, h);
                proof {
                    let b = header_views(self.list@);
                    assert(b =~= a.update(i as int, h@));
                    assert forall|id: Seq<char>| place_of(b, id) == place_of(a, id) by {
                        lemma_place_of_update(a, i as int, h@, id);
                    }
                }
            },
            None => {
                self.append(h);
            },
        }
    }

    /// A header of the older document.
    fn mark(&mut self, h: SessionHeader)
        requires
            old(self).wf(),
        ensures
            final(self).wf(),
            header_views(final(self).list@) == mark_header(header_views(old(self).list@), h@),
    {
        let ghost a = header_views(self.list@);
        assert(self.places@.contains_key(h@.composer_id) <==> place_of(a, h@.composer_id) is Some);
        match self.places.get(h.composer_id.as_str()) {
            Some(i) => {
                let i: usize = *i;
                proof {
                    lemma_place_of(a, h@.composer_id);
                }
                self.list[i].in_legacy_blob = true;
                proof {
                    let b = header_views(self.list@);
                    let x = HeaderView { in_legacy_blob: true, ..a[i as int] };
                    assert(b =~= a.update(i as int, x));
                    assert forall|id: Seq<char>| place_of(b, id) == place_of(a, id) by {
                        lemma_place_of_update(a, i as int, x, id);
                    }
                }
            },
            None => {
                self.append(h);
            },
        }
    }
}

proof fn lemma_place_of(list: Seq<HeaderView>, id: Seq<char>)
    ensures
        place_of(list, id) matches Some(i) ==> 0 <= i < list.len() && list[i].composer_id == id,
        place_of(list, id) is None ==> forall|i: int|
            0 <= i < list.len() ==> (#[trigger] list[i]).composer_id != id,
    decreases list.len(),
{
    if list.len() > 0 {
        let rest = list.drop_last();
        lemma_place_of(rest, id);
        if place_of(list, id) is None {
            assert forall|i: int| 0 <= i < list.len() implies (#[trigger] list[i]).composer_id
                != id by {
                if i < list.len() - 1 {
                    assert(rest[i].composer_id != id);
                }
            }
        }
    }
}

/// Another header with the same id changes no place.
proof fn lemma_place_of_update(list: Seq<HeaderView>, i: int, x: HeaderView, id: Seq<char>)
    requires
        0 <= i < list.len(),
        x.composer_id == list[i].composer_id,
    ensures
        place_of(list.update(i, x), id) == place_of(list, id),
    decreases list.len(),
{
    let b = list.update(i, x);
    if i == list.len() - 1 {
        assert(b.drop_last() =~= list.drop_last());
    } else {
        assert(b.drop_last() =~= list.drop_last().update(i, x));
        lemma_place_of_update(list.drop_last(), i, x, id);
    }
}

/// The union of the two lists, the most recent first.
pub fn merge(table: Vec<SessionHeader>, legacy: Vec<SessionHeader>) -> (r: Vec<SessionHeader>)
    ensures
        header_views(r@) == by_recency(union(header_views(table@), header_views(legacy@))),
{
    let ghost ts = header_views(table@);
    let ghost ls = header_views(legacy@);
    let mut m = Merger::new();
    let mut table = reversed(table);
    assert(ts.take(0) =~= Seq::<HeaderView>::empty());
    let ghost mut i: int = 0;
    while table.len() > 0
        invariant
            0 <= i <= ts.len(),
            header_views(table@) == ts.skip(i).reverse(),
            m.wf(),
            header_views(m.list@) == put_all(ts.take(i)),
        decreases table@.len(),
    {
        let ghost rest = header_views(table@);
        match table.pop() {
            Some(h) => {
                proof {
                    assert(rest.last() == h@);
                    assert(ts.skip(i).len() > 0);
                    assert(h@ == ts[i]);
                    assert(ts.take(i + 1).drop_last() =~= ts.take(i));
                    assert(header_views(table@) =~= rest.drop_last());
                    assert(header_views(table@) =~= ts.skip(i + 1).reverse());
                    i = i + 1;
                }
                m.put(h);
            },
            None => {},
        }
    }
    proof {
        assert(ts.skip(i).len() == 0) by {
            assert(header_views(table@).len() == 0);
        }
        assert(ts.take(i) =~= ts);
        assert(ls.take(0) =~= Seq::<HeaderView>::empty());
    }
    let mut legacy = reversed(legacy);
    let ghost mut j: int = 0;
    while legacy.len() > 0
        invariant
            0 <= j <= ls.len(),
            header_views(legacy@) == ls.skip(j).reverse(),
            m.wf(),
            header_views(m.list@) == union(ts, ls.take(j)),
        decreases legacy@.len(),
    {
        let ghost rest = header_views(legacy@);
        match legacy.pop() {
            Some(h) => {
                proof {
                    assert(rest.last() == h@);
                    assert(ls.skip(j).len() > 0);
                    assert(h@ == ls[j]);
                    assert(ls.take(j + 1).drop_last() =~= ls.take(j));
                    assert(header_views(legacy@) =~= rest.drop_last());
                    assert(header_views(legacy@) =~= ls.skip(j + 1).reverse());
                    j = j + 1;
                }
                m.mark(h);
            },
            None => {},
        }
    }
    proof {
        assert(ls.skip(j).len() == 0) by {
            assert(header_views(legacy@).len() == 0);
        }
        assert(ls.take(j) =~= ls);
    }
    let mut list = m.list;
    sort_by_recency(&mut list);
    list
}

/// All sessions, from the rows of the table and the bytes of the older document.
pub fn load_union(rows: Vec<HeaderRow>, raw: Option<&[u8]>) -> (r: Result<
    Vec<SessionHeader>,
    Error,
>)
    ensures
        match raw {
            None => r matches Ok(v) && header_views(v@) == by_recency(
                union(table_headers(rows@), Seq::empty()),
            ),
            Some(b) => match json_parsed(utf8_lossy(b@)) {
                Ok(d) => r matches Ok(v) && header_views(v@) == by_recency(
                    union(table_headers(rows@), legacy_headers(d)),
                ),
                Err(e) => r matches Err(Error::Json { what, source }) && what@ == "旧 header blob"@
                    && source@ == e,
            },
        },
{
    let table = load_header_table(rows);
    match load_legacy_blob(raw) {
        Ok(legacy) => Ok(merge(table, legacy)),
        Err(e) => Err(e),
    }
}

/// The session counts, and its id is none.
pub open spec fn has_bad_id(s: Seq<SessionHeader>, i: int) -> bool {
    !dangling(s, s[i].composer_id@) && !is_composer_id(s[i].composer_id@)
}

/// The ids of the sessions that are alive: all but the dangling ones.
pub open spec fn live_ids(s: Seq<SessionHeader>) -> Set<Seq<char>> {
    Set::new(|x: Seq<char>| exists_id(s, x) && !dangling(s, x))
}

/// What is wrong with a text that is no id.
pub open spec fn is_id_fault(raw: Seq<char>, e: IdError) -> bool {
    match e {
        IdError::Empty => raw.len() == 0,
        IdError::InvalidChars { raw: shown } => raw.len() > 0 && !is_composer_id(raw) && shown@ == raw,
        IdError::TooShort { .. } => false,
    }
}

/// The error names the first bad id.
pub open spec fn is_live_error(s: Seq<SessionHeader>, e: Error) -> bool {
    e matches Error::BadHeaderId { raw, source } && exists|i: int|
        {
            &&& 0 <= i < s.len()
            &&& #[trigger] has_bad_id(s, i)
            &&& forall|j: int| 0 <= j < i ==> !has_bad_id(s, j)
            &&& raw@ == s[i].composer_id@
            &&& is_id_fault(raw@, source)
        }
}

/// The ids of the sessions that are alive. A dangling subagent does not count, so its
/// rows become orphans. One bad id is an error for all: to pass over it would make
/// orphans of its rows.
pub fn live_set(sessions: &[SessionHeader]) -> (r: Result<LiveSet, Error>)
    ensures
        match r {
            Ok(live) => live@ == live_ids(sessions@) && forall|i: int|
                0 <= i < sessions@.len() ==> !#[trigger] has_bad_id(sessions@, i),
            Err(e) => is_live_error(sessions@, e),
        },
{
    let lineage = Lineage::build(sessions);
    let ghost s = sessions@;
    let mut ids: Vec<ComposerId> = Vec::new();
    let mut i: usize = 0;
    while i < sessions.len()
        invariant
            i <= sessions@.len(),
            s == sessions@,
            lineage.sessions() == s,
            forall|j: int| 0 <= j < i ==> !#[trigger] has_bad_id(s, j),
            forall|x: Seq<char>| #[trigger]
                id_views(ids@).contains(x) <==> !dangling(s, x) && exists|j: int|
                    0 <= j < i && #[trigger] s[j].composer_id@ == x,
        decreases sessions@.len() - i,
    {
        let raw = &sessions[i].composer_id;
        let ghost before = id_views(ids@);
        if !lineage.is_dangling(raw.as_str()) {
            match ComposerId::parse(raw.as_str()) {
                Ok(id) => {
                    ids.push(id);
                    proof {
                        assert(id_views(ids@) =~= before.push(id@));
                        crate::text::lemma_push_contains(before, id@);
                    }
                },
                Err(source) => {
                    assert(has_bad_id(s, i as int));
                    return Err(Error::BadHeaderId { raw: raw.clone(), source });
                },
            }
        }
        proof {
            assert forall|x: Seq<char>| #[trigger] id_views(ids@).contains(x) <==> !dangling(s, x)
                && exists|j: int| 0 <= j < i + 1 && #[trigger] s[j].composer_id@ == x by {
                assert(before.contains(x) <==> !dangling(s, x) && exists|j: int|
                    0 <= j < i && #[trigger] s[j].composer_id@ == x);
                if x == s[i as int].composer_id@ {
                    assert(s[i as int].composer_id@ == x);
                }
                if exists|j: int| 0 <= j < i + 1 && #[trigger] s[j].composer_id@ == x {
                    let j = choose|j: int| 0 <= j < i + 1 && #[trigger] s[j].composer_id@ == x;
                    if j < i {
                        assert(0 <= j < i && s[j].composer_id@ == x);
                    }
                }
            }
        }
        i += 1;
    }
    let live = LiveSet::from_ids(ids);
    proof {
        assert forall|x: Seq<char>| live@.contains(x) <==> live_ids(s).contains(x) by {
            assert(id_views(ids@).to_set().contains(x) <==> id_views(ids@).contains(x));
        }
        assert(live@ =~= live_ids(s));
    }
    Ok(live)
}

/// The ids of the sessions that are alive, of which there must be one: a database
/// without any is most likely the wrong one, and `action` would delete all that it holds.
pub fn live_or_refuse(sessions: &[SessionHeader], action: &'static str) -> (r: Result<
    LiveSet,
    Error,
>)
    ensures
        match r {
            Ok(live) => live@ == live_ids(sessions@) && !(live@ =~= Set::<Seq<char>>::empty())
                && forall|i: int|
                0 <= i < sessions@.len() ==> !#[trigger] has_bad_id(sessions@, i),
            Err(Error::EmptyLiveSet { action: a }) => a@ == action@ && live_ids(sessions@) =~= Set::<
                Seq<char>,
            >::empty() && forall|i: int|
                0 <= i < sessions@.len() ==> !#[trigger] has_bad_id(sessions@, i),
            Err(e) => is_live_error(sessions@, e),
        },
{
    match live_set(sessions) {
        Ok(live) => {
            if live.is_empty() {
                Err(Error::EmptyLiveSet { action })
            } else {
                Ok(live)
            }
        },
        Err(e) => Err(e),
    }
}

/// Some header in the list has this id.
pub open spec fn lists_id(s: Seq<HeaderView>, id: Seq<char>) -> bool {
    exists|i: int| 0 <= i < s.len() && (#[trigger] s[i]).composer_id == id
}

/// No two headers in the list have the same id.
pub open spec fn ids_distinct(s: Seq<HeaderView>) -> bool {
    forall|i: int, j: int|
        0 <= i < j < s.len() ==> (#[trigger] s[i]).composer_id != (#[trigger] s[j]).composer_id
}

/// The union holds the sessions of both lists and no others, each once.
pub proof fn lemma_union_is_complete(table: Seq<HeaderView>, legacy: Seq<HeaderView>)
    ensures
        ids_distinct(union(table, legacy)),
        forall|id: Seq<char>| #[trigger]
            lists_id(union(table, legacy), id) <==> lists_id(table, id) || lists_id(legacy, id),
    decreases legacy.len(),
{
    if legacy.len() == 0 {
        lemma_put_all(table);
    } else {
        let rest = legacy.drop_last();
        let h = legacy.last();
        let list = union(table, rest);
        lemma_union_is_complete(table, rest);
        lemma_place_of(list, h.composer_id);
        let x = match place_of(list, h.composer_id) {
            Some(i) => HeaderView { in_legacy_blob: true, ..list[i] },
            None => h,
        };
        lemma_list_grows(list, x);
        assert forall|id: Seq<char>| #[trigger] lists_id(union(table, legacy), id) <==> lists_id(
            table,
            id,
        ) || lists_id(legacy, id) by {
            lemma_lists_last(legacy, id);
            assert(lists_id(list, id) <==> lists_id(table, id) || lists_id(rest, id));
        }
    }
}

proof fn lemma_lists_last(s: Seq<HeaderView>, id: Seq<char>)
    requires
        s.len() > 0,
    ensures
        lists_id(s, id) <==> lists_id(s.drop_last(), id) || s.last().composer_id == id,
{
    let rest = s.drop_last();
    if lists_id(s, id) {
        let i = choose|i: int| 0 <= i < s.len() && (#[trigger] s[i]).composer_id == id;
        if i < s.len() - 1 {
            assert(rest[i].composer_id == id);
        }
    }
    if lists_id(rest, id) {
        let i = choose|i: int| 0 <= i < rest.len() && (#[trigger] rest[i]).composer_id == id;
        assert(s[i].composer_id == id);
    }
    assert(s[s.len() - 1].composer_id == s.last().composer_id);
}

/// A header put in the place of one with its id, or else at the end.
proof fn lemma_list_grows(list: Seq<HeaderView>, x: HeaderView)
    requires
        ids_distinct(list),
    ensures
        ids_distinct(put_header(list, x)),
        forall|id: Seq<char>| #[trigger]
            lists_id(put_header(list, x), id) <==> lists_id(list, id) || id == x.composer_id,
{
    lemma_place_of(list, x.composer_id);
    let r = put_header(list, x);
    match place_of(list, x.composer_id) {
        Some(k) => {
            assert forall|id: Seq<char>| #[trigger] lists_id(r, id) <==> lists_id(list, id) || id
                == x.composer_id by {
                if lists_id(r, id) {
                    let i = choose|i: int| 0 <= i < r.len() && (#[trigger] r[i]).composer_id == id;
                    assert(list[i].composer_id == id);
                }
                if lists_id(list, id) {
                    let i = choose|i: int|
                        0 <= i < list.len() && (#[trigger] list[i]).composer_id == id;
                    assert(r[i].composer_id == id);
                }
                assert(r[k].composer_id == x.composer_id);
            }
            assert forall|i: int, j: int| 0 <= i < j < r.len() implies (
            #[trigger] r[i]).composer_id != (#[trigger] r[j]).composer_id by {
                assert(list[i].composer_id != list[j].composer_id);
            }
        },
        None => {
            assert forall|id: Seq<char>| #[trigger] lists_id(r, id) <==> lists_id(list, id) || id
                == x.composer_id by {
                lemma_lists_last(r, id);
                assert(r.drop_last() =~= list);
            }
            assert forall|i: int, j: int| 0 <= i < j < r.len() implies (
            #[trigger] r[i]).composer_id != (#[trigger] r[j]).composer_id by {
                assert(list[i].composer_id == r[i].composer_id);
                if j < list.len() {
                    assert(list[j].composer_id == r[j].composer_id);
                }
            }
        },
    }
}

proof fn lemma_put_all(table: Seq<HeaderView>)
    ensures
        ids_distinct(put_all(table)),
        forall|id: Seq<char>| #[trigger] lists_id(put_all(table), id) <==> lists_id(table, id),
    decreases table.len(),
{
    if table.len() > 0 {
        let rest = table.drop_last();
        lemma_put_all(rest);
        lemma_list_grows(put_all(rest), table.last());
        assert forall|id: Seq<char>| #[trigger] lists_id(put_all(table), id) <==> lists_id(
            table,
            id,
        ) by {
            lemma_lists_last(table, id);
            assert(lists_id(put_all(rest), id) <==> lists_id(rest, id));
        }
    }
}

/// Sorting by recency loses and adds nothing, and puts the most recent first.
pub proof fn lemma_by_recency(s: Seq<HeaderView>)
    ensures
        by_recency(s).to_multiset() == s.to_multiset(),
        forall|i: int, j: int|
            0 <= i < j < by_recency(s).len() ==> (#[trigger] by_recency(s)[i]).recency >= (
            #[trigger] by_recency(s)[j]).recency,
    decreases s.len(),
{
    if s.len() > 0 {
        let rest = s.drop_last();
        lemma_by_recency(rest);
        lemma_insert_by_recency(by_recency(rest), s.last());
        assert(s =~= rest.push(s.last()));
        rest.to_multiset_ensures();
    } else {
        assert(s =~= Seq::<HeaderView>::empty());
    }
}

proof fn lemma_insert_by_recency(s: Seq<HeaderView>, x: HeaderView)
    requires
        forall|i: int, j: int|
            0 <= i < j < s.len() ==> (#[trigger] s[i]).recency >= (#[trigger] s[j]).recency,
    ensures
        insert_by_recency(s, x).to_multiset() == s.to_multiset().insert(x),
        insert_by_recency(s, x).len() == s.len() + 1,
        forall|i: int, j: int|
            0 <= i < j < insert_by_recency(s, x).len() ==> (#[trigger] insert_by_recency(
                s,
                x,
            )[i]).recency >= (#[trigger] insert_by_recency(s, x)[j]).recency,
        forall|i: int|
            0 <= i < insert_by_recency(s, x).len() ==> (#[trigger] insert_by_recency(
                s,
                x,
            )[i]).recency >= x.recency || (s.len() > 0 && insert_by_recency(s, x)[i].recency
                >= s.last().recency),
    decreases s.len(),
{
    s.to_multiset_ensures();
    if s.len() == 0 || s.last().recency >= x.recency {
        assert forall|i: int, j: int| 0 <= i < j < s.push(x).len() implies (
        #[trigger] s.push(x)[i]).recency >= (#[trigger] s.push(x)[j]).recency by {
            if j == s.len() {
                assert(s[i].recency >= s[s.len() - 1].recency);
            } else {
                assert(s[i].recency >= s[j].recency);
            }
        }
    } else {
        let rest = s.drop_last();
        lemma_insert_by_recency(rest, x);
        let t = insert_by_recency(rest, x);
        let r = t.push(s.last());
        assert(s =~= rest.push(s.last()));
        rest.to_multiset_ensures();
        t.to_multiset_ensures();
        assert(r.to_multiset() =~= s.to_multiset().insert(x));
        assert forall|i: int, j: int| 0 <= i < j < r.len() implies (#[trigger] r[i]).recency >= (
        #[trigger] r[j]).recency by {
            if j == t.len() {
                if t[i].recency < x.recency {
                    assert(rest.last().recency >= s.last().recency) by {
                        assert(s[s.len() - 2].recency >= s[s.len() - 1].recency);
                    }
                }
            } else {
                assert(t[i].recency >= t[j].recency);
            }
        }
        assert forall|i: int| 0 <= i < r.len() implies (#[trigger] r[i]).recency >= x.recency || (
        s.len() > 0 && r[i].recency >= s.last().recency) by {
            if i < t.len() {
                if rest.len() > 0 {
                    assert(s[s.len() - 2].recency >= s[s.len() - 1].recency);
                }
                assert(t[i].recency >= x.recency || t[i].recency >= rest.last().recency);
            }
        }
    }
}

/// The document names the session that it is a subagent of.
pub open spec fn names_parent(d: Doc, p: Seq<char>) -> bool {
    exists|info: Doc| #[trigger]
        holds(d, "subagentInfo"@, info) && holds(info, "parentComposerId"@, Doc::Str(p))
}

/// The document names the folder of its workspace, by the whole address.
pub open spec fn names_address(d: Doc, t: Seq<char>) -> bool {
    exists|w: Doc, uri: Doc| #[trigger]
        holds(d, "workspaceIdentifier"@, w) && #[trigger] holds(w, "uri"@, uri) && holds(
            uri,
            "external"@,
            Doc::Str(t),
        )
}

/// The document names the folder of its workspace, by the path.
pub open spec fn names_path(d: Doc, t: Seq<char>) -> bool {
    exists|w: Doc, uri: Doc| #[trigger]
        holds(d, "workspaceIdentifier"@, w) && #[trigger] holds(w, "uri"@, uri) && holds(
            uri,
            "path"@,
            Doc::Str(t),
        )
}

/// The document claims the session as its own.
pub open spec fn claims(d: Doc, t: Seq<char>) -> bool {
    exists|list: Seq<Doc>| #[trigger]
        holds(d, "subComposerIds"@, Doc::Arr(list)) && list.contains(Doc::Str(t))
}

proof fn lemma_names_parent(d: Doc, p: Seq<char>)
    ensures
        text_of(inner(d, "subagentInfo"@, "parentComposerId"@)) == Some(p) <==> names_parent(d, p),
{
    match member(d, "subagentInfo"@) {
        Some(info) => {
            lemma_member(d, "subagentInfo"@, info);
            lemma_member(info, "parentComposerId"@, Doc::Str(p));
        },
        None => {},
    }
    if names_parent(d, p) {
        let info = choose|info: Doc| #[trigger]
            holds(d, "subagentInfo"@, info) && holds(info, "parentComposerId"@, Doc::Str(p));
        lemma_member(d, "subagentInfo"@, info);
        lemma_member(info, "parentComposerId"@, Doc::Str(p));
    }
}

proof fn lemma_names_folder(d: Doc, t: Seq<char>)
    ensures
        folder_of(d) == Some(t) <==> names_address(d, t) || (names_path(d, t) && forall|x: Seq<char>|
            !#[trigger] names_address(d, x)),
{
    assert forall|x: Seq<char>| #[trigger] names_address(d, x) <==> (inner(
        d,
        "workspaceIdentifier"@,
        "uri"@,
    ) matches Some(uri) && text_of(member(uri, "external"@)) == Some(x)) by {
        lemma_names_end(d, "external"@, x);
    }
    lemma_names_end(d, "path"@, t);
    match inner(d, "workspaceIdentifier"@, "uri"@) {
        Some(uri) => match text_of(member(uri, "external"@)) {
            Some(s) => {
                assert(names_address(d, s));
            },
            None => {},
        },
        None => {},
    }
}

proof fn lemma_names_end(d: Doc, name: Seq<char>, x: Seq<char>)
    ensures
        (exists|w: Doc, uri: Doc| #[trigger]
            holds(d, "workspaceIdentifier"@, w) && #[trigger] holds(w, "uri"@, uri) && holds(
                uri,
                name,
                Doc::Str(x),
            )) <==> (inner(d, "workspaceIdentifier"@, "uri"@) matches Some(uri) && text_of(
            member(uri, name),
        ) == Some(x)),
{
    match member(d, "workspaceIdentifier"@) {
        Some(w) => {
            lemma_member(d, "workspaceIdentifier"@, w);
            match member(w, "uri"@) {
                Some(uri) => {
                    lemma_member(w, "uri"@, uri);
                    lemma_member(uri, name, Doc::Str(x));
                },
                None => {},
            }
        },
        None => {},
    }
    if exists|w: Doc, uri: Doc| #[trigger]
        holds(d, "workspaceIdentifier"@, w) && #[trigger] holds(w, "uri"@, uri) && holds(
            uri,
            name,
            Doc::Str(x),
        ) {
        let (w, uri) = choose|w: Doc, uri: Doc| #[trigger]
            holds(d, "workspaceIdentifier"@, w) && #[trigger] holds(w, "uri"@, uri) && holds(
                uri,
                name,
                Doc::Str(x),
            );
        lemma_member(d, "workspaceIdentifier"@, w);
        lemma_member(w, "uri"@, uri);
        lemma_member(uri, name, Doc::Str(x));
    }
}

proof fn lemma_texts_in(items: Seq<Doc>, t: Seq<char>)
    ensures
        texts_in(items).contains(t) <==> items.contains(Doc::Str(t)),
    decreases items.len(),
{
    if items.len() > 0 {
        let rest = items.drop_last();
        lemma_texts_in(rest, t);
        assert(items =~= rest.push(items.last()));
        crate::text::lemma_push_contains(rest, items.last());
        match items.last() {
            Doc::Str(s) => {
                crate::text::lemma_push_contains(texts_in(rest), s);
            },
            _ => {},
        }
    }
}

proof fn lemma_claims(d: Doc, t: Seq<char>)
    ensures
        claims_of(d).contains(t) <==> claims(d, t),
{
    match member(d, "subComposerIds"@) {
        Some(l) => {
            lemma_member(d, "subComposerIds"@, l);
            match l {
                Doc::Arr(list) => {
                    lemma_texts_in(list, t);
                },
                _ => {},
            }
        },
        None => {},
    }
    if claims(d, t) {
        let list = choose|list: Seq<Doc>| #[trigger]
            holds(d, "subComposerIds"@, Doc::Arr(list)) && list.contains(Doc::Str(t));
        lemma_member(d, "subComposerIds"@, Doc::Arr(list));
        lemma_texts_in(list, t);
    }
}

/// What is read from the value of a header, in the table and in the older document alike:
/// its name, its parent, its folder, the sessions that it claims, and whether it is one of
/// several tries.
pub open spec fn says(h: HeaderView, d: Doc) -> bool {
    &&& forall|t: Seq<char>| (h.name == Some(t)) <==> #[trigger] holds(d, "name"@, Doc::Str(t))
    &&& forall|p: Seq<char>| (h.parent_composer_id == Some(p)) <==> #[trigger] names_parent(d, p)
    &&& h.is_best_of_n <==> holds(d, "isBestOfNSubcomposer"@, Doc::Bool(true))
    &&& forall|t: Seq<char>| #[trigger] names_address(d, t) ==> h.workspace_folder == Some(t)
    &&& (forall|t: Seq<char>| !#[trigger] names_address(d, t)) ==> forall|t: Seq<char>|
        (h.workspace_folder == Some(t)) <==> #[trigger] names_path(d, t)
    &&& forall|t: Seq<char>| #[trigger] h.sub_composer_ids.contains(t) <==> claims(d, t)
}

proof fn lemma_says(h: HeaderView, d: Doc)
    requires
        h.name == text_of(member(d, "name"@)),
        h.parent_composer_id == text_of(inner(d, "subagentInfo"@, "parentComposerId"@)),
        h.is_best_of_n == (flag_of(member(d, "isBestOfNSubcomposer"@)) == Some(true)),
        h.workspace_folder == folder_of(d),
        h.sub_composer_ids == claims_of(d),
    ensures
        says(h, d),
{
    assert forall|t: Seq<char>| (h.name == Some(t)) <==> #[trigger] holds(
        d,
        "name"@,
        Doc::Str(t),
    ) by {
        lemma_member(d, "name"@, Doc::Str(t));
    }
    assert forall|p: Seq<char>| (h.parent_composer_id == Some(p)) <==> #[trigger] names_parent(
        d,
        p,
    ) by {
        lemma_names_parent(d, p);
    }
    lemma_member(d, "isBestOfNSubcomposer"@, Doc::Bool(true));
    assert forall|t: Seq<char>| #[trigger] names_address(d, t) implies h.workspace_folder == Some(
        t,
    ) by {
        lemma_names_folder(d, t);
    }
    if forall|t: Seq<char>| !#[trigger] names_address(d, t) {
        assert forall|t: Seq<char>| (h.workspace_folder == Some(t)) <==> #[trigger] names_path(
            d,
            t,
        ) by {
            lemma_names_folder(d, t);
        }
    }
    assert forall|t: Seq<char>| #[trigger] h.sub_composer_ids.contains(t) <==> claims(d, t) by {
        lemma_claims(d, t);
    }
}

/// The header of a row goes by the row's columns and by what its value says; where the value
/// is no JSON, by the columns alone. Its parent is the one that its value names in
/// `subagentInfo`, wherever else such a name occurs.
pub proof fn lemma_row_header(row: HeaderRow)
    ensures
        ({
            let h = row_header(row, row_doc(row));
            &&& h.composer_id == row.composer_id@
            &&& h.created_at == row.created_at
            &&& h.last_updated_at == row.last_updated_at
            &&& h.workspace_id == opt_text(row.workspace_id)
            &&& h.is_archived <==> (row.is_archived matches Some(n) && n != 0)
            &&& h.is_subagent <==> (row.is_subagent matches Some(n) && n != 0)
            &&& h.in_header_table && !h.in_legacy_blob
            &&& row.last_updated_at matches Some(t) ==> h.recency == t
            &&& row.last_updated_at is None ==> (row.created_at matches Some(t) ==> h.recency == t)
            &&& row.last_updated_at is None && row.created_at is None ==> h.recency == 0
            &&& match row.value {
                Some(v) => match json_parsed(v@) {
                    Ok(d) => says(h, d),
                    Err(_) => h.name is None && h.parent_composer_id is None && !h.is_best_of_n
                        && h.workspace_folder is None && h.sub_composer_ids.len() == 0,
                },
                None => h.name is None && h.parent_composer_id is None && !h.is_best_of_n
                    && h.workspace_folder is None && h.sub_composer_ids.len() == 0,
            }
        }),
{
    match row_doc(row) {
        Some(d) => {
            lemma_says(row_header(row, row_doc(row)), d);
        },
        None => {},
    }
}

/// An entry of the older document makes a header exactly where it is a head with an id and a
/// time of creation. The header goes by the entry's members; a session is a subagent where
/// its id or its parent says so, unless it is one of several tries.
pub proof fn lemma_entry_header(d: Doc)
    ensures
        entry_header(d) is Some <==> holds(d, "type"@, Doc::Str("head"@)) && text_of(
            member(d, "composerId"@),
        ) is Some && int_of(member(d, "createdAt"@)) is Some,
        entry_header(d) matches Some(h) ==> {
            &&& holds(d, "composerId"@, Doc::Str(h.composer_id))
            &&& h.created_at is Some
            &&& h.created_at == int_of(member(d, "createdAt"@))
            &&& h.last_updated_at == int_of(member(d, "lastUpdatedAt"@))
            &&& h.recency == (match h.last_updated_at {
                Some(t) => t,
                None => h.created_at->0,
            })
            &&& h.is_archived <==> holds(d, "isArchived"@, Doc::Bool(true))
            &&& h.is_subagent <==> !h.is_best_of_n && ("task-"@.is_prefix_of(h.composer_id)
                || h.parent_composer_id is Some)
            &&& forall|w: Doc, t: Seq<char>| #[trigger]
                holds(d, "workspaceIdentifier"@, w) ==> ((h.workspace_id == Some(t))
                    <==> #[trigger] holds(w, "id"@, Doc::Str(t)))
            &&& !h.in_header_table && h.in_legacy_blob
            &&& says(h, d)
        },
{
    lemma_member(d, "type"@, Doc::Str("head"@));
    lemma_member(d, "isArchived"@, Doc::Bool(true));
    match entry_header(d) {
        Some(h) => {
            lemma_says(h, d);
            lemma_member(d, "composerId"@, Doc::Str(h.composer_id));
            assert forall|w: Doc, t: Seq<char>| #[trigger]
                holds(d, "workspaceIdentifier"@, w) implies ((h.workspace_id == Some(t))
                <==> #[trigger] holds(w, "id"@, Doc::Str(t))) by {
                lemma_member(d, "workspaceIdentifier"@, w);
                lemma_member(w, "id"@, Doc::Str(t));
            }
        },
        None => {},
    }
}

/// A row of the table and an entry of the older document with the same value name the same
/// parent, the same folder, the same name and the same claims.
pub proof fn lemma_lists_read_alike(row: HeaderRow, d: Doc)
    requires
        row_doc(row) == Some(d),
        entry_header(d) is Some,
    ensures
        ({
            let a = row_header(row, row_doc(row));
            let b = entry_header(d)->0;
            &&& a.parent_composer_id == b.parent_composer_id
            &&& a.name == b.name
            &&& a.workspace_folder == b.workspace_folder
            &&& a.sub_composer_ids == b.sub_composer_ids
            &&& a.is_best_of_n == b.is_best_of_n
            &&& (a.created_at == b.created_at && a.last_updated_at == b.last_updated_at
                ==> a.recency == b.recency)
        }),
{
}

/// The last header of a list with this id.
pub open spec fn is_last_with(s: Seq<HeaderView>, id: Seq<char>, h: HeaderView) -> bool {
    exists|i: int|
        0 <= i < s.len() && #[trigger] s[i] == h && h.composer_id == id && forall|k: int|
            i < k < s.len() ==> (#[trigger] s[k]).composer_id != id
}

/// The first header of a list with this id.
pub open spec fn is_first_with(s: Seq<HeaderView>, id: Seq<char>, h: HeaderView) -> bool {
    exists|i: int|
        0 <= i < s.len() && #[trigger] s[i] == h && h.composer_id == id && forall|k: int|
            0 <= k < i ==> (#[trigger] s[k]).composer_id != id
}

proof fn lemma_put_all_keeps_last(table: Seq<HeaderView>)
    ensures
        forall|i: int|
            0 <= i < put_all(table).len() ==> is_last_with(
                table,
                (#[trigger] put_all(table)[i]).composer_id,
                put_all(table)[i],
            ),
    decreases table.len(),
{
    if table.len() > 0 {
        let rest = table.drop_last();
        let h = table.last();
        let list = put_all(rest);
        lemma_put_all_keeps_last(rest);
        lemma_put_all(rest);
        lemma_place_of(list, h.composer_id);
        assert(table[table.len() - 1] == h);
        assert forall|i: int| 0 <= i < put_all(table).len() implies is_last_with(
            table,
            (#[trigger] put_all(table)[i]).composer_id,
            put_all(table)[i],
        ) by {
            let x = put_all(table)[i];
            if x.composer_id != h.composer_id {
                assert(list[i] == x);
                let k = choose|k: int|
                    0 <= k < rest.len() && #[trigger] rest[k] == x && x.composer_id
                        == x.composer_id && forall|j: int|
                        k < j < rest.len() ==> (#[trigger] rest[j]).composer_id != x.composer_id;
                assert(table[k] == x);
                assert forall|j: int| k < j < table.len() implies (#[trigger] table[j]).composer_id
                    != x.composer_id by {
                    if j < rest.len() {
                        assert(rest[j].composer_id != x.composer_id);
                    }
                }
            } else {
                assert(x == h) by {
                    match place_of(list, h.composer_id) {
                        Some(k) => {
                            if i != k {
                                assert(list[i].composer_id == list[k].composer_id);
                            }
                        },
                        None => {
                            if i < list.len() {
                                assert(list[i].composer_id != h.composer_id);
                            }
                        },
                    }
                }
            }
        }
    }
}

/// In the union a session that the table lists has the table's header, the last where it has
/// several, marked where the older document lists it too; one that only the older document
/// lists has the first header there.
pub proof fn lemma_union_prefers_the_table(table: Seq<HeaderView>, legacy: Seq<HeaderView>)
    ensures
        forall|i: int|
            0 <= i < union(table, legacy).len() ==> {
                let h = #[trigger] union(table, legacy)[i];
                if lists_id(table, h.composer_id) {
                    exists|t: HeaderView| #[trigger]
                        is_last_with(table, h.composer_id, t) && h == (HeaderView {
                            in_legacy_blob: t.in_legacy_blob || lists_id(legacy, h.composer_id),
                            ..t
                        })
                } else {
                    exists|t: HeaderView| #[trigger]
                        is_first_with(legacy, h.composer_id, t) && h == (HeaderView {
                            in_legacy_blob: h.in_legacy_blob,
                            ..t
                        }) && (t.in_legacy_blob ==> h.in_legacy_blob)
                }
            },
    decreases legacy.len(),
{
    if legacy.len() == 0 {
        lemma_put_all_keeps_last(table);
        lemma_put_all(table);
        let u = put_all(table);
        assert forall|i: int| 0 <= i < u.len() implies {
            let h = #[trigger] u[i];
            lists_id(table, h.composer_id) && exists|t: HeaderView| #[trigger]
                is_last_with(table, h.composer_id, t) && h == (HeaderView {
                    in_legacy_blob: t.in_legacy_blob || lists_id(legacy, h.composer_id),
                    ..t
                })
        } by {
            let h = u[i];
            assert(lists_id(u, h.composer_id));
            assert(is_last_with(table, h.composer_id, h));
        }
    } else {
        let rest = legacy.drop_last();
        let l = legacy.last();
        let list = union(table, rest);
        let u = union(table, legacy);
        lemma_union_prefers_the_table(table, rest);
        lemma_union_is_complete(table, rest);
        lemma_place_of(list, l.composer_id);
        assert(legacy[legacy.len() - 1] == l);
        assert forall|i: int| 0 <= i < u.len() implies {
            let h = #[trigger] u[i];
            if lists_id(table, h.composer_id) {
                exists|t: HeaderView| #[trigger]
                    is_last_with(table, h.composer_id, t) && h == (HeaderView {
                        in_legacy_blob: t.in_legacy_blob || lists_id(legacy, h.composer_id),
                        ..t
                    })
            } else {
                exists|t: HeaderView| #[trigger]
                    is_first_with(legacy, h.composer_id, t) && h == (HeaderView {
                        in_legacy_blob: h.in_legacy_blob,
                        ..t
                    }) && (t.in_legacy_blob ==> h.in_legacy_blob)
            }
        } by {
            let h = u[i];
            lemma_lists_last(legacy, h.composer_id);
            if i < list.len() {
                let g = list[i];
                assert(g.composer_id == h.composer_id);
                if g.composer_id == l.composer_id {
                    match place_of(list, l.composer_id) {
                        Some(k) => {
                            if i != k {
                                assert(list[i].composer_id == list[k].composer_id);
                            }
                        },
                        None => {
                            assert(list[i].composer_id != l.composer_id);
                        },
                    }
                }
                if lists_id(table, h.composer_id) {
                    let t = choose|t: HeaderView| #[trigger]
                        is_last_with(table, g.composer_id, t) && g == (HeaderView {
                            in_legacy_blob: t.in_legacy_blob || lists_id(rest, g.composer_id),
                            ..t
                        });
                    assert(is_last_with(table, h.composer_id, t));
                } else {
                    let t = choose|t: HeaderView| #[trigger]
                        is_first_with(rest, g.composer_id, t) && g == (HeaderView {
                            in_legacy_blob: g.in_legacy_blob,
                            ..t
                        }) && (t.in_legacy_blob ==> g.in_legacy_blob);
                    assert(is_first_with(legacy, h.composer_id, t)) by {
                        let k = choose|k: int|
                            0 <= k < rest.len() && #[trigger] rest[k] == t && t.composer_id
                                == g.composer_id && forall|j: int|
                                0 <= j < k ==> (#[trigger] rest[j]).composer_id != g.composer_id;
                        assert(legacy[k] == t);
                        assert forall|j: int| 0 <= j < k implies (
                        #[trigger] legacy[j]).composer_id != h.composer_id by {
                            assert(rest[j].composer_id != g.composer_id);
                        }
                    }
                }
            } else {
                assert(h == l);
                assert(!lists_id(list, l.composer_id)) by {
                    if lists_id(list, l.composer_id) {
                        let k = choose|k: int|
                            0 <= k < list.len() && (#[trigger] list[k]).composer_id
                                == l.composer_id;
                        assert(list[k].composer_id != l.composer_id);
                    }
                }
                assert(is_first_with(legacy, l.composer_id, l)) by {
                    assert forall|j: int| 0 <= j < legacy.len() - 1 implies (
                    #[trigger] legacy[j]).composer_id != l.composer_id by {
                        if legacy[j].composer_id == l.composer_id {
                            assert(rest[j].composer_id == l.composer_id);
                            assert(lists_id(rest, l.composer_id));
                        }
                    }
                }
            }
        }
    }
}

/// The table makes a header of each of its rows, in their order.
pub proof fn lemma_table_headers(rows: Seq<HeaderRow>, i: int)
    requires
        0 <= i < rows.len(),
    ensures
        table_headers(rows).len() == rows.len(),
        table_headers(rows)[i].composer_id == rows[i].composer_id@,
        table_headers(rows)[i] == row_header(rows[i], row_doc(rows[i])),
{
}

/// The older document lists the sessions under `allComposers`: every element there that makes
/// a header does so, and nothing else does.
pub proof fn lemma_legacy_headers(d: Doc, h: HeaderView)
    ensures
        legacy_headers(d).contains(h) <==> exists|list: Seq<Doc>, i: int|
            #![trigger holds(d, "allComposers"@, Doc::Arr(list)), list[i]]
            holds(d, "allComposers"@, Doc::Arr(list)) && 0 <= i < list.len() && entry_header(list[i])
                == Some(h),
{
    match member(d, "allComposers"@) {
        Some(l) => {
            lemma_member(d, "allComposers"@, l);
            match l {
                Doc::Arr(list) => {
                    lemma_entry_headers(list, h);
                    if entry_headers(list).contains(h) {
                        let i = choose|i: int|
                            0 <= i < list.len() && entry_header(#[trigger] list[i]) == Some(h);
                        assert(holds(d, "allComposers"@, Doc::Arr(list)) && entry_header(list[i])
                            == Some(h));
                    }
                },
                _ => {},
            }
        },
        None => {},
    }
    if exists|list: Seq<Doc>, i: int|
        #![trigger holds(d, "allComposers"@, Doc::Arr(list)), list[i]]
        holds(d, "allComposers"@, Doc::Arr(list)) && 0 <= i < list.len() && entry_header(list[i])
            == Some(h) {
        let (list, i) = choose|list: Seq<Doc>, i: int|
            #![trigger holds(d, "allComposers"@, Doc::Arr(list)), list[i]]
            holds(d, "allComposers"@, Doc::Arr(list)) && 0 <= i < list.len() && entry_header(list[i])
                == Some(h);
        lemma_member(d, "allComposers"@, Doc::Arr(list));
        lemma_entry_headers(list, h);
    }
}

proof fn lemma_entry_headers(items: Seq<Doc>, h: HeaderView)
    ensures
        entry_headers(items).contains(h) <==> exists|i: int|
            0 <= i < items.len() && entry_header(#[trigger] items[i]) == Some(h),
    decreases items.len(),
{
    if items.len() > 0 {
        let rest = items.drop_last();
        lemma_entry_headers(rest, h);
        match entry_header(items.last()) {
            Some(g) => {
                crate::text::lemma_push_contains(entry_headers(rest), g);
            },
            None => {},
        }
        if entry_headers(rest).contains(h) {
            let i = choose|i: int|
                0 <= i < rest.len() && entry_header(#[trigger] rest[i]) == Some(h);
            assert(items[i] == rest[i]);
        }
        if entry_header(items.last()) == Some(h) {
            assert(items[items.len() - 1] == items.last());
        }
        if exists|i: int| 0 <= i < items.len() && entry_header(#[trigger] items[i]) == Some(h) {
            let i = choose|i: int|
                0 <= i < items.len() && entry_header(#[trigger] items[i]) == Some(h);
            if i < rest.len() {
                assert(items[i] == rest[i]);
            }
        }
    }
}

/// The sessions that are alive are those with a header, the dangling ones aside.
pub proof fn lemma_live_ids(s: Seq<SessionHeader>, x: Seq<char>)
    ensures
        live_ids(s).contains(x) <==> (exists|i: int|
            0 <= i < s.len() && (#[trigger] s[i]).composer_id@ == x) && !dangling(s, x),
{
    if exists|i: int| 0 <= i < s.len() && (#[trigger] s[i]).composer_id@ == x {
        let i = choose|i: int| 0 <= i < s.len() && (#[trigger] s[i]).composer_id@ == x;
        assert(s[i].composer_id@ == x);
    }
    if exists_id(s, x) {
        let i = choose|i: int| 0 <= i < s.len() && #[trigger] s[i].composer_id@ == x;
        assert(s[i].composer_id@ == x);
    }
}

/// What is known of a session is what its header holds, part by part.
pub proof fn lemma_header_view(h: SessionHeader)
    ensures
        h@.composer_id == h.composer_id@,
        h@.name == opt_text(h.name),
        h@.created_at == h.created_at,
        h@.last_updated_at == h.last_updated_at,
        h@.recency == h.recency,
        h@.is_archived == h.is_archived,
        h@.is_subagent == h.is_subagent,
        h@.is_best_of_n == h.is_best_of_n,
        h@.workspace_id == opt_text(h.workspace_id),
        h@.workspace_folder == opt_text(h.workspace_folder),
        h@.parent_composer_id == opt_text(h.parent_composer_id),
        h@.sub_composer_ids == views(h.sub_composer_ids@),
        h@.in_header_table == h.in_header_table,
        h@.in_legacy_blob == h.in_legacy_blob,
        opt_text(h.name) is Some <==> h.name is Some,
        h.name is Some ==> opt_text(h.name) == Some(h.name->0@),
{
}

/// The times of an entry are the integers under their names; a number that does not fit is
/// none.
pub proof fn lemma_entry_times(d: Doc, t: i64, n: serde_json::Number)
    requires
        entry_header(d) is Some,
    ensures
        holds(d, "createdAt"@, Doc::Num(Some(t), n)) ==> entry_header(d)->0.created_at == Some(t),
        holds(d, "lastUpdatedAt"@, Doc::Num(Some(t), n)) ==> entry_header(d)->0.last_updated_at
            == Some(t) && entry_header(d)->0.recency == t,
        holds(d, "createdAt"@, Doc::Num(Some(t), n)) && member(d, "lastUpdatedAt"@) is None
            ==> entry_header(d)->0.recency == t,
{
    lemma_member(d, "createdAt"@, Doc::Num(Some(t), n));
    lemma_member(d, "lastUpdatedAt"@, Doc::Num(Some(t), n));
}

} // verus!
