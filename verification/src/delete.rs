//! Deleting sessions.
//!
//! A session lives in four places: its rows, the table of headers, the older document
//! of headers, and the documents of the workspaces. All four must go together, or it
//! comes back.

use rustc_hash::FxHashSet;
use vstd::prelude::*;

use crate::error::Error;
use crate::json::{
    doc, docs, json_parsed, json_value, json_written, lemma_docs, lemma_members, member, members,
    parse, render, text_of, Doc, Json,
};
use crate::order::reversed;
use crate::rows::{collected, keys_of, kinds_of, Collector};
use crate::scan::{weigh, PrefixTable, Sel};
use crate::steps::{backs_up_first, make_run, reaches_all_places, run, Step};
use crate::fx::{fx_names, names_add, names_has, names_new, IdMap};
use crate::headers::{
    entry_header, is_id_fault, legacy_headers, lemma_legacy_headers, opt_text, HeaderView,
    SessionHeader,
};
use crate::lineage::{header_of, is_descendant, lemma_header_of, exists_id, Lineage};
use crate::text::{
    from_utf8_lossy, lemma_push_contains, lex_sorted, same, starts_with, trim, trimmed, utf8_lossy,
    views,
};
use crate::types::{id_views, is_composer_id, lemma_to_set_push, ComposerId, IdError};

verus! {

broadcast use vstd::string::group_string_axioms;

/// A session to act on.
#[derive(Debug)]
pub struct Target {
    pub composer_id: ComposerId,
    pub name: Option<String>,
    pub in_header_table: bool,
    pub in_legacy_blob: bool,
    /// It was not named, but goes with a session that was.
    pub cascaded: bool,
}

/// What a target says.
pub struct TargetView {
    pub composer_id: Seq<char>,
    pub name: Option<Seq<char>>,
    pub in_header_table: bool,
    pub in_legacy_blob: bool,
    pub cascaded: bool,
}

impl View for Target {
    type V = TargetView;

    open spec fn view(&self) -> TargetView {
        TargetView {
            composer_id: self.composer_id@,
            name: opt_text(self.name),
            in_header_table: self.in_header_table,
            in_legacy_blob: self.in_legacy_blob,
            cascaded: self.cascaded,
        }
    }
}

/// What targets say.
pub open spec fn target_views(s: Seq<Target>) -> Seq<TargetView> {
    s.map_values(|t: Target| t@)
}

/// The ids of targets.
pub open spec fn target_ids(s: Seq<TargetView>) -> Seq<Seq<char>> {
    s.map_values(|t: TargetView| t.composer_id)
}

/// The target that a session makes.
pub open spec fn target_of(h: SessionHeader, cascaded: bool) -> TargetView {
    TargetView {
        composer_id: h.composer_id@,
        name: opt_text(h.name),
        in_header_table: h.in_header_table,
        in_legacy_blob: h.in_legacy_blob,
        cascaded,
    }
}

/// How short an argument may be, in bytes.
pub const MIN_ARG: usize = 6;

/// The places of the sessions whose id begins with `t`.
pub open spec fn matching(s: Seq<SessionHeader>, t: Seq<char>) -> Seq<int>
    decreases s.len(),
{
    if s.len() == 0 {
        Seq::empty()
    } else if t.is_prefix_of(s.last().composer_id@) {
        matching(s.drop_last(), t).push(s.len() - 1)
    } else {
        matching(s.drop_last(), t)
    }
}

/// The ids at these places.
pub open spec fn ids_at(s: Seq<SessionHeader>, places: Seq<int>) -> Seq<Seq<char>> {
    places.map_values(|i: int| s[i].composer_id@)
}

/// The place of the first session with this id, or -1.
pub open spec fn whole_place(s: Seq<SessionHeader>, t: Seq<char>) -> int
    decreases s.len(),
{
    if s.len() == 0 {
        -1
    } else {
        let before = whole_place(s.drop_last(), t);
        if before >= 0 {
            before
        } else if s.last().composer_id@ == t {
            s.len() - 1
        } else {
            -1
        }
    }
}

/// The argument names one session: by its whole id, or by a beginning that is long enough
/// and that no other shares.
pub open spec fn names_one(s: Seq<SessionHeader>, arg: Seq<char>) -> bool {
    let t = trimmed(arg);
    whole_place(s, t) >= 0 || (vstd::utf8::encode_utf8(t).len() >= MIN_ARG && matching(s, t).len()
        == 1)
}

/// The session that the argument names.
pub open spec fn named_place(s: Seq<SessionHeader>, arg: Seq<char>) -> int {
    let t = trimmed(arg);
    if whole_place(s, t) >= 0 {
        whole_place(s, t)
    } else {
        matching(s, t)[0]
    }
}

/// The targets that the arguments name, in their order and each once; `None` where one of
/// them names no session or several, or names one whose id is none.
pub open spec fn resolved(s: Seq<SessionHeader>, args: Seq<Seq<char>>) -> Option<Seq<TargetView>>
    decreases args.len(),
{
    if args.len() == 0 {
        Some(Seq::empty())
    } else {
        match resolved(s, args.drop_last()) {
            None => None,
            Some(ts) => if names_one(s, args.last()) {
                let h = s[named_place(s, args.last())];
                if target_ids(ts).contains(h.composer_id@) {
                    Some(ts)
                } else if is_composer_id(h.composer_id@) {
                    Some(ts.push(target_of(h, false)))
                } else {
                    None
                }
            } else {
                None
            },
        }
    }
}

/// What is wrong with an argument.
pub open spec fn is_arg_error(s: Seq<SessionHeader>, arg: Seq<char>, e: Error) -> bool {
    let t = trimmed(arg);
    if whole_place(s, t) >= 0 {
        e matches Error::Id(i) && is_id_fault(t, i)
    } else if vstd::utf8::encode_utf8(t).len() < MIN_ARG {
        e matches Error::Id(IdError::TooShort { raw, min }) && raw@ == t && min == MIN_ARG
    } else if matching(s, t).len() == 0 {
        e matches Error::TargetNotFound { arg: shown } && shown@ == t
    } else if matching(s, t).len() == 1 {
        e matches Error::Id(i) && is_id_fault(s[named_place(s, arg)].composer_id@, i)
    } else {
        e matches Error::AmbiguousPrefix { arg: shown, candidates } && shown@ == t && views(
            candidates@,
        ) == ids_at(s, matching(s, t))
    }
}

/// The error is that of the first argument that names no target.
pub open spec fn is_resolve_error(
    s: Seq<SessionHeader>,
    args: Seq<Seq<char>>,
    e: Error,
) -> bool {
    exists|k: int|
        {
            &&& 0 <= k < args.len()
            &&& #[trigger] resolved(s, args.take(k)) is Some
            &&& resolved(s, args.take(k + 1)) is None
            &&& is_arg_error(s, args[k], e)
        }
}

proof fn lemma_whole_place(s: Seq<SessionHeader>, t: Seq<char>)
    ensures
        -1 <= whole_place(s, t) < s.len(),
        whole_place(s, t) >= 0 ==> s[whole_place(s, t)].composer_id@ == t,
    decreases s.len(),
{
    if s.len() > 0 {
        lemma_whole_place(s.drop_last(), t);
    }
}

proof fn lemma_whole_place_found(s: Seq<SessionHeader>, t: Seq<char>, k: int)
    requires
        0 <= k < s.len(),
        s[k].composer_id@ == t,
        forall|j: int| 0 <= j < k ==> (#[trigger] s[j]).composer_id@ != t,
    ensures
        whole_place(s, t) == k,
    decreases s.len(),
{
    let d = s.drop_last();
    lemma_whole_place(d, t);
    if k < d.len() {
        lemma_whole_place_found(d, t, k);
    } else if whole_place(d, t) >= 0 {
        assert(s[whole_place(d, t)].composer_id@ != t);
    }
}

/// The place of the first session with this id.
fn find_whole(sessions: &[SessionHeader], t: &str) -> (r: Option<usize>)
    ensures
        match r {
            Some(i) => i == whole_place(sessions@, t@) && i < sessions@.len()
                && sessions@[i as int].composer_id@ == t@,
            None => whole_place(sessions@, t@) == -1,
        },
{
    let mut i: usize = 0;
    while i < sessions.len()
        invariant
            i <= sessions@.len(),
            forall|j: int| 0 <= j < i ==> (#[trigger] sessions@[j]).composer_id@ != t@,
        decreases sessions@.len() - i,
    {
        if same(sessions[i].composer_id.as_str(), t) {
            proof {
                lemma_whole_place_found(sessions@, t@, i as int);
            }
            return Some(i);
        }
        i += 1;
    }
    proof {
        lemma_whole_place(sessions@, t@);
    }
    None
}

/// The sessions whose id begins with `t`.
fn find_matching(sessions: &[SessionHeader], t: &str) -> (r: Vec<usize>)
    ensures
        r@.map_values(|i: usize| i as int) == matching(sessions@, t@),
        forall|k: int| 0 <= k < r@.len() ==> #[trigger] r@[k] < sessions@.len(),
{
    let ghost s = sessions@;
    let mut out: Vec<usize> = Vec::new();
    let mut i: usize = 0;
    assert(s.take(0) =~= Seq::<SessionHeader>::empty());
    assert(out@.map_values(|i: usize| i as int) =~= matching(s.take(0), t@));
    while i < sessions.len()
        invariant
            i <= sessions@.len(),
            s == sessions@,
            out@.map_values(|i: usize| i as int) == matching(s.take(i as int), t@),
            forall|k: int| 0 <= k < out@.len() ==> #[trigger] out@[k] < sessions@.len(),
        decreases sessions@.len() - i,
    {
        proof {
            assert(s.take(i + 1).drop_last() =~= s.take(i as int));
            assert(s.take(i + 1).last() == s[i as int]);
        }
        let ghost before = out@.map_values(|i: usize| i as int);
        if starts_with(sessions[i].composer_id.as_str(), t) {
            out.push(i);
            assert(out@.map_values(|i: usize| i as int) =~= before.push(i as int));
        }
        i += 1;
    }
    assert(s.take(i as int) =~= s);
    out
}

fn copy_text(o: &Option<String>) -> (r: Option<String>)
    ensures
        opt_text(r) == opt_text(*o),
{
    match o {
        Some(s) => Some(s.clone()),
        None => None,
    }
}

fn make_target(h: &SessionHeader, id: ComposerId, cascaded: bool) -> (r: Target)
    requires
        id@ == h.composer_id@,
    ensures
        r@ == target_of(*h, cascaded),
{
    Target {
        composer_id: id,
        name: copy_text(&h.name),
        in_header_table: h.in_header_table,
        in_legacy_blob: h.in_legacy_blob,
        cascaded,
    }
}

/// The session that a trimmed argument names.
fn find_target(sessions: &[SessionHeader], arg: &str) -> (r: Result<usize, Error>)
    ensures
        match r {
            Ok(i) => i < sessions@.len() && if whole_place(sessions@, arg@) >= 0 {
                i == whole_place(sessions@, arg@)
            } else {
                &&& vstd::utf8::encode_utf8(arg@).len() >= MIN_ARG
                &&& matching(sessions@, arg@).len() == 1
                &&& i == matching(sessions@, arg@)[0]
            },
            Err(e) => whole_place(sessions@, arg@) < 0 && if vstd::utf8::encode_utf8(arg@).len()
                < MIN_ARG {
                e matches Error::Id(IdError::TooShort { raw, min }) && raw@ == arg@ && min == MIN_ARG
            } else if matching(sessions@, arg@).len() == 0 {
                e matches Error::TargetNotFound { arg: shown } && shown@ == arg@
            } else {
                &&& matching(sessions@, arg@).len() > 1
                &&& e matches Error::AmbiguousPrefix { arg: shown, candidates } && shown@ == arg@
                    && views(candidates@) == ids_at(sessions@, matching(sessions@, arg@))
            },
        },
{
    let ghost s = sessions@;
    if let Some(i) = find_whole(sessions, arg) {
        return Ok(i);
    }
    if arg.as_bytes().len() < MIN_ARG {
        return Err(Error::Id(IdError::TooShort { raw: arg.to_owned(), min: MIN_ARG }));
    }
    let found = find_matching(sessions, arg);
    let ghost places = matching(s, arg@);
    if found.len() == 0 {
        return Err(Error::TargetNotFound { arg: arg.to_owned() });
    }
    if found.len() > 1 {
        let mut candidates: Vec<String> = Vec::new();
        let mut k: usize = 0;
        while k < found.len()
            invariant
                k <= found@.len(),
                s == sessions@,
                places == found@.map_values(|i: usize| i as int),
                forall|k: int| 0 <= k < found@.len() ==> #[trigger] found@[k] < s.len(),
                views(candidates@) =~= ids_at(s, places).take(k as int),
            decreases found@.len() - k,
        {
            let ghost before = views(candidates@);
            candidates.push(sessions[found[k]].composer_id.clone());
            proof {
                assert(views(candidates@) =~= before.push(s[found@[k as int] as int].composer_id@));
                assert(ids_at(s, places).take(k + 1) =~= ids_at(s, places).take(k as int).push(
                    ids_at(s, places)[k as int],
                ));
            }
            k += 1;
        }
        assert(ids_at(s, places).take(k as int) =~= ids_at(s, places));
        return Err(Error::AmbiguousPrefix { arg: arg.to_owned(), candidates });
    }
    assert(found@[0] as int == places[0]);
    Ok(found[0])
}

/// Finds the sessions that the arguments name: each by its whole id, or by a beginning of
/// at least six bytes that no other session shares.
pub fn resolve_targets(sessions: &[SessionHeader], args: &[String]) -> (r: Result<
    Vec<Target>,
    Error,
>)
    ensures
        match r {
            Ok(ts) => resolved(sessions@, views(args@)) == Some(target_views(ts@)),
            Err(e) => is_resolve_error(sessions@, views(args@), e),
        },
{
    let ghost s = sessions@;
    let ghost vs = views(args@);
    let mut out: Vec<Target> = Vec::new();
    let mut seen: FxHashSet<String> = names_new();
    let mut i: usize = 0;
    proof {
        assert(vs.take(0) =~= Seq::<Seq<char>>::empty());
        assert(target_views(out@) =~= Seq::<TargetView>::empty());
        assert(target_ids(target_views(out@)).to_set() =~= Set::<Seq<char>>::empty());
    }
    while i < args.len()
        invariant
            i <= args@.len(),
            s == sessions@,
            vs == views(args@),
            resolved(s, vs.take(i as int)) == Some(target_views(out@)),
            fx_names(seen) =~= target_ids(target_views(out@)).to_set(),
        decreases args@.len() - i,
    {
        let arg = trim(args[i].as_str());
        let ghost ts = target_views(out@);
        proof {
            assert(vs.take(i + 1).drop_last() =~= vs.take(i as int));
            assert(vs.take(i + 1).last() == args@[i as int]@);
            assert(vs[i as int] == args@[i as int]@);
        }
        let place: usize = match find_target(sessions, arg) {
            Ok(place) => place,
            Err(e) => {
                proof {
                    assert(is_arg_error(s, vs[i as int], e));
                    assert(!names_one(s, vs[i as int]));
                    assert(resolved(s, vs.take(i as int)) is Some);
                    assert(resolved(s, vs.take(i + 1)) is None);
                }
                return Err(e);
            },
        };
        let h = &sessions[place];
        proof {
            assert(names_one(s, vs[i as int]));
            assert(place == named_place(s, vs[i as int]));
            lemma_whole_place(s, arg@);
        }
        proof {
            assert(target_ids(ts).to_set().contains(h.composer_id@) <==> target_ids(ts).contains(
                h.composer_id@,
            ));
        }
        if names_add(&mut seen, h.composer_id.clone()) {
            match ComposerId::parse(h.composer_id.as_str()) {
                Ok(id) => {
                    let t = make_target(h, id, false);
                    out.push(t);
                    proof {
                        assert(target_views(out@) =~= ts.push(t@));
                        assert(target_ids(ts.push(t@)) =~= target_ids(ts).push(t@.composer_id));
                        lemma_to_set_push(target_ids(ts), t@.composer_id);
                    }
                },
                Err(e) => {
                    proof {
                        assert(is_arg_error(s, vs[i as int], Error::Id(e)));
                        assert(resolved(s, vs.take(i as int)) is Some);
                        assert(resolved(s, vs.take(i + 1)) is None);
                    }
                    return Err(Error::Id(e));
                },
            }
        } else {
            proof {
                assert(fx_names(seen) =~= target_ids(ts).to_set());
            }
        }
        i += 1;
    }
    assert(vs.take(i as int) =~= vs);
    Ok(out)
}

/// The targets that were named.
pub open spec fn named(ts: Seq<TargetView>) -> Seq<TargetView>
    decreases ts.len(),
{
    if ts.len() == 0 {
        Seq::empty()
    } else if ts.last().cascaded {
        named(ts.drop_last())
    } else {
        named(ts.drop_last()).push(ts.last())
    }
}

/// The id is that of a named target, or of a session below one.
pub open spec fn goes_along(s: Seq<SessionHeader>, ts: Seq<TargetView>, x: Seq<char>) -> bool {
    exists|i: int|
        0 <= i < ts.len() && (x == (#[trigger] ts[i]).composer_id || is_descendant(
            s,
            x,
            ts[i].composer_id,
        ))
}

/// The target at `j` stands behind the named one that it is below, with only others like it
/// between the two.
pub open spec fn led_by_named(s: Seq<SessionHeader>, ts: Seq<TargetView>, j: int) -> bool {
    exists|i: int|
        {
            &&& 0 <= i < j
            &&& !(#[trigger] ts[i]).cascaded
            &&& is_descendant(s, ts[j].composer_id, ts[i].composer_id)
            &&& forall|m: int| i < m < j ==> (#[trigger] ts[m]).cascaded
        }
}

/// `all` are the named targets with every session below one of them, each once.
pub open spec fn is_cascade(
    s: Seq<SessionHeader>,
    first: Seq<TargetView>,
    all: Seq<TargetView>,
) -> bool {
    &&& named(all) == first
    &&& target_ids(all).no_duplicates()
    &&& forall|x: Seq<char>| #[trigger] target_ids(all).contains(x) <==> goes_along(s, first, x)
    &&& forall|j: int|
        0 <= j < all.len() && (#[trigger] all[j]).cascaded ==> all[j] == target_of(
            s[header_of(s, all[j].composer_id)],
            true,
        ) && led_by_named(s, all, j)
}

/// In the list after the first `k` named targets.
spec fn listed(s: Seq<SessionHeader>, first: Seq<TargetView>, k: int, x: Seq<char>) -> bool {
    exists|i: int|
        0 <= i < k && (x == (#[trigger] first[i]).composer_id || (!target_ids(first).contains(x)
            && is_descendant(s, x, first[i].composer_id)))
}

/// Adds the sessions below the `k`-th named target to the list, those left out that are
/// named themselves or already there.
fn add_below(
    sessions: &[SessionHeader],
    by_id: &IdMap<usize>,
    own: &FxHashSet<String>,
    kids: &Vec<String>,
    out: &mut Vec<Target>,
    seen: &mut FxHashSet<String>,
    fs: Ghost<Seq<TargetView>>,
    k: Ghost<int>,
    pos: Ghost<int>,
) -> (r: Result<(), IdError>)
    requires
        by_id.wf(),
        forall|x: Seq<char>| #[trigger] by_id@.contains_key(x) <==> exists_id(sessions@, x),
        forall|x: Seq<char>| #[trigger]
            by_id@.contains_key(x) ==> by_id@[x] == header_of(sessions@, x),
        fx_names(*own) =~= target_ids(fs@).to_set(),
        0 <= k@ < fs@.len(),
        !fs@[k@].cascaded,
        forall|x: Seq<char>| #[trigger]
            views(kids@).contains(x) <==> is_descendant(sessions@, x, fs@[k@].composer_id),
        cascading(
            sessions@,
            fs@,
            k@,
            target_views(old(out)@),
            fx_names(*old(seen)),
            pos@,
            Seq::empty(),
        ),
    ensures
        match r {
            Ok(()) => cascading(
                sessions@,
                fs@,
                k@,
                target_views(final(out)@),
                fx_names(*final(seen)),
                pos@,
                views(kids@),
            ),
            Err(f) => exists|x: Seq<char>| #[trigger] views(kids@).contains(x) && is_id_fault(x, f),
        },
{
    let ghost s = sessions@;
    let ghost fids = target_ids(fs@);
    let ghost ks = views(kids@);
    assert(ks.take(0) =~= Seq::<Seq<char>>::empty());
    let mut j: usize = 0;
    while j < kids.len()
        invariant
            s == sessions@,
            by_id.wf(),
            forall|x: Seq<char>| #[trigger] by_id@.contains_key(x) <==> exists_id(s, x),
            forall|x: Seq<char>| #[trigger] by_id@.contains_key(x) ==> by_id@[x] == header_of(s, x),
            fids == target_ids(fs@),
            fx_names(*own) =~= fids.to_set(),
            0 <= k@ < fs@.len(),
            !fs@[k@].cascaded,
            ks == views(kids@),
            forall|x: Seq<char>| #[trigger]
                ks.contains(x) <==> is_descendant(s, x, fs@[k@].composer_id),
            j <= ks.len(),
            cascading(s, fs@, k@, target_views(out@), fx_names(*seen), pos@, ks.take(j as int)),
        decreases ks.len() - j,
    {
        let kid = &kids[j];
        let ghost a = target_views(out@);
        let ghost sa = fx_names(*seen);
        proof {
            assert(ks[j as int] == kid@);
            assert(ks.contains(kid@));
            crate::lineage::lemma_descendant_exists(s, kid@, fs@[k@].composer_id);
            lemma_header_of(s, kid@);
            assert(by_id@.contains_key(kid@));
            assert(ks.take(j + 1) =~= ks.take(j as int).push(kid@));
            assert(fids.to_set().contains(kid@) <==> fids.contains(kid@));
        }
        if !names_has(own, kid.as_str()) && names_add(seen, kid.clone()) {
            let cid = match ComposerId::parse(kid.as_str()) {
                Ok(cid) => cid,
                Err(f) => {
                    assert(is_id_fault(kid@, f));
                    return Err(f);
                },
            };
            match by_id.get(kid.as_str()) {
                Some(at) => {
                    let t = make_target(&sessions[*at], cid, true);
                    out.push(t);
                    proof {
                        assert(target_views(out@) =~= a.push(t@));
                        lemma_cascade_push(s, fs@, k@, a, sa, pos@, ks.take(j as int), kid@);
                    }
                },
                None => {},
            }
        } else {
            proof {
                assert(fx_names(*seen) =~= sa);
                lemma_cascade_skip(s, fs@, k@, a, sa, pos@, ks.take(j as int), kid@);
            }
        }
        j += 1;
    }
    assert(ks.take(j as int) =~= ks);
    Ok(())
}

/// Finds the sessions that the arguments name, and with each all sessions below it.
pub fn resolve_targets_cascading(sessions: &[SessionHeader], args: &[String]) -> (r: Result<
    Vec<Target>,
    Error,
>)
    ensures
        match resolved(sessions@, views(args@)) {
            None => r matches Err(e) && is_resolve_error(sessions@, views(args@), e),
            Some(first) => match r {
                Ok(ts) => is_cascade(sessions@, first, target_views(ts@)),
                Err(e) => exists|x: Seq<char>|
                    {
                        &&& #[trigger] goes_along(sessions@, first, x)
                        &&& !is_composer_id(x)
                        &&& e matches Error::Id(f) && is_id_fault(x, f)
                    },
            },
        },
        (resolved(sessions@, views(args@)) matches Some(first) && forall|x: Seq<char>| #[trigger]
            goes_along(sessions@, first, x) ==> is_composer_id(x)) ==> r is Ok,
{
    let ghost s = sessions@;
    let first = match resolve_targets(sessions, args) {
        Ok(ts) => ts,
        Err(e) => {
            proof {
                lemma_resolve_error(s, views(args@), e);
            }
            return Err(e);
        },
    };
    let ghost fs = target_views(first@);
    let ghost fids = target_ids(fs);
    proof {
        lemma_resolved_distinct(s, views(args@));
    }
    let by_id = crate::lineage::collect_by_id(sessions);
    let lineage = Lineage::build(sessions);
    let mut own: FxHashSet<String> = names_new();
    let mut i: usize = 0;
    assert(fids.take(0).to_set() =~= Set::<Seq<char>>::empty());
    while i < first.len()
        invariant
            i <= first@.len(),
            fs == target_views(first@),
            fids == target_ids(fs),
            fx_names(own) =~= fids.take(i as int).to_set(),
        decreases first@.len() - i,
    {
        let id = first[i].composer_id.as_str().to_owned();
        proof {
            assert(fids.take(i + 1) =~= fids.take(i as int).push(fids[i as int]));
            assert(id@ == fids[i as int]);
            lemma_to_set_push(fids.take(i as int), id@);
        }
        names_add(&mut own, id);
        i += 1;
    }
    assert(fids.take(i as int) =~= fids);
    let mut out: Vec<Target> = Vec::new();
    let mut seen: FxHashSet<String> = names_new();
    let mut rest = reversed(first);
    let ghost mut k: int = 0;
    proof {
        assert(target_views(out@) =~= Seq::<TargetView>::empty());
        assert(fs.take(0) =~= Seq::<TargetView>::empty());
        assert(target_ids(target_views(out@)) =~= Seq::<Seq<char>>::empty());
        assert(target_ids(target_views(out@)).to_set() =~= Set::<Seq<char>>::empty());
    }
    while rest.len() > 0
        invariant
            s == sessions@,
            lineage.sessions() == s,
            by_id.wf(),
            forall|x: Seq<char>| #[trigger] by_id@.contains_key(x) <==> exists_id(s, x),
            forall|x: Seq<char>| #[trigger] by_id@.contains_key(x) ==> by_id@[x] == header_of(s, x),
            fs == target_views(first@),
            fids == target_ids(fs),
            fids.no_duplicates(),
            forall|j: int| 0 <= j < fs.len() ==> !(#[trigger] fs[j]).cascaded,
            fx_names(own) =~= fids.to_set(),
            resolved(s, views(args@)) == Some(fs),
            0 <= k <= fs.len(),
            rest@.len() == fs.len() - k,
            rest@ == first@.skip(k).reverse(),
            cascade_so_far(s, fs, k, target_views(out@), fx_names(seen)),
        decreases rest@.len(),
    {
        let ghost old_rest = rest@;
        match rest.pop() {
            Some(t) => {
                let id = t.composer_id.as_str().to_owned();
                let ghost before = target_views(out@);
                let ghost seen0 = fx_names(seen);
                proof {
                    assert(t == first@[k]);
                    assert(fs[k] == t@);
                    assert(fids[k] == id@);
                    assert(rest@ =~= first@.skip(k + 1).reverse());
                }
                names_add(&mut seen, id.clone());
                out.push(t);
                let kids = lineage.descendants_of(id.as_str());
                let ghost ks = views(kids@);
                let ghost pos = before.len() as int;
                proof {
                    assert(target_views(out@) =~= before.push(fs[k]));
                    lemma_cascade_named(s, fs, k, before, seen0);
                    assert(ks.take(0) =~= Seq::<Seq<char>>::empty());
                }
                match add_below(
                    sessions,
                    &by_id,
                    &own,
                    &kids,
                    &mut out,
                    &mut seen,
                    Ghost(fs),
                    Ghost(k),
                    Ghost(pos),
                ) {
                    Ok(()) => {},
                    Err(f) => {
                        proof {
                            let x = choose|x: Seq<char>| #[trigger] ks.contains(x) && is_id_fault(x, f);
                            assert(is_descendant(s, x, fs[k].composer_id));
                            assert(goes_along(s, fs, x));
                            let ff = resolved(sessions@, views(args@));
                            assert(ff == Some(fs));
                            assert(!is_composer_id(x));
                            assert(is_id_fault(x, f));
                            assert(goes_along(sessions@, ff->0, x));
                        }
                        return Err(Error::Id(f));
                    },
                }
                proof {
                    lemma_cascade_step(s, fs, k, target_views(out@), fx_names(seen), pos, ks);
                    k = k + 1;
                }
            },
            None => {},
        }
    }
    proof {
        let all = target_views(out@);
        assert(fs.take(k) =~= fs);
        assert forall|x: Seq<char>| #[trigger] target_ids(all).contains(x) <==> goes_along(
            s,
            fs,
            x,
        ) by {
            assert(target_ids(all).to_set().contains(x) <==> listed(s, fs, k, x));
            if goes_along(s, fs, x) && !listed(s, fs, k, x) {
                let i = choose|i: int|
                    0 <= i < fs.len() && (x == (#[trigger] fs[i]).composer_id || is_descendant(
                        s,
                        x,
                        fs[i].composer_id,
                    ));
                assert(fids.contains(x));
                let m = choose|m: int| 0 <= m < fids.len() && fids[m] == x;
                assert(fs[m].composer_id == x);
            }
            if listed(s, fs, k, x) {
                let i = choose|i: int|
                    0 <= i < k && (x == (#[trigger] fs[i]).composer_id || (!target_ids(fs).contains(
                        x,
                    ) && is_descendant(s, x, fs[i].composer_id)));
                assert(fs[i].composer_id == fs[i].composer_id);
            }
        }
    }
    Ok(out)
}

/// The list after the first `k` named targets.
spec fn cascade_so_far(
    s: Seq<SessionHeader>,
    fs: Seq<TargetView>,
    k: int,
    out: Seq<TargetView>,
    seen: Set<Seq<char>>,
) -> bool {
    &&& named(out) == fs.take(k)
    &&& target_ids(out).no_duplicates()
    &&& seen =~= target_ids(out).to_set()
    &&& forall|x: Seq<char>| #[trigger] seen.contains(x) <==> listed(s, fs, k, x)
    &&& forall|j: int|
        0 <= j < out.len() && (#[trigger] out[j]).cascaded ==> out[j] == target_of(
            s[header_of(s, out[j].composer_id)],
            true,
        ) && led_by_named(s, out, j)
}

/// The list after the `k`-th named target, which stands at `pos`, and `done` of the
/// sessions below it.
spec fn cascading(
    s: Seq<SessionHeader>,
    fs: Seq<TargetView>,
    k: int,
    out: Seq<TargetView>,
    seen: Set<Seq<char>>,
    pos: int,
    done: Seq<Seq<char>>,
) -> bool {
    &&& named(out) == fs.take(k + 1)
    &&& target_ids(out).no_duplicates()
    &&& seen =~= target_ids(out).to_set()
    &&& forall|x: Seq<char>| #[trigger]
        seen.contains(x) <==> listed(s, fs, k, x) || x == fs[k].composer_id || (!target_ids(
            fs,
        ).contains(x) && done.contains(x))
    &&& forall|j: int|
        0 <= j < out.len() && (#[trigger] out[j]).cascaded ==> out[j] == target_of(
            s[header_of(s, out[j].composer_id)],
            true,
        ) && led_by_named(s, out, j)
    &&& 0 <= pos < out.len()
    &&& out[pos] == fs[k]
    &&& forall|m: int| pos < m < out.len() ==> (#[trigger] out[m]).cascaded
}

proof fn lemma_push_ids(out: Seq<TargetView>, t: TargetView, seen: Set<Seq<char>>)
    requires
        target_ids(out).no_duplicates(),
        seen =~= target_ids(out).to_set(),
        !seen.contains(t.composer_id),
    ensures
        target_ids(out.push(t)).no_duplicates(),
        seen.insert(t.composer_id) =~= target_ids(out.push(t)).to_set(),
{
    let ids = target_ids(out);
    assert(target_ids(out.push(t)) =~= ids.push(t.composer_id));
    lemma_to_set_push(ids, t.composer_id);
    assert(!ids.contains(t.composer_id)) by {
        assert(!ids.to_set().contains(t.composer_id));
    }
}

/// What stood behind a named target stands there after one more came to the end.
proof fn lemma_led_push(s: Seq<SessionHeader>, out: Seq<TargetView>, t: TargetView, j: int)
    requires
        0 <= j < out.len(),
        led_by_named(s, out, j),
    ensures
        led_by_named(s, out.push(t), j),
{
    let i = choose|i: int|
        {
            &&& 0 <= i < j
            &&& !(#[trigger] out[i]).cascaded
            &&& is_descendant(s, out[j].composer_id, out[i].composer_id)
            &&& forall|m: int| i < m < j ==> (#[trigger] out[m]).cascaded
        };
    let r = out.push(t);
    assert(r[i] == out[i] && r[j] == out[j]);
    assert forall|m: int| i < m < j implies (#[trigger] r[m]).cascaded by {
        assert(out[m].cascaded);
    }
}

proof fn lemma_cascade_named(
    s: Seq<SessionHeader>,
    fs: Seq<TargetView>,
    k: int,
    out: Seq<TargetView>,
    seen: Set<Seq<char>>,
)
    requires
        0 <= k < fs.len(),
        cascade_so_far(s, fs, k, out, seen),
        target_ids(fs).no_duplicates(),
        !fs[k].cascaded,
    ensures
        cascading(
            s,
            fs,
            k,
            out.push(fs[k]),
            seen.insert(fs[k].composer_id),
            out.len() as int,
            Seq::empty(),
        ),
{
    let t = fs[k];
    let r = out.push(t);
    let fids = target_ids(fs);
    assert(!seen.contains(t.composer_id)) by {
        if listed(s, fs, k, t.composer_id) {
            let i = choose|i: int|
                0 <= i < k && (t.composer_id == (#[trigger] fs[i]).composer_id || (!fids.contains(
                    t.composer_id,
                ) && is_descendant(s, t.composer_id, fs[i].composer_id)));
            assert(fids[k] == t.composer_id);
            assert(fids[i] == fs[i].composer_id);
        }
    }
    lemma_push_ids(out, t, seen);
    assert(r.drop_last() =~= out);
    assert(fs.take(k + 1) =~= fs.take(k).push(t));
    assert forall|j: int| 0 <= j < r.len() && (#[trigger] r[j]).cascaded implies r[j] == target_of(
        s[header_of(s, r[j].composer_id)],
        true,
    ) && led_by_named(s, r, j) by {
        assert(r[j] == out[j]);
        lemma_led_push(s, out, t, j);
    }
}

proof fn lemma_cascade_push(
    s: Seq<SessionHeader>,
    fs: Seq<TargetView>,
    k: int,
    out: Seq<TargetView>,
    seen: Set<Seq<char>>,
    pos: int,
    done: Seq<Seq<char>>,
    x: Seq<char>,
)
    requires
        0 <= k < fs.len(),
        cascading(s, fs, k, out, seen, pos, done),
        !target_ids(fs).contains(x),
        !seen.contains(x),
        is_descendant(s, x, fs[k].composer_id),
        exists_id(s, x),
        !fs[k].cascaded,
    ensures
        cascading(
            s,
            fs,
            k,
            out.push(target_of(s[header_of(s, x)], true)),
            seen.insert(x),
            pos,
            done.push(x),
        ),
{
    let t = target_of(s[header_of(s, x)], true);
    lemma_header_of(s, x);
    assert(t.composer_id == x);
    let r = out.push(t);
    lemma_push_ids(out, t, seen);
    lemma_push_contains(done, x);
    assert(r.drop_last() =~= out);
    assert forall|j: int| 0 <= j < r.len() && (#[trigger] r[j]).cascaded implies r[j] == target_of(
        s[header_of(s, r[j].composer_id)],
        true,
    ) && led_by_named(s, r, j) by {
        if j < out.len() {
            assert(r[j] == out[j]);
            lemma_led_push(s, out, t, j);
        } else {
            assert(r[pos] == fs[k]);
            assert forall|m: int| pos < m < j implies (#[trigger] r[m]).cascaded by {
                assert(out[m].cascaded);
            }
        }
    }
    assert forall|m: int| pos < m < r.len() implies (#[trigger] r[m]).cascaded by {
        if m < out.len() {
            assert(out[m].cascaded);
        }
    }
}

proof fn lemma_cascade_skip(
    s: Seq<SessionHeader>,
    fs: Seq<TargetView>,
    k: int,
    out: Seq<TargetView>,
    seen: Set<Seq<char>>,
    pos: int,
    done: Seq<Seq<char>>,
    x: Seq<char>,
)
    requires
        cascading(s, fs, k, out, seen, pos, done),
        target_ids(fs).contains(x) || seen.contains(x),
    ensures
        cascading(s, fs, k, out, seen, pos, done.push(x)),
{
    lemma_push_contains(done, x);
}

proof fn lemma_cascade_step(
    s: Seq<SessionHeader>,
    fs: Seq<TargetView>,
    k: int,
    out: Seq<TargetView>,
    seen: Set<Seq<char>>,
    pos: int,
    done: Seq<Seq<char>>,
)
    requires
        0 <= k < fs.len(),
        cascading(s, fs, k, out, seen, pos, done),
        forall|x: Seq<char>| #[trigger]
            done.contains(x) <==> is_descendant(s, x, fs[k].composer_id),
    ensures
        cascade_so_far(s, fs, k + 1, out, seen),
{
    let fids = target_ids(fs);
    assert forall|x: Seq<char>| #[trigger] seen.contains(x) <==> listed(s, fs, k + 1, x) by {
        if listed(s, fs, k, x) {
            let i = choose|i: int|
                0 <= i < k && (x == (#[trigger] fs[i]).composer_id || (!fids.contains(x)
                    && is_descendant(s, x, fs[i].composer_id)));
            assert(fs[i].composer_id == fs[i].composer_id);
        }
        if listed(s, fs, k + 1, x) {
            let i = choose|i: int|
                0 <= i < k + 1 && (x == (#[trigger] fs[i]).composer_id || (!fids.contains(x)
                    && is_descendant(s, x, fs[i].composer_id)));
            if i < k {
                assert(listed(s, fs, k, x));
            } else {
                assert(done.contains(x) <==> is_descendant(s, x, fs[k].composer_id));
            }
        }
        assert(fs[k].composer_id == fs[k].composer_id);
        assert(done.contains(x) <==> is_descendant(s, x, fs[k].composer_id));
    }
}

/// Where an argument fails, the whole fails.
proof fn lemma_resolved_prefix(s: Seq<SessionHeader>, args: Seq<Seq<char>>, k: int)
    requires
        0 <= k <= args.len(),
        resolved(s, args.take(k)) is None,
    ensures
        resolved(s, args) is None,
    decreases args.len() - k,
{
    if k < args.len() {
        assert(args.take(k + 1).drop_last() =~= args.take(k));
        lemma_resolved_prefix(s, args, k + 1);
    } else {
        assert(args.take(k) =~= args);
    }
}

pub proof fn lemma_resolve_error(s: Seq<SessionHeader>, args: Seq<Seq<char>>, e: Error)
    requires
        is_resolve_error(s, args, e),
    ensures
        resolved(s, args) is None,
{
    let k = choose|k: int|
        {
            &&& 0 <= k < args.len()
            &&& #[trigger] resolved(s, args.take(k)) is Some
            &&& resolved(s, args.take(k + 1)) is None
            &&& is_arg_error(s, args[k], e)
        };
    lemma_resolved_prefix(s, args, k + 1);
}

proof fn lemma_resolved_distinct(s: Seq<SessionHeader>, args: Seq<Seq<char>>)
    ensures
        resolved(s, args) matches Some(ts) ==> target_ids(ts).no_duplicates() && forall|j: int|
            0 <= j < ts.len() ==> !(#[trigger] ts[j]).cascaded,
    decreases args.len(),
{
    if args.len() > 0 {
        lemma_resolved_distinct(s, args.drop_last());
        match resolved(s, args.drop_last()) {
            Some(ts) => {
                if names_one(s, args.last()) {
                    let h = s[named_place(s, args.last())];
                    let t = target_of(h, false);
                    assert(target_ids(ts.push(t)) =~= target_ids(ts).push(t.composer_id));
                }
            },
            None => {},
        }
    }
}

/// The entry of a session that goes.
pub open spec fn is_entry_of(d: Doc, ids: Set<Seq<char>>) -> bool {
    text_of(member(d, "composerId"@)) matches Some(c) && ids.contains(c)
}

/// The id of a session that goes.
pub open spec fn is_id_of(d: Doc, ids: Set<Seq<char>>) -> bool {
    d matches Doc::Str(c) && ids.contains(c)
}

/// The elements that stay in a list of entries (`entries`) or of ids.
pub open spec fn kept(items: Seq<Doc>, ids: Set<Seq<char>>, entries: bool) -> Seq<Doc>
    decreases items.len(),
{
    if items.len() == 0 {
        Seq::empty()
    } else {
        let rest = kept(items.drop_last(), ids, entries);
        let goes = if entries {
            is_entry_of(items.last(), ids)
        } else {
            is_id_of(items.last(), ids)
        };
        if goes {
            rest
        } else {
            rest.push(items.last())
        }
    }
}

/// The member is a list of entries.
pub open spec fn lists_entries(name: Seq<char>) -> bool {
    name == "allComposers"@
}

/// The member is a list of ids.
pub open spec fn lists_ids(name: Seq<char>) -> bool {
    name == "selectedComposerIds"@ || name == "lastFocusedComposerIds"@
}

/// A member without the sessions that go.
pub open spec fn strip_member(name: Seq<char>, d: Doc, ids: Set<Seq<char>>) -> Doc {
    match d {
        Doc::Arr(items) => if lists_entries(name) {
            Doc::Arr(kept(items, ids, true))
        } else if lists_ids(name) {
            Doc::Arr(kept(items, ids, false))
        } else {
            d
        },
        _ => d,
    }
}

/// The members without the sessions that go.
pub open spec fn strip_members(
    m: Seq<(Seq<char>, Doc)>,
    ids: Set<Seq<char>>,
) -> Seq<(Seq<char>, Doc)> {
    m.map_values(|x: (Seq<char>, Doc)| (x.0, strip_member(x.0, x.1, ids)))
}

/// A document without the sessions that go.
pub open spec fn stripped(d: Doc, ids: Set<Seq<char>>) -> Doc {
    match d {
        Doc::Obj(m) => Doc::Obj(strip_members(m, ids)),
        _ => d,
    }
}

/// What stays is part of what was, and all of it where it is as long.
proof fn lemma_kept(items: Seq<Doc>, ids: Set<Seq<char>>, entries: bool)
    ensures
        kept(items, ids, entries).len() <= items.len(),
        kept(items, ids, entries).len() == items.len() ==> kept(items, ids, entries) == items,
    decreases items.len(),
{
    if items.len() > 0 {
        lemma_kept(items.drop_last(), ids, entries);
        assert(items =~= items.drop_last().push(items.last()));
    } else {
        assert(kept(items, ids, entries) =~= items);
    }
}

/// The names of the sessions that go.
fn id_names(ids: &[String]) -> (r: FxHashSet<String>)
    ensures
        fx_names(r) == views(ids@).to_set(),
{
    let ghost vs = views(ids@);
    let mut out: FxHashSet<String> = names_new();
    let mut i: usize = 0;
    assert(vs.take(0).to_set() =~= Set::<Seq<char>>::empty());
    while i < ids.len()
        invariant
            i <= ids@.len(),
            vs == views(ids@),
            fx_names(out) =~= vs.take(i as int).to_set(),
        decreases ids@.len() - i,
    {
        let id = ids[i].clone();
        proof {
            assert(vs.take(i + 1) =~= vs.take(i as int).push(id@));
            lemma_to_set_push(vs.take(i as int), id@);
        }
        names_add(&mut out, id);
        i += 1;
    }
    assert(vs.take(i as int) =~= vs);
    out
}

/// Whether the element goes.
fn goes(j: &Json, ids: &FxHashSet<String>, entries: bool) -> (r: bool)
    ensures
        r == (if entries {
            is_entry_of(j@, fx_names(*ids))
        } else {
            is_id_of(j@, fx_names(*ids))
        }),
{
    if entries {
        match j.get("composerId") {
            Some(c) => match c.as_str() {
                Some(s) => names_has(ids, s),
                None => false,
            },
            None => false,
        }
    } else {
        match j.as_str() {
            Some(s) => names_has(ids, s),
            None => false,
        }
    }
}

/// The list without the elements that go.
fn strip_list(items: Vec<Json>, ids: &FxHashSet<String>, entries: bool) -> (r: Vec<Json>)
    ensures
        docs(r@) == kept(docs(items@), fx_names(*ids), entries),
{
    let ghost all = items@;
    let ghost ds = docs(all);
    let ghost names = fx_names(*ids);
    proof {
        lemma_docs(all);
        assert(ds.take(0) =~= Seq::<Doc>::empty());
        assert(all.skip(0) =~= all);
    }
    let mut rest = reversed(items);
    let mut out: Vec<Json> = Vec::new();
    let ghost mut i: int = 0;
    while rest.len() > 0
        invariant
            0 <= i <= all.len(),
            ds == docs(all),
            ds.len() == all.len(),
            forall|k: int| 0 <= k < all.len() ==> #[trigger] ds[k] == doc(all[k]),
            names == fx_names(*ids),
            rest@ == all.skip(i).reverse(),
            docs(out@) == kept(ds.take(i), names, entries),
        decreases rest@.len(),
    {
        let ghost old_rest = rest@;
        match rest.pop() {
            Some(j) => {
                proof {
                    assert(old_rest.last() == all[i]);
                    assert(j == all[i]);
                    assert(rest@ =~= all.skip(i + 1).reverse());
                    assert(ds.take(i + 1).drop_last() =~= ds.take(i));
                    assert(ds.take(i + 1).last() == ds[i]);
                    i = i + 1;
                }
                if !goes(&j, ids, entries) {
                    let ghost o0 = out@;
                    out.push(j);
                    assert(out@.drop_last() =~= o0);
                }
            },
            None => {},
        }
    }
    proof {
        assert(all.skip(i).len() == 0);
        assert(ds.take(i) =~= ds);
    }
    out
}

/// Takes the sessions out of a document: out of the list of entries, and out of the lists
/// of selected and of last focused ids. Whether anything changed is said with it.
pub fn strip_ids_from_json(json: Json, ids: &[String]) -> (r: (Json, bool))
    ensures
        r.0@ == stripped(json@, views(ids@).to_set()),
        r.1 == (r.0@ != json@),
{
    let names = id_names(ids);
    let ghost idset = fx_names(names);
    let m = match json {
        Json::Obj(m) => m,
        other => return (other, false),
    };
    let ghost all = m@;
    let ghost ms = members(all);
    proof {
        lemma_members(all);
        assert(all.skip(0) =~= all);
    }
    let mut changed = false;
    let mut rest = reversed(m);
    let mut out: Vec<(String, Json)> = Vec::new();
    let ghost mut i: int = 0;
    assert(members(out@) =~= strip_members(ms.take(0), idset));
    assert(strip_members(ms.take(0), idset) =~= ms.take(0));
    while rest.len() > 0
        invariant
            0 <= i <= all.len(),
            ms == members(all),
            ms.len() == all.len(),
            forall|k: int|
                0 <= k < all.len() ==> #[trigger] ms[k] == (all[k].0@, doc(all[k].1)),
            idset == fx_names(names),
            rest@ == all.skip(i).reverse(),
            members(out@) == strip_members(ms.take(i), idset),
            changed == (strip_members(ms.take(i), idset) != ms.take(i)),
        decreases rest@.len(),
    {
        let ghost old_rest = rest@;
        match rest.pop() {
            Some(x) => {
                let ghost before = ms.take(i);
                let ghost after = ms.take(i + 1);
                let ghost x0 = x;
                proof {
                    assert(old_rest.last() == all[i]);
                    assert(x == all[i]);
                    assert(rest@ =~= all.skip(i + 1).reverse());
                    assert(after =~= before.push(ms[i]));
                }
                let (name, value) = x;
                let entries = same(name.as_str(), "allComposers");
                let texts = same(name.as_str(), "selectedComposerIds") || same(
                    name.as_str(),
                    "lastFocusedComposerIds",
                );
                let mut cut = false;
                let value2 = match value {
                    Json::Arr(items) => if entries || texts {
                        let n: usize = items.len();
                        let ghost it = docs(items@);
                        let left = strip_list(items, &names, entries);
                        proof {
                            lemma_docs(items@);
                            lemma_docs(left@);
                            lemma_kept(it, idset, entries);
                        }
                        cut = left.len() != n;
                        Json::Arr(left)
                    } else {
                        Json::Arr(items)
                    },
                    other => other,
                };
                assert(value2@ == strip_member(name@, x0.1@, idset));
                assert(cut == (value2@ != x0.1@));
                changed = changed || cut;
                let ghost o0 = out@;
                let ghost mo = members(out@);
                out.push((name, value2));
                proof {
                    assert(out@.drop_last() =~= o0);
                    assert(members(out@) =~= mo.push((name@, value2@)));
                    assert(strip_members(after, idset) =~= strip_members(before, idset).push(
                        (name@, strip_member(name@, x0.1@, idset)),
                    ));
                    if strip_members(before, idset) == before && !cut {
                        assert(strip_members(after, idset) =~= after);
                    }
                    if strip_members(after, idset) == after {
                        assert(strip_members(after, idset)[i] == after[i]);
                        assert(strip_members(before, idset) =~= before) by {
                            assert forall|k: int| 0 <= k < before.len() implies strip_members(
                                before,
                                idset,
                            )[k] == before[k] by {
                                assert(strip_members(after, idset)[k] == after[k]);
                            }
                        }
                    }
                    i = i + 1;
                }
            },
            None => {},
        }
    }
    proof {
        assert(all.skip(i).len() == 0);
        assert(ms.take(i) =~= ms);
    }
    (Json::Obj(out), changed)
}

/// The new text of a document from which the sessions were taken, from the bytes in which
/// it is kept. There is none where the document is not there, is no JSON, or holds none of
/// the sessions: then it stays as it is.
pub fn edit_item_table_json(raw: Option<&[u8]>, ids: &[String]) -> (r: Result<
    Option<String>,
    Error,
>)
    ensures
        match raw {
            None => r matches Ok(None),
            Some(b) => match json_parsed(utf8_lossy(b@)) {
                Err(_) => r matches Ok(None),
                Ok(d) => if stripped(d, views(ids@).to_set()) == d {
                    r matches Ok(None)
                } else {
                    match json_written(json_value(stripped(d, views(ids@).to_set()))) {
                        Ok(t) => r matches Ok(Some(s)) && s@ == t,
                        Err(e) => r matches Err(Error::Json { what, source }) && what@
                            == "序列化 ItemTable"@ && source@ == e,
                    }
                },
            },
        },
{
    let b = match raw {
        Some(b) => b,
        None => return Ok(None),
    };
    let text = from_utf8_lossy(b);
    let json = match parse(text.as_str()) {
        Ok(j) => j,
        Err(_) => return Ok(None),
    };
    let (json, changed) = strip_ids_from_json(json, ids);
    if !changed {
        return Ok(None);
    }
    match render(&json) {
        Ok(s) => Ok(Some(s)),
        Err(e) => Err(Error::Json { what: "序列化 ItemTable", source: e }),
    }
}

/// Every other member stays as it is, and none comes or goes.
pub proof fn lemma_strip_keeps_the_rest(d: Doc, ids: Set<Seq<char>>, name: Seq<char>)
    requires
        !lists_entries(name),
        !lists_ids(name),
    ensures
        member(stripped(d, ids), name) == member(d, name),
{
    match d {
        Doc::Obj(m) => lemma_first_member_stripped(m, ids, name),
        _ => {},
    }
}

proof fn lemma_first_member_stripped(
    m: Seq<(Seq<char>, Doc)>,
    ids: Set<Seq<char>>,
    name: Seq<char>,
)
    ensures
        crate::json::first_member(strip_members(m, ids), name) == (match crate::json::first_member(
            m,
            name,
        ) {
            Some(d) => Some(strip_member(name, d, ids)),
            None => None,
        }),
    decreases m.len(),
{
    if m.len() > 0 {
        lemma_first_member_stripped(m.drop_first(), ids, name);
        assert(strip_members(m, ids).drop_first() =~= strip_members(m.drop_first(), ids));
    }
}

/// No session that goes is left in a list.
pub proof fn lemma_strip_removes(items: Seq<Doc>, ids: Set<Seq<char>>, entries: bool)
    ensures
        forall|i: int|
            0 <= i < kept(items, ids, entries).len() ==> !(if entries {
                is_entry_of(#[trigger] kept(items, ids, entries)[i], ids)
            } else {
                is_id_of(kept(items, ids, entries)[i], ids)
            }),
    decreases items.len(),
{
    if items.len() > 0 {
        let rest = kept(items.drop_last(), ids, entries);
        let all = kept(items, ids, entries);
        lemma_strip_removes(items.drop_last(), ids, entries);
        assert forall|i: int| 0 <= i < all.len() implies !(if entries {
            is_entry_of(#[trigger] all[i], ids)
        } else {
            is_id_of(all[i], ids)
        }) by {
            if i < rest.len() {
                assert(all[i] == rest[i]);
            }
        }
    }
}

/// What a deletion would delete.
pub struct DeletePlan {
    pub targets: Vec<Target>,
    pub keys: Vec<String>,
    pub per_prefix: PrefixTable,
    pub total_bytes: u64,
}

/// What a deletion did.
pub struct DeleteOutcome {
    pub plan: DeletePlan,
    pub deleted_rows: u64,
    pub deleted_header_rows: u64,
    pub legacy_blob_edited: bool,
    /// The databases of the workspaces that changed.
    pub workspaces_edited: Vec<String>,
    pub backup_path: Option<String>,
}

/// The plan for the rows that were gathered.
pub fn plan(targets: Vec<Target>, c: Collector) -> (r: DeletePlan)
    requires
        c.wf(),
    ensures
        r.targets == targets,
        views(r.keys@).to_multiset() == keys_of(c.rows()).to_multiset(),
        lex_sorted(views(r.keys@)),
        kinds_of(r.per_prefix, c.rows()),
        r.total_bytes == weigh(Set::empty(), c.rows(), Sel::All),
{
    let got = collected(c);
    DeletePlan {
        targets,
        keys: got.keys,
        per_prefix: got.per_prefix,
        total_bytes: got.total_bytes,
    }
}

/// A deletion that may go ahead: its targets, and its steps.
pub struct DeleteJob {
    pub targets: Vec<Target>,
    pub steps: Vec<Step>,
}

/// The ids of the targets.
pub fn ids_of_targets(targets: &[Target]) -> (r: Vec<ComposerId>)
    ensures
        id_views(r@) == target_ids(target_views(targets@)),
{
    let ghost vs = target_ids(target_views(targets@));
    let mut out: Vec<ComposerId> = Vec::new();
    let mut i: usize = 0;
    assert(id_views(out@) =~= vs.take(0));
    while i < targets.len()
        invariant
            i <= targets@.len(),
            vs == target_ids(target_views(targets@)),
            id_views(out@) == vs.take(i as int),
        decreases targets@.len() - i,
    {
        let ghost before = id_views(out@);
        let id = targets[i].composer_id.clone();
        out.push(id);
        proof {
            assert(id_views(out@) =~= before.push(id@));
            assert(vs.take(i + 1) =~= vs.take(i as int).push(id@));
        }
        i += 1;
    }
    assert(vs.take(i as int) =~= vs);
    out
}

/// Decides on a deletion: which sessions go, with all that are below them, and by which
/// steps. Without arguments there is nothing to do, and no deletion may take all sessions.
pub fn apply(sessions: &[SessionHeader], args: &[String], make_backup: bool, finalize: bool) -> (r:
    Result<DeleteJob, Error>)
    ensures
        match resolved(sessions@, views(args@)) {
            None => r matches Err(e) && is_resolve_error(sessions@, views(args@), e),
            Some(first) => match r {
                Ok(job) => {
                    &&& is_cascade(sessions@, first, target_views(job.targets@))
                    &&& 0 < job.targets@.len() < sessions@.len()
                    &&& job.steps@ == run(true, make_backup, finalize)
                    &&& make_backup ==> backs_up_first(job.steps@)
                    &&& reaches_all_places(job.steps@)
                    &&& job.steps@.contains(Step::BackUpRows) <==> make_backup
                    &&& job.steps@.contains(Step::Shrink) <==> finalize
                },
                Err(Error::NoTargets) => first.len() == 0,
                Err(Error::RefuseWipeAll) => exists|all: Seq<TargetView>|
                    {
                        &&& #[trigger] is_cascade(sessions@, first, all)
                        &&& 0 < all.len()
                        &&& all.len() >= sessions@.len()
                    },
                Err(e) => exists|x: Seq<char>|
                    {
                        &&& #[trigger] goes_along(sessions@, first, x)
                        &&& !is_composer_id(x)
                        &&& e matches Error::Id(f) && is_id_fault(x, f)
                    },
            },
        },
{
    let ghost s = sessions@;
    let targets = match resolve_targets_cascading(sessions, args) {
        Ok(ts) => ts,
        Err(e) => return Err(e),
    };
    let ghost all = target_views(targets@);
    if targets.len() == 0 {
        proof {
            let first = resolved(s, views(args@))->0;
            assert(all =~= Seq::<TargetView>::empty());
            assert(named(all) =~= Seq::<TargetView>::empty());
        }
        return Err(Error::NoTargets);
    }
    if targets.len() >= sessions.len() {
        assert(is_cascade(s, resolved(s, views(args@))->0, all));
        return Err(Error::RefuseWipeAll);
    }
    Ok(DeleteJob { targets, steps: make_run(true, make_backup, finalize) })
}

/// The argument picks out the session at `i`: the first whose whole id it is, or, where it is
/// no whole id and at least six bytes long, the only one whose id begins with it.
pub open spec fn picks_out(s: Seq<SessionHeader>, arg: Seq<char>, i: int) -> bool {
    let t = trimmed(arg);
    &&& 0 <= i < s.len()
    &&& (s[i].composer_id@ == t && forall|j: int|
        0 <= j < i ==> (#[trigger] s[j]).composer_id@ != t) || {
        &&& vstd::utf8::encode_utf8(t).len() >= 6
        &&& t.is_prefix_of(s[i].composer_id@)
        &&& forall|j: int|
            0 <= j < s.len() ==> (#[trigger] s[j]).composer_id@ != t && (j != i
                ==> !t.is_prefix_of(s[j].composer_id@))
    }
}

proof fn lemma_matching(s: Seq<SessionHeader>, t: Seq<char>)
    ensures
        forall|i: int| #[trigger]
            matching(s, t).contains(i) <==> 0 <= i < s.len() && t.is_prefix_of(s[i].composer_id@),
        matching(s, t).no_duplicates(),
    decreases s.len(),
{
    if s.len() > 0 {
        let d = s.drop_last();
        let m = matching(d, t);
        lemma_matching(d, t);
        crate::text::lemma_push_contains(m, s.len() - 1);
        assert forall|i: int| #[trigger] matching(s, t).contains(i) <==> 0 <= i < s.len()
            && t.is_prefix_of(s[i].composer_id@) by {
            assert(m.contains(i) <==> 0 <= i < d.len() && t.is_prefix_of(d[i].composer_id@));
        }
        if t.is_prefix_of(s.last().composer_id@) {
            let n = m.push(s.len() - 1);
            assert forall|a: int, b: int| 0 <= a < b < n.len() implies n[a] != n[b] by {
                assert(m.contains(m[a]));
            }
        }
    }
}

/// An argument names a session exactly where it picks one out, and it names that one.
pub proof fn lemma_picks_out(s: Seq<SessionHeader>, arg: Seq<char>)
    ensures
        names_one(s, arg) <==> exists|i: int| #[trigger] picks_out(s, arg, i),
        forall|i: int| #[trigger] picks_out(s, arg, i) ==> named_place(s, arg) == i,
{
    let t = trimmed(arg);
    let m = matching(s, t);
    lemma_matching(s, t);
    lemma_whole_place(s, t);
    let w = whole_place(s, t);
    if w >= 0 {
        lemma_whole_place_first(s, t);
        assert(picks_out(s, arg, w));
    } else {
        assert forall|j: int| 0 <= j < s.len() implies (#[trigger] s[j]).composer_id@ != t by {
            if s[j].composer_id@ == t {
                lemma_whole_place_none(s, t, j);
            }
        }
        if names_one(s, arg) {
            assert(m.contains(m[0]));
            assert forall|j: int| 0 <= j < s.len() implies (#[trigger] s[j]).composer_id@ != t && (j
                != m[0] ==> !t.is_prefix_of(s[j].composer_id@)) by {
                if t.is_prefix_of(s[j].composer_id@) {
                    assert(m.contains(j));
                }
            }
            assert(picks_out(s, arg, m[0]));
        }
    }
    assert forall|i: int| #[trigger] picks_out(s, arg, i) implies named_place(s, arg) == i
        && names_one(s, arg) by {
        if s[i].composer_id@ == t && forall|j: int|
            0 <= j < i ==> (#[trigger] s[j]).composer_id@ != t {
            lemma_whole_place_found(s, t, i);
        } else {
            assert(w < 0) by {
                if w >= 0 {
                    assert(s[w].composer_id@ == t);
                }
            }
            assert(m.contains(i));
            if m.len() > 1 {
                assert(m.contains(m[0]) && m.contains(m[1]));
                assert(m[0] == i) by {
                    assert(t.is_prefix_of(s[m[0]].composer_id@));
                }
                assert(m[1] == i) by {
                    assert(t.is_prefix_of(s[m[1]].composer_id@));
                }
            }
            let k = choose|k: int| 0 <= k < m.len() && m[k] == i;
        }
    }
}

proof fn lemma_whole_place_none(s: Seq<SessionHeader>, t: Seq<char>, j: int)
    requires
        0 <= j < s.len(),
        s[j].composer_id@ == t,
    ensures
        0 <= whole_place(s, t) <= j,
    decreases s.len(),
{
    let d = s.drop_last();
    lemma_whole_place(d, t);
    if j < d.len() {
        assert(d[j] == s[j]);
        lemma_whole_place_none(d, t, j);
    }
}

proof fn lemma_whole_place_first(s: Seq<SessionHeader>, t: Seq<char>)
    requires
        whole_place(s, t) >= 0,
    ensures
        forall|j: int| 0 <= j < whole_place(s, t) ==> (#[trigger] s[j]).composer_id@ != t,
{
    lemma_whole_place(s, t);
    assert forall|j: int| 0 <= j < whole_place(s, t) implies (#[trigger] s[j]).composer_id@
        != t by {
        if s[j].composer_id@ == t {
            lemma_whole_place_none(s, t, j);
        }
    }
}

/// The argument picks out a session with a proper id.
pub open spec fn picks_a_session(s: Seq<SessionHeader>, arg: Seq<char>) -> bool {
    exists|i: int| #[trigger] picks_out(s, arg, i) && is_composer_id(s[i].composer_id@)
}

/// The target says of the session what its header says.
pub open spec fn tells(t: TargetView, h: SessionHeader) -> bool {
    &&& t.composer_id == h.composer_id@
    &&& t.name == opt_text(h.name)
    &&& t.in_header_table == h.in_header_table
    &&& t.in_legacy_blob == h.in_legacy_blob
}

/// Arguments give targets exactly where each of them picks out a session with a proper id.
/// Every session picked out is then a target, once, and no other session is.
pub proof fn lemma_resolved(s: Seq<SessionHeader>, args: Seq<Seq<char>>)
    ensures
        resolved(s, args) is Some <==> forall|k: int|
            0 <= k < args.len() ==> picks_a_session(s, #[trigger] args[k]),
        resolved(s, args) matches Some(ts) ==> {
            &&& target_ids(ts).no_duplicates()
            &&& forall|k: int, i: int|
                0 <= k < args.len() && #[trigger] picks_out(s, args[k], i) ==> target_ids(
                    ts,
                ).contains(s[i].composer_id@)
            &&& forall|m: int|
                0 <= m < ts.len() ==> !(#[trigger] ts[m]).cascaded && exists|k: int, i: int|
                    0 <= k < args.len() && #[trigger] picks_out(s, args[k], i) && tells(ts[m], s[i])
        },
    decreases args.len(),
{
    lemma_resolved_distinct(s, args);
    if args.len() > 0 {
        let rest = args.drop_last();
        let last = args.last();
        assert(args[args.len() - 1] == last);
        lemma_resolved(s, rest);
        lemma_picks_out(s, last);
        assert(forall|k: int| 0 <= k < rest.len() ==> #[trigger] rest[k] == args[k]);
        if resolved(s, args) is Some {
            let ts = resolved(s, args)->0;
            let old = resolved(s, rest)->0;
            let p = named_place(s, last);
            let h = s[p];
            let j = choose|i: int| #[trigger] picks_out(s, last, i);
            assert(j == p);
            if !target_ids(old).contains(h.composer_id@) {
                assert(target_ids(ts) =~= target_ids(old).push(h.composer_id@));
                crate::text::lemma_push_contains(target_ids(old), h.composer_id@);
            } else {
                let q = choose|q: int|
                    0 <= q < target_ids(old).len() && target_ids(old)[q] == h.composer_id@;
                assert(old[q].composer_id == h.composer_id@);
                let (k, i) = choose|k: int, i: int|
                    0 <= k < rest.len() && #[trigger] picks_out(s, rest[k], i) && tells(old[q], s[i]);
                lemma_target_ids_proper(s, rest, q);
            }
            assert(is_composer_id(h.composer_id@));
            assert forall|k: int, i: int|
                0 <= k < args.len() && #[trigger] picks_out(s, args[k], i) implies target_ids(
                ts,
            ).contains(s[i].composer_id@) by {
                if k < rest.len() {
                    assert(picks_out(s, rest[k], i));
                }
            }
            assert forall|m: int| 0 <= m < ts.len() implies !(#[trigger] ts[m]).cascaded
                && exists|k: int, i: int|
                0 <= k < args.len() && #[trigger] picks_out(s, args[k], i) && tells(ts[m], s[i]) by {
                if m < old.len() {
                    assert(ts[m] == old[m]);
                    let (k, i) = choose|k: int, i: int|
                        0 <= k < rest.len() && #[trigger] picks_out(s, rest[k], i) && tells(
                            old[m],
                            s[i],
                        );
                    assert(picks_out(s, args[k], i));
                } else {
                    assert(picks_out(s, args[args.len() - 1], p));
                    assert(tells(ts[m], s[p]));
                }
            }
            assert forall|k: int| 0 <= k < args.len() implies picks_a_session(
                s,
                #[trigger] args[k],
            ) by {
                if k < rest.len() {
                    assert(rest[k] == args[k]);
                } else {
                    assert(picks_out(s, args[k], p));
                }
            }
        } else if forall|k: int| 0 <= k < args.len() ==> picks_a_session(s, #[trigger] args[k]) {
            assert forall|k: int| 0 <= k < rest.len() implies picks_a_session(
                s,
                #[trigger] rest[k],
            ) by {
                assert(rest[k] == args[k]);
            }
            assert(picks_a_session(s, args[args.len() - 1]));
            let i = choose|i: int| #[trigger]
                picks_out(s, args[args.len() - 1], i) && is_composer_id(s[i].composer_id@);
            assert(picks_out(s, last, i));
            assert(false);
        }
    }
}

proof fn lemma_target_ids_proper(s: Seq<SessionHeader>, args: Seq<Seq<char>>, m: int)
    requires
        resolved(s, args) is Some,
        0 <= m < resolved(s, args)->0.len(),
    ensures
        is_composer_id(resolved(s, args)->0[m].composer_id),
    decreases args.len(),
{
    if args.len() > 0 {
        let old = resolved(s, args.drop_last())->0;
        if m < old.len() {
            lemma_target_ids_proper(s, args.drop_last(), m);
        }
    }
}

/// The document names one of the sessions as the session it is the entry of.
pub open spec fn is_entry_for(d: Doc, ids: Set<Seq<char>>) -> bool {
    exists|c: Seq<char>| #[trigger]
        crate::json::holds(d, "composerId"@, Doc::Str(c)) && ids.contains(c)
}

/// Taking sessions out of a document keeps all its members under their names and in their
/// order. From the list of entries the sessions' entries go, from the two lists of ids their
/// ids, and nothing else changes.
pub proof fn lemma_stripped(m: Seq<(Seq<char>, Doc)>, ids: Set<Seq<char>>, i: int)
    requires
        0 <= i < m.len(),
    ensures
        ({
            let out = stripped(Doc::Obj(m), ids);
            &&& out is Obj
            &&& out->Obj_0.len() == m.len()
            &&& out->Obj_0[i].0 == m[i].0
            &&& match m[i].1 {
                Doc::Arr(items) => if m[i].0 == "allComposers"@ {
                    out->Obj_0[i].1 matches Doc::Arr(left) && forall|x: Doc| #[trigger]
                        left.contains(x) <==> items.contains(x) && !is_entry_for(x, ids)
                } else if m[i].0 == "selectedComposerIds"@ || m[i].0 == "lastFocusedComposerIds"@ {
                    out->Obj_0[i].1 matches Doc::Arr(left) && forall|x: Doc| #[trigger]
                        left.contains(x) <==> items.contains(x) && !(x matches Doc::Str(c)
                            && ids.contains(c))
                } else {
                    out->Obj_0[i].1 == m[i].1
                },
                _ => out->Obj_0[i].1 == m[i].1,
            }
        }),
{
    match m[i].1 {
        Doc::Arr(items) => {
            assert forall|x: Doc| #[trigger] kept(items, ids, true).contains(x) <==> items.contains(
                x,
            ) && !is_entry_for(x, ids) by {
                lemma_kept_exactly(items, ids, true, x);
                lemma_is_entry_for(x, ids);
            }
            assert forall|x: Doc| #[trigger] kept(items, ids, false).contains(x)
                <==> items.contains(x) && !(x matches Doc::Str(c) && ids.contains(c)) by {
                lemma_kept_exactly(items, ids, false, x);
            }
        },
        _ => {},
    }
}

proof fn lemma_is_entry_for(d: Doc, ids: Set<Seq<char>>)
    ensures
        is_entry_of(d, ids) <==> is_entry_for(d, ids),
{
    if is_entry_of(d, ids) {
        let c = text_of(member(d, "composerId"@))->0;
        crate::json::lemma_member(d, "composerId"@, Doc::Str(c));
    }
    if is_entry_for(d, ids) {
        let c = choose|c: Seq<char>| #[trigger]
            crate::json::holds(d, "composerId"@, Doc::Str(c)) && ids.contains(c);
        crate::json::lemma_member(d, "composerId"@, Doc::Str(c));
    }
}

proof fn lemma_kept_exactly(items: Seq<Doc>, ids: Set<Seq<char>>, entries: bool, x: Doc)
    ensures
        kept(items, ids, entries).contains(x) <==> items.contains(x) && !(if entries {
            is_entry_of(x, ids)
        } else {
            is_id_of(x, ids)
        }),
    decreases items.len(),
{
    if items.len() > 0 {
        let d = items.drop_last();
        lemma_kept_exactly(d, ids, entries, x);
        assert(items =~= d.push(items.last()));
        crate::text::lemma_push_contains(d, items.last());
        crate::text::lemma_push_contains(kept(d, ids, entries), items.last());
    }
}

/// A document that is no object stays as it is, and so does one that lists none of the
/// sessions.
pub proof fn lemma_strip_nothing(d: Doc, ids: Set<Seq<char>>)
    ensures
        !(d is Obj) ==> stripped(d, ids) == d,
        ids =~= Set::<Seq<char>>::empty() ==> stripped(d, ids) == d,
{
    if d is Obj && ids =~= Set::<Seq<char>>::empty() {
        let m = d->Obj_0;
        assert forall|i: int| 0 <= i < m.len() implies strip_members(m, ids)[i] == m[i] by {
            match m[i].1 {
                Doc::Arr(items) => {
                    lemma_kept_all(items, ids, true);
                    lemma_kept_all(items, ids, false);
                },
                _ => {},
            }
        }
        assert(strip_members(m, ids) =~= m);
    }
}

proof fn lemma_kept_all(items: Seq<Doc>, ids: Set<Seq<char>>, entries: bool)
    requires
        ids =~= Set::<Seq<char>>::empty(),
    ensures
        kept(items, ids, entries) == items,
    decreases items.len(),
{
    if items.len() > 0 {
        lemma_kept_all(items.drop_last(), ids, entries);
        assert(items =~= items.drop_last().push(items.last()));
    } else {
        assert(items =~= Seq::<Doc>::empty());
    }
}

/// Every session below a named one goes along with it, however deep it stands, and no session
/// goes that is neither named nor below a named one.
pub proof fn lemma_cascade_takes_all_below(
    s: Seq<SessionHeader>,
    first: Seq<TargetView>,
    all: Seq<TargetView>,
    y: Seq<char>,
)
    requires
        is_cascade(s, first, all),
    ensures
        forall|i: int|
            0 <= i < first.len() ==> target_ids(all).contains((#[trigger] first[i]).composer_id),
        exists_id(s, y) && (crate::lineage::parent_of(s, y) matches Some(p) && target_ids(
            all,
        ).contains(p)) ==> target_ids(all).contains(y),
        target_ids(all).contains(y) && (forall|i: int|
            0 <= i < first.len() ==> (#[trigger] first[i]).composer_id != y) ==> (
        crate::lineage::parent_of(s, y) matches Some(p) && target_ids(all).contains(p)),
{
    assert forall|i: int| 0 <= i < first.len() implies target_ids(all).contains(
        (#[trigger] first[i]).composer_id,
    ) by {
        assert(goes_along(s, first, first[i].composer_id));
    }
    assert(target_ids(all).contains(y) <==> goes_along(s, first, y));
    if crate::lineage::parent_of(s, y) is Some {
        let p = crate::lineage::parent_of(s, y)->0;
        assert(target_ids(all).contains(p) <==> goes_along(s, first, p));
        if exists_id(s, y) && goes_along(s, first, p) {
            let i = choose|i: int|
                0 <= i < first.len() && (p == (#[trigger] first[i]).composer_id || is_descendant(
                    s,
                    p,
                    first[i].composer_id,
                ));
            crate::lineage::lemma_descendants(s, y, first[i].composer_id);
            assert(y == first[i].composer_id || is_descendant(s, y, first[i].composer_id));
        }
    }
    if goes_along(s, first, y) && forall|i: int|
        0 <= i < first.len() ==> (#[trigger] first[i]).composer_id != y {
        let i = choose|i: int|
            0 <= i < first.len() && (y == (#[trigger] first[i]).composer_id || is_descendant(
                s,
                y,
                first[i].composer_id,
            ));
        crate::lineage::lemma_descendants(s, y, first[i].composer_id);
        let p = crate::lineage::parent_of(s, y)->0;
        assert(p == first[i].composer_id || is_descendant(s, p, first[i].composer_id));
        assert(goes_along(s, first, p));
    }
}

/// A session that goes along with another is shown as what its last header says.
pub proof fn lemma_cascaded_tells(
    s: Seq<SessionHeader>,
    first: Seq<TargetView>,
    all: Seq<TargetView>,
    j: int,
)
    requires
        is_cascade(s, first, all),
        0 <= j < all.len(),
        all[j].cascaded,
    ensures
        exists|i: int| #[trigger]
            crate::lineage::is_last_of(s, i, all[j].composer_id) && tells(all[j], s[i]),
{
    let x = all[j].composer_id;
    let k = choose|k: int|
        {
            &&& 0 <= k < j
            &&& !(#[trigger] all[k]).cascaded
            &&& is_descendant(s, all[j].composer_id, all[k].composer_id)
            &&& forall|m: int| k < m < j ==> (#[trigger] all[m]).cascaded
        };
    crate::lineage::lemma_descendant_exists(s, x, all[k].composer_id);
    crate::lineage::lemma_header_last(s, x);
    assert(crate::lineage::is_last_of(s, header_of(s, x), x));
}

/// A deleted session does not come back: once a document was edited it lists none of the
/// sessions that went, and all the others that it listed before, each with the same header.
pub proof fn lemma_deleted_does_not_come_back(d: Doc, ids: Set<Seq<char>>, h: HeaderView)
    ensures
        legacy_headers(stripped(d, ids)).contains(h) <==> legacy_headers(d).contains(h)
            && !ids.contains(h.composer_id),
{
    lemma_legacy_headers(d, h);
    lemma_legacy_headers(stripped(d, ids), h);
    let name = "allComposers"@;
    match d {
        Doc::Obj(m) => {
            lemma_first_member_stripped(m, ids, name);
        },
        _ => {},
    }
    match member(d, name) {
        Some(Doc::Arr(items)) => {
            let left = kept(items, ids, true);
            crate::json::lemma_member(d, name, Doc::Arr(items));
            crate::json::lemma_member(stripped(d, ids), name, Doc::Arr(left));
            if legacy_headers(d).contains(h) && !ids.contains(h.composer_id) {
                let (list, i) = choose|list: Seq<Doc>, i: int|
                    #![trigger crate::json::holds(d, name, Doc::Arr(list)), list[i]]
                    crate::json::holds(d, name, Doc::Arr(list)) && 0 <= i < list.len()
                        && entry_header(list[i]) == Some(h);
                crate::json::lemma_holds_one(d, name, Doc::Arr(list), Doc::Arr(items));
                lemma_kept_exactly(items, ids, true, items[i]);
                assert(items.contains(items[i]));
                assert(!is_entry_of(items[i], ids));
                let k = choose|k: int| 0 <= k < left.len() && left[k] == items[i];
                assert(crate::json::holds(stripped(d, ids), name, Doc::Arr(left)) && entry_header(
                    left[k],
                ) == Some(h));
            }
            if legacy_headers(stripped(d, ids)).contains(h) {
                let (list, i) = choose|list: Seq<Doc>, i: int|
                    #![trigger crate::json::holds(stripped(d, ids), name, Doc::Arr(list)), list[i]]
                    crate::json::holds(stripped(d, ids), name, Doc::Arr(list)) && 0 <= i < list.len()
                        && entry_header(list[i]) == Some(h);
                crate::json::lemma_holds_one(stripped(d, ids), name, Doc::Arr(list), Doc::Arr(left));
                lemma_kept_exactly(items, ids, true, left[i]);
                assert(left.contains(left[i]));
                assert(items.contains(left[i]) && !is_entry_of(left[i], ids));
                let k = choose|k: int| 0 <= k < items.len() && items[k] == left[i];
                assert(crate::json::holds(d, name, Doc::Arr(items)) && entry_header(items[k])
                    == Some(h));
            }
        },
        _ => {},
    }
}

/// What is wrong with an argument that names no session: it is too short, no id begins with
/// it, or several do, and then all of them are named.
pub proof fn lemma_arg_error(s: Seq<SessionHeader>, arg: Seq<char>, e: Error)
    requires
        is_arg_error(s, arg, e),
        forall|i: int| 0 <= i < s.len() ==> (#[trigger] s[i]).composer_id@ != trimmed(arg),
    ensures
        vstd::utf8::encode_utf8(trimmed(arg)).len() < 6 ==> (e matches Error::Id(
            IdError::TooShort { raw, min },
        ) && raw@ == trimmed(arg) && min == 6),
        vstd::utf8::encode_utf8(trimmed(arg)).len() >= 6 && (forall|i: int|
            0 <= i < s.len() ==> !trimmed(arg).is_prefix_of((#[trigger] s[i]).composer_id@)) ==> (e
            matches Error::TargetNotFound { arg: shown } && shown@ == trimmed(arg)),
        e matches Error::AmbiguousPrefix { arg: shown, candidates } ==> forall|i: int|
            0 <= i < s.len() && trimmed(arg).is_prefix_of((#[trigger] s[i]).composer_id@) ==> views(
                e->AmbiguousPrefix_candidates@,
            ).contains(s[i].composer_id@),
        vstd::utf8::encode_utf8(trimmed(arg)).len() >= 6 && (exists|i: int, j: int|
            0 <= i < j < s.len() && trimmed(arg).is_prefix_of((#[trigger] s[i]).composer_id@)
                && trimmed(arg).is_prefix_of((#[trigger] s[j]).composer_id@)) ==> e
            is AmbiguousPrefix,
{
    let t = trimmed(arg);
    let m = matching(s, t);
    lemma_matching(s, t);
    lemma_whole_place(s, t);
    assert(whole_place(s, t) < 0);
    if m.len() > 0 {
        assert(m.contains(m[0]));
    }
    if e is AmbiguousPrefix {
        let c = views(e->AmbiguousPrefix_candidates@);
        assert forall|i: int|
            0 <= i < s.len() && t.is_prefix_of((#[trigger] s[i]).composer_id@) implies c.contains(
            s[i].composer_id@,
        ) by {
            assert(m.contains(i));
            let k = choose|k: int| 0 <= k < m.len() && m[k] == i;
            assert(c[k] == s[i].composer_id@);
        }
    }
    if exists|i: int, j: int|
        0 <= i < j < s.len() && t.is_prefix_of((#[trigger] s[i]).composer_id@) && t.is_prefix_of(
            (#[trigger] s[j]).composer_id@,
        ) {
        let (i, j) = choose|i: int, j: int|
            0 <= i < j < s.len() && t.is_prefix_of((#[trigger] s[i]).composer_id@) && t.is_prefix_of(
                (#[trigger] s[j]).composer_id@,
            );
        assert(m.contains(i) && m.contains(j));
        let a = choose|a: int| 0 <= a < m.len() && m[a] == i;
        let b = choose|b: int| 0 <= b < m.len() && m[b] == j;
        assert(a != b);
        assert(m.len() > 1);
    }
}

} // verus!
