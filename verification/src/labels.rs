//! What the workspaces are called on the screen. Where several would be called the same,
//! their folders tell them apart.

use crate::fx::IdMap;
use crate::headers::opt_text;
use crate::text::{first_chars, head, same, strip_prefix, strip_suffix, views};
use crate::workspace::{split_last_slash, WorkspaceInfo};
use vstd::prelude::*;

verus! {

broadcast use vstd::string::group_string_axioms;

/// What a workspace is called by itself; the empty id stands for none.
pub open spec fn ws_name(known: Map<Seq<char>, WorkspaceInfo>, wid: Seq<char>) -> Seq<char> {
    if wid.len() == 0 {
        "(无归属)"@
    } else if known.contains_key(wid) {
        known[wid].label@
    } else {
        head(wid, 8)
    }
}

/// The folder of a workspace, where it is known.
pub open spec fn path_of(known: Map<Seq<char>, WorkspaceInfo>, wid: Seq<char>) -> Option<Seq<char>> {
    if wid.len() > 0 && known.contains_key(wid) {
        opt_text(known[wid].folder)
    } else {
        None
    }
}

/// The folder is `t`, or ends with a slash and `t`.
pub open spec fn ends_in(folder: Seq<char>, t: Seq<char>) -> bool {
    folder == t || (t.len() > 0 && folder.len() > t.len() && folder[folder.len() - t.len() - 1] == '/'
        && folder.skip(folder.len() - t.len()) == t)
}

/// The folders of the workspaces in `homes`.
pub open spec fn paths_in(
    known: Map<Seq<char>, WorkspaceInfo>,
    homes: Set<Seq<char>>,
) -> Set<Seq<char>> {
    Set::new(|f: Seq<char>| exists|w: Seq<char>| homes.contains(w) && #[trigger] path_of(known, w) == Some(f))
}

/// No folder but `folder` itself ends in `t`.
pub open spec fn is_clear(paths: Set<Seq<char>>, folder: Seq<char>, t: Seq<char>) -> bool {
    forall|f: Seq<char>| #[trigger] paths.contains(f) && f != folder ==> !ends_in(f, t)
}

/// The last place up to `k` at which a part of the folder begins from where on it ends as no
/// other does; nought where there is none.
pub open spec fn cut(paths: Set<Seq<char>>, folder: Seq<char>, k: int) -> int
    decreases k,
{
    if k <= 0 {
        0
    } else if k < folder.len() && folder[k - 1] == '/' && is_clear(paths, folder, folder.skip(k)) {
        k
    } else {
        cut(paths, folder, k - 1)
    }
}

/// The shortest end of a folder, in whole parts, that no other folder ends in.
pub open spec fn apart(paths: Set<Seq<char>>, folder: Seq<char>) -> Seq<char> {
    folder.skip(cut(paths, folder, folder.len() as int))
}

/// Another workspace, of another folder, is called the same, or its folder ends in that name.
pub open spec fn rivals(
    known: Map<Seq<char>, WorkspaceInfo>,
    w: Seq<char>,
    other: Seq<char>,
) -> bool {
    &&& path_of(known, other) != path_of(known, w)
    &&& ws_name(known, other) == ws_name(known, w) || (path_of(known, other) is Some && ends_in(
        path_of(known, other)->0,
        ws_name(known, w),
    ))
}

/// The name of the workspace does not tell it from the others.
pub open spec fn is_shared(
    known: Map<Seq<char>, WorkspaceInfo>,
    homes: Set<Seq<char>>,
    w: Seq<char>,
) -> bool {
    exists|other: Seq<char>| #[trigger] homes.contains(other) && rivals(known, w, other)
}

/// What a workspace is called among others: its own name where that tells it from them, else
/// as much of the end of its folder as does.
pub open spec fn label_among(
    known: Map<Seq<char>, WorkspaceInfo>,
    homes: Set<Seq<char>>,
    w: Seq<char>,
) -> Seq<char> {
    if path_of(known, w) is Some && is_shared(known, homes, w) {
        apart(paths_in(known, homes), path_of(known, w)->0)
    } else {
        ws_name(known, w)
    }
}

proof fn lemma_cut(paths: Set<Seq<char>>, folder: Seq<char>, k: int)
    requires
        k <= folder.len(),
    ensures
        0 <= cut(paths, folder, k) <= folder.len(),
        cut(paths, folder, k) > 0 ==> cut(paths, folder, k) < folder.len() && folder[cut(
            paths,
            folder,
            k,
        ) - 1] == '/' && is_clear(paths, folder, folder.skip(cut(paths, folder, k))),
    decreases k,
{
    if k > 0 {
        lemma_cut(paths, folder, k - 1);
    }
}

/// A folder ends in what tells it apart.
proof fn lemma_apart(paths: Set<Seq<char>>, folder: Seq<char>)
    ensures
        ends_in(folder, apart(paths, folder)),
{
    let k = cut(paths, folder, folder.len() as int);
    lemma_cut(paths, folder, folder.len() as int);
    if k == 0 {
        assert(folder.skip(0) =~= folder);
    }
}

/// Workspaces of different folders are called differently.
pub proof fn lemma_told_apart(
    known: Map<Seq<char>, WorkspaceInfo>,
    homes: Set<Seq<char>>,
    a: Seq<char>,
    b: Seq<char>,
)
    requires
        homes.contains(a),
        homes.contains(b),
        path_of(known, a) is Some,
        path_of(known, b) is Some,
        path_of(known, a) != path_of(known, b),
    ensures
        label_among(known, homes, a) != label_among(known, homes, b),
{
    let ps = paths_in(known, homes);
    let (f, g) = (path_of(known, a)->0, path_of(known, b)->0);
    assert(ps.contains(f) && ps.contains(g));
    lemma_apart(ps, f);
    lemma_apart(ps, g);
    lemma_cut(ps, f, f.len() as int);
    lemma_cut(ps, g, g.len() as int);
    if label_among(known, homes, a) == label_among(known, homes, b) {
        if is_shared(known, homes, a) && is_shared(known, homes, b) {
            assert(f.skip(0) =~= f);
            assert(g.skip(0) =~= g);
        } else if is_shared(known, homes, a) {
            assert(rivals(known, b, a));
        } else if is_shared(known, homes, b) {
            assert(rivals(known, a, b));
        } else {
            assert(rivals(known, a, b));
        }
    }
}

/// What a workspace is called by itself.
pub fn ws_name_of(known: &IdMap<WorkspaceInfo>, wid: &str) -> (r: String)
    requires
        known.wf(),
    ensures
        r@ == ws_name(known@, wid@),
{
    if wid.is_empty() {
        return "(无归属)".to_owned();
    }
    match known.get(wid) {
        Some(info) => info.label.clone(),
        None => first_chars(wid, 8).to_owned(),
    }
}

/// The folder of a workspace, where it is known.
fn path_in<'a>(known: &'a IdMap<WorkspaceInfo>, wid: &str) -> (r: Option<&'a str>)
    requires
        known.wf(),
    ensures
        match r {
            Some(f) => path_of(known@, wid@) == Some(f@),
            None => path_of(known@, wid@) is None,
        },
{
    if wid.is_empty() {
        return None;
    }
    match known.get(wid) {
        Some(info) => match &info.folder {
            Some(f) => Some(f.as_str()),
            None => None,
        },
        None => None,
    }
}

/// Whether the folder is `t`, or ends with a slash and `t`.
fn ends_with_part(folder: &str, t: &str) -> (r: bool)
    ensures
        r == ends_in(folder@, t@),
{
    if same(folder, t) {
        return true;
    }
    if t.is_empty() {
        return false;
    }
    match strip_suffix(folder, t) {
        None => {
            proof {
                if ends_in(folder@, t@) {
                    assert(t@ =~= folder@.subrange(
                        folder@.len() - t@.len(),
                        folder@.len() as int,
                    ));
                    assert(t@.is_suffix_of(folder@));
                }
            }
            false
        },
        Some(front) => {
            proof {
                assert(folder@.skip(folder@.len() - t@.len()) =~= t@);
                if front@.len() > 0 {
                    assert(folder@[front@.len() - 1] == front@[front@.len() - 1]);
                } else {
                    assert(folder@ =~= t@);
                }
                reveal_strlit("/");
                assert("/"@ =~= seq!['/']);
            }
            let slash = strip_suffix(front, "/").is_some();
            proof {
                if front@.len() > 0 && front@.last() == '/' {
                    assert("/"@ =~= front@.subrange(front@.len() - 1, front@.len() as int));
                    assert("/"@.is_suffix_of(front@));
                }
                if slash {
                    assert("/"@ =~= front@.subrange(front@.len() - 1, front@.len() as int));
                    assert(front@.last() == '/');
                }
            }
            slash
        },
    }
}

/// Whether no other workspace's folder ends in `t`.
fn clear_of(known: &IdMap<WorkspaceInfo>, homes: &[String], folder: &str, t: &str) -> (r: bool)
    requires
        known.wf(),
    ensures
        r == is_clear(paths_in(known@, views(homes@).to_set()), folder@, t@),
{
    let ghost hs = views(homes@);
    let ghost ps = paths_in(known@, hs.to_set());
    let mut i: usize = 0;
    while i < homes.len()
        invariant
            i <= homes@.len(),
            hs == views(homes@),
            ps == paths_in(known@, hs.to_set()),
            known.wf(),
            forall|j: int|
                0 <= j < i ==> {
                    let f = path_of(known@, #[trigger] hs[j]);
                    f is Some && f->0 != folder@ ==> !ends_in(f->0, t@)
                },
        decreases homes@.len() - i,
    {
        let w = homes[i].as_str();
        assert(w@ == hs[i as int]);
        if let Some(f) = path_in(known, w) {
            if !same(f, folder) && ends_with_part(f, t) {
                proof {
                    assert(hs.contains(hs[i as int]));
                    assert(hs.to_set().contains(w@));
                    assert(ps.contains(f@));
                }
                return false;
            }
        }
        i += 1;
    }
    proof {
        assert forall|f: Seq<char>| #[trigger] ps.contains(f) && f != folder@ implies !ends_in(
            f,
            t@,
        ) by {
            let w = choose|w: Seq<char>|
                hs.to_set().contains(w) && #[trigger] path_of(known@, w) == Some(f);
            let j = choose|j: int| 0 <= j < hs.len() && hs[j] == w;
            assert(path_of(known@, hs[j]) == Some(f));
        }
    }
    true
}

/// Where no part begins, the end is not cut.
proof fn lemma_cut_skip(paths: Set<Seq<char>>, folder: Seq<char>, from: int, to: int)
    requires
        0 <= to <= from <= folder.len(),
        forall|k: int| to < k <= from ==> k == folder.len() || folder[#[trigger] (k - 1)] != '/',
    ensures
        cut(paths, folder, from) == cut(paths, folder, to),
    decreases from - to,
{
    if to < from {
        assert(from == folder.len() || folder[from - 1] != '/');
        assert forall|k: int| to < k <= from - 1 implies k == folder.len() || folder[#[trigger] (k
            - 1)] != '/' by {
            assert(k == folder.len() || folder[k - 1] != '/');
        }
        lemma_cut_skip(paths, folder, from - 1, to);
    }
}

/// The shortest end of a folder, in whole parts, that no other workspace's folder ends in.
fn told_apart(known: &IdMap<WorkspaceInfo>, homes: &[String], folder: &str) -> (r: String)
    requires
        known.wf(),
    ensures
        r@ == apart(paths_in(known@, views(homes@).to_set()), folder@),
{
    let ghost ps = paths_in(known@, views(homes@).to_set());
    let ghost full = folder@;
    let mut front: &str = folder;
    proof {
        assert(full.take(full.len() as int) =~= full);
    }
    loop
        invariant
            known.wf(),
            full == folder@,
            ps == paths_in(known@, views(homes@).to_set()),
            front@.len() <= full.len(),
            front@ == full.take(front@.len() as int),
            front@.len() < full.len() ==> full[front@.len() as int] == '/',
            cut(ps, full, full.len() as int) == cut(ps, full, front@.len() as int),
        decreases front@.len(),
    {
        match split_last_slash(front) {
            None => {
                proof {
                    assert forall|k: int| 0 < k <= front@.len() implies k == full.len()
                        || full[#[trigger] (k - 1)] != '/' by {
                        assert(front@[k - 1] == full[k - 1]);
                        assert(front@.contains(front@[k - 1]));
                    }
                    lemma_cut_skip(ps, full, front@.len() as int, 0);
                    assert(full.skip(0) =~= full);
                }
                return folder.to_owned();
            },
            Some((a, b)) => {
                let ghost n = a@.len() as int;
                proof {
                    assert(front@.len() == n + 1 + b@.len());
                    assert(front@[n] == '/') by {
                        assert((a@.push('/') + b@)[n] == '/');
                    }
                    assert(full[n] == front@[n]);
                    assert(a@ =~= full.take(n)) by {
                        assert forall|i: int| 0 <= i < n implies a@[i] == full[i] by {
                            assert((a@.push('/') + b@)[i] == a@[i]);
                            assert(front@[i] == full[i]);
                        }
                    }
                    assert forall|k: int| n + 1 < k <= front@.len() implies k == full.len()
                        || full[#[trigger] (k - 1)] != '/' by {
                        assert(front@[k - 1] == full[k - 1]);
                        assert((a@.push('/') + b@)[k - 1] == b@[k - 1 - (n + 1)]);
                        assert(b@.contains(b@[k - 1 - (n + 1)]));
                    }
                    lemma_cut_skip(ps, full, front@.len() as int, n + 1);
                    reveal_strlit("/");
                    assert("/"@ =~= seq!['/']);
                    assert(a@.is_prefix_of(full));
                }
                let tail = match strip_prefix(folder, a) {
                    Some(rest) => {
                        proof {
                            assert(rest@ =~= full.skip(n));
                            assert("/"@ =~= rest@.subrange(0, 1));
                            assert("/"@.is_prefix_of(rest@));
                        }
                        match strip_prefix(rest, "/") {
                            Some(t) => {
                                assert(t@ =~= full.skip(n + 1));
                                t
                            },
                            None => folder,
                        }
                    },
                    None => folder,
                };
                assert(tail@ == full.skip(n + 1));
                if !tail.is_empty() && clear_of(known, homes, folder, tail) {
                    return tail.to_owned();
                }
                proof {
                    assert(cut(ps, full, n + 1) == cut(ps, full, n));
                }
                front = a;
            },
        }
    }
}

/// Whether the name of the workspace does not tell it from the others.
fn shares_name(known: &IdMap<WorkspaceInfo>, homes: &[String], wid: &str, folder: &str) -> (r: bool)
    requires
        known.wf(),
        path_of(known@, wid@) == Some(folder@),
    ensures
        r == is_shared(known@, views(homes@).to_set(), wid@),
{
    let ghost hs = views(homes@);
    let name = ws_name_of(known, wid);
    let mut i: usize = 0;
    while i < homes.len()
        invariant
            i <= homes@.len(),
            hs == views(homes@),
            known.wf(),
            path_of(known@, wid@) == Some(folder@),
            name@ == ws_name(known@, wid@),
            forall|j: int| 0 <= j < i ==> !rivals(known@, wid@, #[trigger] hs[j]),
        decreases homes@.len() - i,
    {
        let w = homes[i].as_str();
        assert(w@ == hs[i as int]);
        let other = ws_name_of(known, w);
        let rival = match path_in(known, w) {
            Some(f) => !same(f, folder) && (same(other.as_str(), name.as_str())
                || ends_with_part(f, name.as_str())),
            None => same(other.as_str(), name.as_str()),
        };
        assert(rival == rivals(known@, wid@, w@));
        if rival {
            proof {
                assert(hs.contains(hs[i as int]));
                assert(hs.to_set().contains(w@));
            }
            return true;
        }
        i += 1;
    }
    proof {
        assert forall|w: Seq<char>| #[trigger] hs.to_set().contains(w) implies !rivals(
            known@,
            wid@,
            w,
        ) by {
            let j = choose|j: int| 0 <= j < hs.len() && hs[j] == w;
            assert(!rivals(known@, wid@, hs[j]));
        }
    }
    false
}

/// What a workspace is called among those in `homes`.
pub fn label_of_home(known: &IdMap<WorkspaceInfo>, homes: &[String], wid: &str) -> (r: String)
    requires
        known.wf(),
    ensures
        r@ == label_among(known@, views(homes@).to_set(), wid@),
{
    if let Some(folder) = path_in(known, wid) {
        if shares_name(known, homes, wid, folder) {
            return told_apart(known, homes, folder);
        }
    }
    ws_name_of(known, wid)
}

/// A workspace whose name others share is called by an end of its folder, in whole parts; any
/// other by its own name: its label where it is known, the beginning of its id where it is
/// not.
pub proof fn lemma_label_among(
    known: Map<Seq<char>, WorkspaceInfo>,
    homes: Set<Seq<char>>,
    w: Seq<char>,
)
    requires
        w.len() > 0,
    ensures
        known.contains_key(w) && known[w].folder is Some ==> label_among(known, homes, w)
            == known[w].label@ || ends_in(known[w].folder->0@, label_among(known, homes, w)),
        known.contains_key(w) && known[w].folder is None ==> label_among(known, homes, w)
            == known[w].label@,
        known.contains_key(w) && (forall|o: Seq<char>| #[trigger]
            homes.contains(o) ==> !rivals(known, w, o)) ==> label_among(known, homes, w)
            == known[w].label@,
        !known.contains_key(w) && w.len() >= 8 ==> label_among(known, homes, w) == w.take(8),
{
    if known.contains_key(w) && known[w].folder is Some {
        lemma_apart(paths_in(known, homes), known[w].folder->0@);
    }
}

/// The empty id stands for no workspace, and is called so.
pub proof fn lemma_ws_name(known: Map<Seq<char>, WorkspaceInfo>, w: Seq<char>)
    ensures
        ws_name(known, Seq::empty()) == "(无归属)"@,
        w.len() > 0 && known.contains_key(w) ==> ws_name(known, w) == known[w].label@,
        w.len() >= 8 && !known.contains_key(w) ==> ws_name(known, w) == w.take(8),
        path_of(known, Seq::empty()) is None,
        w.len() > 0 && known.contains_key(w) ==> path_of(known, w) == opt_text(known[w].folder),
{
}

} // verus!
