//! The tree of subagents below a session, one row for each.

use crate::fx::{IdMap, NameSet};
use crate::headers::{opt_text, SessionHeader};
use crate::lineage::{
    climbs, collect_by_id, dangling, exists_id, header_of, is_child, is_descendant,
    lemma_distinct_bound, lemma_header_of, lists_children, parent_of, Lineage,
};
use crate::panes::{below, bytes_of, sized, stat_bytes};
use crate::scan::ScanResult;
use crate::text::{lex_increasing, lex_lt, views};
use vstd::prelude::*;

verus! {

broadcast use vstd::string::group_string_axioms;

/// A row of the tree.
pub struct SubRow {
    pub composer_id: String,
    pub name: Option<String>,
    /// How many links lead from it up to the session.
    pub depth: usize,
    /// Known once the sizes have been read.
    pub bytes: Option<u64>,
    pub is_dangling: bool,
}

/// A node: its id and its depth.
pub type Node = (Seq<char>, nat);

/// The nodes of the rows.
pub open spec fn nodes(rows: Seq<SubRow>) -> Seq<Node> {
    rows.map_values(|r: SubRow| (r.composer_id@, r.depth as nat))
}

/// The node has its parent at `k` in `q`, and what follows the parent lies no higher than
/// the node.
pub open spec fn hangs_at(kin: Seq<SessionHeader>, q: Seq<Node>, n: Node, k: int) -> bool {
    &&& 0 <= k < q.len()
    &&& is_child(kin, n.0, q[k].0)
    &&& n.1 == q[k].1 + 1
    &&& forall|m: int| k < m < q.len() ==> (#[trigger] q[m]).1 >= n.1
}

/// The node has a place below one of `q`.
pub open spec fn hangs(kin: Seq<SessionHeader>, q: Seq<Node>, n: Node) -> bool {
    exists|k: int| #[trigger] hangs_at(kin, q, n, k)
}

/// `q` is a tree written parents first: it starts with its root, each later node comes
/// behind its parent with nothing between them but what is below that parent, and
/// siblings stand in the order of their ids.
pub open spec fn parents_first(kin: Seq<SessionHeader>, q: Seq<Node>) -> bool {
    &&& q.len() > 0
    &&& q[0].1 == 0
    &&& forall|i: int, j: int| 0 <= i < j < q.len() ==> (#[trigger] q[i]).0 != (#[trigger] q[j]).0
    &&& forall|i: int| 1 <= i < q.len() ==> hangs(kin, q.take(i), #[trigger] q[i])
    &&& forall|i: int, j: int|
        1 <= i < j < q.len() && parent_of(kin, (#[trigger] q[i]).0) == parent_of(
            kin,
            (#[trigger] q[j]).0,
        ) ==> lex_lt(q[i].0, q[j].0)
    &&& forall|i: int|
        0 <= i < q.len() ==> climbs(kin, (#[trigger] q[i]).0, q[0].0, q[i].1)
}

/// Some node has this id.
pub open spec fn has_node(q: Seq<Node>, x: Seq<char>) -> bool {
    exists|i: int| 0 <= i < q.len() && (#[trigger] q[i]).0 == x
}

/// The tree below `root`: all sessions below it, parents first.
pub open spec fn is_tree(kin: Seq<SessionHeader>, root: Seq<char>, t: Seq<Node>) -> bool {
    &&& parents_first(kin, seq![(root, 0nat)] + t)
    &&& forall|x: Seq<char>| #[trigger] has_node(t, x) <==> is_descendant(kin, x, root)
}

/// The row says what is known of its session.
pub open spec fn is_sub_row(
    r: SubRow,
    s: Seq<SessionHeader>,
    kin: Seq<SessionHeader>,
    scan: ScanResult,
) -> bool {
    let id = r.composer_id@;
    &&& opt_text(r.name) == (if exists_id(s, id) {
        opt_text(s[header_of(s, id)].name)
    } else {
        None
    })
    &&& r.bytes == (if scan.sized {
        Some(bytes_of(scan, id))
    } else {
        None
    })
    &&& r.is_dangling == dangling(kin, id)
}

/// The nodes still to be visited, the next one last, and the tree so far.
spec fn waiting(kin: Seq<SessionHeader>, q: Seq<Node>, st: Seq<Node>) -> bool {
    &&& forall|j: int| 0 <= j < st.len() ==> hangs(kin, q, #[trigger] st[j])
    &&& forall|i: int, j: int| 0 <= i < j < st.len() ==> (#[trigger] st[i]).1 <= (#[trigger] st[j]).1
    &&& forall|i: int, j: int|
        0 <= i < j < st.len() && parent_of(kin, (#[trigger] st[i]).0) == parent_of(
            kin,
            (#[trigger] st[j]).0,
        ) ==> lex_lt(st[j].0, st[i].0)
    &&& forall|i: int, j: int|
        1 <= i < q.len() && 0 <= j < st.len() && parent_of(kin, (#[trigger] q[i]).0) == parent_of(
            kin,
            (#[trigger] st[j]).0,
        ) ==> lex_lt(q[i].0, st[j].0)
}

/// Each child of a node is in the tree or waits.
spec fn complete(kin: Seq<SessionHeader>, q: Seq<Node>, st: Seq<Node>) -> bool {
    forall|k: int, c: Seq<char>|
        #![trigger is_child(kin, c, q[k].0)]
        0 <= k < q.len() && is_child(kin, c, q[k].0) ==> has_node(q, c) || has_node(st, c)
}

/// The nodes of a node's children, the first of them last.
spec fn kids_down(ks: Seq<Seq<char>>, depth: nat) -> Seq<Node> {
    Seq::new(ks.len(), |j: int| (ks[ks.len() - 1 - j], depth))
}

/// The next node waits no more, as it has been visited before.
proof fn lemma_skip(kin: Seq<SessionHeader>, q: Seq<Node>, st: Seq<Node>)
    requires
        st.len() > 0,
        waiting(kin, q, st),
        complete(kin, q, st),
        has_node(q, st.last().0),
    ensures
        waiting(kin, q, st.drop_last()),
        complete(kin, q, st.drop_last()),
{
    let t = st.drop_last();
    assert forall|k: int, c: Seq<char>|
        #![trigger is_child(kin, c, q[k].0)]
        0 <= k < q.len() && is_child(kin, c, q[k].0) implies has_node(q, c) || has_node(t, c) by {
        if !has_node(q, c) {
            let i = choose|i: int| 0 <= i < st.len() && (#[trigger] st[i]).0 == c;
            assert(t[i].0 == c);
        }
    }
}

/// The next node takes its place in the tree.
proof fn lemma_visit(kin: Seq<SessionHeader>, q: Seq<Node>, st: Seq<Node>)
    requires
        st.len() > 0,
        parents_first(kin, q),
        waiting(kin, q, st),
        !has_node(q, st.last().0),
    ensures
        parents_first(kin, q.push(st.last())),
        exists_id(kin, st.last().0),
        forall|i: int|
            1 <= i < q.len() + 1 ==> parent_of(kin, (#[trigger] q.push(st.last())[i]).0) != Some(
                st.last().0,
            ),
        forall|j: int|
            0 <= j < st.len() ==> parent_of(kin, (#[trigger] st[j]).0) != Some(st.last().0),
{
    let x = st.last();
    let r = q.push(x);
    let n = q.len() as int;
    assert(hangs(kin, q, st[st.len() - 1]));
    let k = choose|k: int| #[trigger] hangs_at(kin, q, x, k);
    assert forall|i: int, j: int| 0 <= i < j < r.len() implies (#[trigger] r[i]).0 != (
    #[trigger] r[j]).0 by {
        assert(r[i] == q[i]);
        if j == n {
            assert(q[i].0 != x.0);
        }
    }
    assert forall|i: int| 1 <= i < r.len() implies hangs(kin, r.take(i), #[trigger] r[i]) by {
        if i < n {
            assert(r.take(i) =~= q.take(i));
            assert(r[i] == q[i]);
        } else {
            assert(r.take(i) =~= q);
        }
    }
    assert forall|i: int, j: int|
        1 <= i < j < r.len() && parent_of(kin, (#[trigger] r[i]).0) == parent_of(
            kin,
            (#[trigger] r[j]).0,
        ) implies lex_lt(r[i].0, r[j].0) by {
        assert(r[i] == q[i]);
        if j == n {
            assert(r[j] == st[st.len() - 1]);
        } else {
            assert(r[j] == q[j]);
        }
    }
    assert(r[0] == q[0]);
    assert forall|i: int| 0 <= i < r.len() implies climbs(
        kin,
        (#[trigger] r[i]).0,
        r[0].0,
        r[i].1,
    ) by {
        if i < n {
            assert(r[i] == q[i]);
        } else {
            assert(climbs(kin, q[k].0, q[0].0, q[k].1));
            assert((x.1 - 1) as nat == q[k].1);
        }
    }
    assert forall|i: int| 1 <= i < n + 1 implies parent_of(kin, (#[trigger] r[i]).0) != Some(
        x.0,
    ) by {
        assert(hangs(kin, r.take(i), r[i]));
        let m = choose|m: int| #[trigger] hangs_at(kin, r.take(i), r[i], m);
        assert(r.take(i)[m] == r[m]);
        assert(r[m].0 != r[n].0);
    }
    assert forall|j: int| 0 <= j < st.len() implies parent_of(kin, (#[trigger] st[j]).0) != Some(
        x.0,
    ) by {
        assert(hangs(kin, q, st[j]));
        let m = choose|m: int| #[trigger] hangs_at(kin, q, st[j], m);
        assert(q[m].0 != x.0);
    }
}

/// The children of the new node wait on top of the others.
proof fn lemma_wait(kin: Seq<SessionHeader>, q: Seq<Node>, st: Seq<Node>, ks: Seq<Seq<char>>)
    requires
        st.len() > 0,
        parents_first(kin, q),
        waiting(kin, q, st),
        complete(kin, q, st),
        !has_node(q, st.last().0),
        lex_increasing(ks),
        lists_children(kin, ks, st.last().0),
    ensures
        waiting(kin, q.push(st.last()), st.drop_last() + kids_down(ks, st.last().1 + 1)),
        complete(kin, q.push(st.last()), st.drop_last() + kids_down(ks, st.last().1 + 1)),
{
    let x = st.last();
    let r = q.push(x);
    let n = q.len() as int;
    let t = st.drop_last();
    let d = kids_down(ks, x.1 + 1);
    let w = t + d;
    lemma_visit(kin, q, st);
    assert forall|j: int| t.len() <= j < w.len() implies (#[trigger] w[j]) == (
        ks[ks.len() - 1 - (j - t.len())],
        x.1 + 1,
    ) && is_child(kin, w[j].0, x.0) by {
        assert(w[j] == d[j - t.len()]);
        assert(ks.contains(w[j].0));
    }
    assert forall|j: int| 0 <= j < w.len() implies hangs(kin, r, #[trigger] w[j]) by {
        if j < t.len() {
            assert(w[j] == st[j]);
            assert(hangs(kin, q, st[j]));
            let k = choose|k: int| #[trigger] hangs_at(kin, q, st[j], k);
            assert(st[j].1 <= st[st.len() - 1].1);
            assert(hangs_at(kin, r, w[j], k)) by {
                assert forall|m: int| k < m < r.len() implies (#[trigger] r[m]).1 >= w[j].1 by {
                    if m < n {
                        assert(r[m] == q[m]);
                    }
                }
            }
        } else {
            assert(r[n] == x);
            assert(hangs_at(kin, r, w[j], n));
        }
    }
    assert forall|i: int, j: int| 0 <= i < j < w.len() implies (#[trigger] w[i]).1 <= (
    #[trigger] w[j]).1 by {
        if i < t.len() {
            assert(w[i] == st[i]);
            if j < t.len() {
                assert(w[j] == st[j]);
            } else {
                assert(st[i].1 <= st[st.len() - 1].1);
            }
        }
    }
    assert forall|i: int, j: int|
        0 <= i < j < w.len() && parent_of(kin, (#[trigger] w[i]).0) == parent_of(
            kin,
            (#[trigger] w[j]).0,
        ) implies lex_lt(w[j].0, w[i].0) by {
        if i < t.len() {
            assert(w[i] == st[i]);
            if j < t.len() {
                assert(w[j] == st[j]);
            }
        }
    }
    assert forall|i: int, j: int|
        1 <= i < r.len() && 0 <= j < w.len() && parent_of(kin, (#[trigger] r[i]).0) == parent_of(
            kin,
            (#[trigger] w[j]).0,
        ) implies lex_lt(r[i].0, w[j].0) by {
        if j < t.len() {
            assert(w[j] == st[j]);
            if i < n {
                assert(r[i] == q[i]);
            } else {
                assert(r[i] == st[st.len() - 1]);
            }
        }
    }
    assert forall|k: int, c: Seq<char>|
        #![trigger is_child(kin, c, r[k].0)]
        0 <= k < r.len() && is_child(kin, c, r[k].0) implies has_node(r, c) || has_node(w, c) by {
        if k < n {
            assert(r[k] == q[k]);
            assert(is_child(kin, c, q[k].0));
            if has_node(q, c) {
                let i = choose|i: int| 0 <= i < q.len() && (#[trigger] q[i]).0 == c;
                assert(r[i].0 == c);
            } else {
                let i = choose|i: int| 0 <= i < st.len() && (#[trigger] st[i]).0 == c;
                if i < t.len() {
                    assert(w[i].0 == c);
                } else {
                    assert(r[n].0 == c);
                }
            }
        } else {
            assert(ks.contains(c));
            let i = choose|i: int| 0 <= i < ks.len() && ks[i] == c;
            let j = t.len() + (ks.len() - 1 - i);
            assert(w[j].0 == c);
        }
    }
}

/// A tree that holds the children of all its nodes holds all that is below its root.
proof fn lemma_all_below(kin: Seq<SessionHeader>, q: Seq<Node>, x: Seq<char>, k: nat)
    requires
        parents_first(kin, q),
        complete(kin, q, Seq::empty()),
        climbs(kin, x, q[0].0, k),
    ensures
        has_node(q, x),
    decreases k,
{
    if k == 0 {
        assert(q[0].0 == x);
    } else {
        let p = parent_of(kin, x)->0;
        lemma_all_below(kin, q, p, (k - 1) as nat);
        let i = choose|i: int| 0 <= i < q.len() && (#[trigger] q[i]).0 == p;
        assert(is_child(kin, x, q[i].0));
        let none = Seq::<Node>::empty();
        assert(!has_node(none, x));
    }
}

/// No node lies deeper than its place, and there are no more nodes than sessions, but for
/// the root.
proof fn lemma_tree_bounds(kin: Seq<SessionHeader>, q: Seq<Node>)
    requires
        parents_first(kin, q),
    ensures
        forall|i: int| 0 <= i < q.len() ==> (#[trigger] q[i]).1 <= i,
        q.len() <= kin.len() + 1,
{
    assert forall|i: int| 0 <= i < q.len() implies (#[trigger] q[i]).1 <= i by {
        lemma_depth(kin, q, i);
    }
    let ids = Seq::new((q.len() - 1) as nat, |i: int| q[i + 1].0);
    assert forall|i: int| 0 <= i < ids.len() implies exists_id(kin, #[trigger] ids[i]) by {
        assert(hangs(kin, q.take(i + 1), q[i + 1]));
    }
    assert(ids.no_duplicates());
    lemma_distinct_bound(kin, ids);
}

proof fn lemma_depth(kin: Seq<SessionHeader>, q: Seq<Node>, i: int)
    requires
        parents_first(kin, q),
        0 <= i < q.len(),
    ensures
        q[i].1 <= i,
    decreases i,
{
    if i > 0 {
        let t = q.take(i);
        assert(hangs(kin, t, q[i]));
        let k = choose|k: int| #[trigger] hangs_at(kin, t, q[i], k);
        assert(t[k] == q[k]);
        lemma_depth(kin, q, k);
    }
}

/// The nodes on the stack.
spec fn stack_nodes(st: Seq<(String, usize)>) -> Seq<Node> {
    st.map_values(|n: (String, usize)| (n.0@, n.1 as nat))
}

/// Puts the children of a node on the stack, the last of them first.
fn push_children(st: &mut Vec<(String, usize)>, kids: &[String], depth: usize)
    ensures
        stack_nodes(final(st)@) == stack_nodes(old(st)@) + kids_down(views(kids@), depth as nat),
{
    let ghost ks = views(kids@);
    let ghost s0 = stack_nodes(st@);
    let mut k: usize = kids.len();
    while k > 0
        invariant
            k <= kids@.len(),
            ks == views(kids@),
            stack_nodes(st@) == s0 + kids_down(ks, depth as nat).take(ks.len() - k),
        decreases k,
    {
        k -= 1;
        let ghost before = st@;
        st.push((kids[k].clone(), depth));
        proof {
            let d = kids_down(ks, depth as nat);
            let m = ks.len() - k - 1;
            assert(d.take(m + 1) =~= d.take(m).push(d[m]));
            assert(stack_nodes(st@) =~= stack_nodes(before).push((ks[k as int], depth as nat)));
            assert(stack_nodes(st@) =~= s0 + d.take(m + 1));
        }
    }
    proof {
        let d = kids_down(ks, depth as nat);
        assert(d.take(ks.len() as int) =~= d);
    }
}

/// The row of a session.
fn row_for(
    sessions: &[SessionHeader],
    by_id: &IdMap<usize>,
    kin: &Lineage,
    scan: &ScanResult,
    id: &String,
    depth: usize,
) -> (r: SubRow)
    requires
        scan.per_composer.wf(),
        by_id.wf(),
        forall|x: Seq<char>| #[trigger] by_id@.contains_key(x) <==> exists_id(sessions@, x),
        forall|x: Seq<char>| #[trigger]
            by_id@.contains_key(x) ==> by_id@[x] == header_of(sessions@, x),
    ensures
        is_sub_row(r, sessions@, kin.sessions(), *scan),
        r.composer_id@ == id@,
        r.depth == depth,
{
    let name = match by_id.get(id.as_str()) {
        Some(i) => {
            let i: usize = *i;
            proof {
                lemma_header_of(sessions@, id@);
            }
            sessions[i].name.clone()
        },
        None => None,
    };
    SubRow {
        name,
        bytes: sized(scan, stat_bytes(scan, id.as_str())),
        is_dangling: kin.is_dangling(id.as_str()),
        depth,
        composer_id: id.clone(),
    }
}

/// The rows of the tree below `root`.
#[verifier::rlimit(40)]
pub fn expand(sessions: &[SessionHeader], kin: &Lineage, scan: &ScanResult, root: &str) -> (r: Vec<
    SubRow,
>)
    requires
        scan.per_composer.wf(),
    ensures
        is_tree(kin.sessions(), root@, nodes(r@)),
        forall|i: int|
            0 <= i < r@.len() ==> is_sub_row(#[trigger] r@[i], sessions@, kin.sessions(), *scan),
{
    let ghost ks = kin.sessions();
    let ghost top: Node = (root@, 0nat);
    let by_id = collect_by_id(sessions);
    let mut out: Vec<SubRow> = Vec::new();
    let mut seen = NameSet::new();
    seen.insert(root.to_owned());
    let mut st: Vec<(String, usize)> = Vec::new();
    let first = kin.children_of(root);
    push_children(&mut st, first, 1);
    let ghost mut q: Seq<Node> = seq![top];
    proof {
        let fs = views(first@);
        let w = stack_nodes(st@);
        assert(w =~= kids_down(fs, 1));
        assert(q =~= seq![top] + nodes(out@));
        assert(climbs(ks, q[0].0, q[0].0, 0));
        assert forall|j: int| 0 <= j < w.len() implies hangs(ks, q, #[trigger] w[j]) by {
            assert(fs.contains(w[j].0));
            assert(hangs_at(ks, q, w[j], 0));
        }
        assert forall|k: int, c: Seq<char>|
            #![trigger is_child(ks, c, q[k].0)]
            0 <= k < q.len() && is_child(ks, c, q[k].0) implies has_node(q, c) || has_node(
            w,
            c,
        ) by {
            assert(fs.contains(c));
            let i = choose|i: int| 0 <= i < fs.len() && fs[i] == c;
            assert(w[fs.len() - 1 - i].0 == c);
        }
        assert(seen.order() =~= q.map_values(|n: Node| n.0));
    }
    while st.len() > 0
        invariant
            ks == kin.sessions(),
            top == (root@, 0nat),
            scan.per_composer.wf(),
            by_id.wf(),
            forall|x: Seq<char>| #[trigger] by_id@.contains_key(x) <==> exists_id(sessions@, x),
            forall|x: Seq<char>| #[trigger]
                by_id@.contains_key(x) ==> by_id@[x] == header_of(sessions@, x),
            q == seq![top] + nodes(out@),
            q.len() <= ks.len() + 1,
            parents_first(ks, q),
            waiting(ks, q, stack_nodes(st@)),
            complete(ks, q, stack_nodes(st@)),
            seen.order() == q.map_values(|n: Node| n.0),
            forall|i: int|
                0 <= i < out@.len() ==> is_sub_row(#[trigger] out@[i], sessions@, ks, *scan),
        decreases ks.len() + 1 - q.len(), st@.len(),
    {
        let ghost w = stack_nodes(st@);
        let (id, depth): (String, usize) = match st.pop() {
            Some(n) => n,
            None => {
                return out;
            },
        };
        let ghost x: Node = (id@, depth as nat);
        let ghost ids = seen.order();
        proof {
            assert(w.last() == x);
            assert(stack_nodes(st@) =~= w.drop_last());
        }
        let _: usize = seen.len();
        let fresh = seen.insert(id.clone());
        proof {
            assert(ids.to_set().contains(id@) <==> !fresh);
            if has_node(q, id@) {
                let i = choose|i: int| 0 <= i < q.len() && (#[trigger] q[i]).0 == id@;
                assert(ids[i] == id@);
            }
            if ids.contains(id@) {
                let i = choose|i: int| 0 <= i < ids.len() && ids[i] == id@;
                assert(q[i].0 == id@);
            }
            assert(fresh == !has_node(q, id@));
        }
        if !fresh {
            proof {
                lemma_skip(ks, q, w);
            }
            continue;
        }
        let _: usize = seen.len();
        let kids = kin.children_of(id.as_str());
        let row = row_for(sessions, &by_id, kin, scan, &id, depth);
        let ghost before = out@;
        out.push(row);
        proof {
            lemma_visit(ks, q, w);
            lemma_wait(ks, q, w, views(kids@));
            let q1 = q.push(x);
            lemma_tree_bounds(ks, q1);
            assert(q1[q.len() as int].1 <= q.len());
            assert(nodes(out@) =~= nodes(before).push(x));
            assert(q1 =~= seq![top] + nodes(out@));
            assert(seen.order() =~= q1.map_values(|n: Node| n.0));
            q = q1;
        }
        push_children(&mut st, kids, depth + 1);
    }
    proof {
        let t = nodes(out@);
        let w = stack_nodes(st@);
        assert(w =~= Seq::<Node>::empty());
        assert forall|x: Seq<char>| #[trigger] has_node(t, x) <==> is_descendant(ks, x, root@) by {
            if has_node(t, x) {
                let i = choose|i: int| 0 <= i < t.len() && (#[trigger] t[i]).0 == x;
                assert(q[i + 1] == t[i]);
                assert(q[0].0 != q[i + 1].0);
                assert(climbs(ks, q[i + 1].0, q[0].0, q[i + 1].1));
            }
            if is_descendant(ks, x, root@) {
                let k = choose|k: nat| #[trigger] climbs(ks, x, root@, k);
                lemma_all_below(ks, q, x, k);
                let i = choose|i: int| 0 <= i < q.len() && (#[trigger] q[i]).0 == x;
                assert(t[i - 1].0 == x);
            }
        }
    }
    out
}

/// The tree has a row for each session below its root: as many as the list says.
pub proof fn lemma_tree_size(kin: Seq<SessionHeader>, root: Seq<char>, t: Seq<Node>)
    requires
        is_tree(kin, root, t),
    ensures
        below(kin, root).finite(),
        t.len() == below(kin, root).len(),
{
    let q = seq![(root, 0nat)] + t;
    let ids = t.map_values(|n: Node| n.0);
    assert forall|i: int, j: int| 0 <= i < ids.len() && 0 <= j < ids.len() && i != j implies ids[i]
        != ids[j] by {
        assert(q[i + 1] == t[i]);
        assert(q[j + 1] == t[j]);
        if i < j {
            assert(q[i + 1].0 != q[j + 1].0);
        } else {
            assert(q[j + 1].0 != q[i + 1].0);
        }
    }
    assert forall|x: Seq<char>| ids.to_set().contains(x) <==> below(kin, root).contains(x) by {
        if ids.contains(x) {
            let i = choose|i: int| 0 <= i < ids.len() && ids[i] == x;
            assert(t[i].0 == x);
            assert(has_node(t, x));
        }
        if has_node(t, x) {
            let i = choose|i: int| 0 <= i < t.len() && (#[trigger] t[i]).0 == x;
            assert(ids[i] == x);
        }
        assert(has_node(t, x) <==> is_descendant(kin, x, root));
    }
    assert(ids.to_set() =~= below(kin, root));
    ids.unique_seq_to_set();
}

/// A row of the tree shows the name in the last header of its session, what its rows weigh,
/// and whether it dangles.
pub proof fn lemma_sub_row(
    r: SubRow,
    s: Seq<SessionHeader>,
    kin: Seq<SessionHeader>,
    scan: ScanResult,
    i: int,
)
    requires
        is_sub_row(r, s, kin, scan),
        crate::lineage::is_last_of(s, i, r.composer_id@),
    ensures
        opt_text(r.name) == opt_text(s[i].name),
        scan.sized && scan.per_composer@.contains_key(r.composer_id@) ==> r.bytes == Some(
            scan.per_composer@[r.composer_id@].bytes,
        ),
        scan.sized && !scan.per_composer@.contains_key(r.composer_id@) ==> r.bytes == Some(0u64),
        !scan.sized ==> r.bytes is None,
        r.is_dangling <==> dangling(kin, r.composer_id@),
{
    crate::lineage::lemma_last_of(s, i, r.composer_id@);
}

/// Every row of a tree stands one level below its parent, which comes before it, or is the
/// root.
pub proof fn lemma_tree_levels(kin: Seq<SessionHeader>, root: Seq<char>, t: Seq<Node>, i: int)
    requires
        is_tree(kin, root, t),
        0 <= i < t.len(),
    ensures
        t[i].1 >= 1,
        parent_of(kin, t[i].0) is Some,
        t[i].1 == 1 ==> parent_of(kin, t[i].0) == Some(root),
        t[i].1 > 1 ==> exists|k: int|
            0 <= k < i && (#[trigger] t[k]).0 == parent_of(kin, t[i].0)->0 && t[k].1 + 1 == t[i].1,
{
    let q = seq![(root, 0nat)] + t;
    assert(q[i + 1] == t[i]);
    assert(hangs(kin, q.take(i + 1), q[i + 1]));
    let k = choose|k: int| #[trigger] hangs_at(kin, q.take(i + 1), q[i + 1], k);
    assert(q.take(i + 1)[k] == q[k]);
    if k > 0 {
        assert(q[k] == t[k - 1]);
        assert(hangs(kin, q.take(k), q[k]));
        let m = choose|m: int| #[trigger] hangs_at(kin, q.take(k), q[k], m);
        assert(q[k].1 >= 1);
    }
}

} // verus!
