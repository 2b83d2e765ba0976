//! Which session belongs under which.
//!
//! A main session is one without a parent link. A child names its parent, or, in the
//! best-of-N case, its parent claims it. Only a true subagent whose chain of parents
//! is broken counts as dangling and may be swept; whatever else cannot be placed is
//! kept.

use rustc_hash::FxHashSet;
use vstd::prelude::*;

use crate::fx::{fx_names, names_add, names_new, IdMap};
use crate::headers::SessionHeader;
use crate::text::{
    lemma_permutation, lemma_push_contains, lemma_sorted_distinct, lemma_take_contains,
    lex_increasing, lex_lt, same, sort_texts, views,
};
use crate::types::lemma_to_set_push;

verus! {

broadcast use vstd::string::group_string_axioms;

/// Where a session stands among the others.
#[derive(Debug, Clone, Copy, PartialEq, Eq, Structural)]
pub enum Attach {
    /// No parent link: the user opened it.
    Main,
    /// Its chain of parents leads to a session that is kept.
    Attached,
    /// A true subagent whose chain of parents is broken.
    Dangling,
    /// It cannot be placed, and is kept.
    Unattributable,
}

/// Some session has this id.
pub open spec fn exists_id(s: Seq<SessionHeader>, x: Seq<char>) -> bool {
    exists|i: int| 0 <= i < s.len() && #[trigger] s[i].composer_id@ == x
}

/// The place of the last session with this id, or -1.
pub open spec fn header_of(s: Seq<SessionHeader>, x: Seq<char>) -> int
    decreases s.len(),
{
    if s.len() == 0 {
        -1
    } else if s.last().composer_id@ == x {
        s.len() - 1
    } else {
        header_of(s.drop_last(), x)
    }
}

/// The parent that the last session with this id names, among those that name one.
pub open spec fn own_parent(s: Seq<SessionHeader>, x: Seq<char>) -> Option<Seq<char>>
    decreases s.len(),
{
    if s.len() == 0 {
        None
    } else if s.last().composer_id@ == x && s.last().parent_composer_id is Some {
        Some(s.last().parent_composer_id->0@)
    } else {
        own_parent(s.drop_last(), x)
    }
}

/// The first session that claims this id as its own.
pub open spec fn claimed_parent(s: Seq<SessionHeader>, x: Seq<char>) -> Option<Seq<char>>
    decreases s.len(),
{
    if s.len() == 0 {
        None
    } else {
        match claimed_parent(s.drop_last(), x) {
            Some(p) => Some(p),
            None => if views(s.last().sub_composer_ids@).contains(x) {
                Some(s.last().composer_id@)
            } else {
                None
            },
        }
    }
}

/// The parent of an id: what the child names goes before what a parent claims.
pub open spec fn parent_of(s: Seq<SessionHeader>, x: Seq<char>) -> Option<Seq<char>> {
    match own_parent(s, x) {
        Some(p) => Some(p),
        None => claimed_parent(s, x),
    }
}

/// The parent of an id, where that parent is a session.
pub open spec fn real_parent(s: Seq<SessionHeader>, x: Seq<char>) -> Option<Seq<char>> {
    match parent_of(s, x) {
        Some(p) => if exists_id(s, p) {
            Some(p)
        } else {
            None
        },
        None => None,
    }
}

/// The ancestor `k` steps up.
pub open spec fn up(s: Seq<SessionHeader>, x: Seq<char>, k: nat) -> Option<Seq<char>>
    decreases k,
{
    if k == 0 {
        Some(x)
    } else {
        match real_parent(s, x) {
            Some(p) => up(s, p, (k - 1) as nat),
            None => None,
        }
    }
}

/// The id is its own ancestor.
pub open spec fn on_cycle(s: Seq<SessionHeader>, x: Seq<char>) -> bool {
    exists|k: nat| k > 0 && #[trigger] up(s, x, k) == Some(x)
}

/// The session is a true subagent.
pub open spec fn is_sub(s: Seq<SessionHeader>, x: Seq<char>) -> bool {
    s[header_of(s, x)].is_subagent
}

/// A parent that is no session is found within `k` steps up, through true subagents only.
pub open spec fn dangling_within(s: Seq<SessionHeader>, x: Seq<char>, k: nat) -> bool
    decreases k,
{
    is_sub(s, x) && match parent_of(s, x) {
        None => false,
        Some(p) => !exists_id(s, p) || (k > 0 && dangling_within(s, p, (k - 1) as nat)),
    }
}

/// A true subagent under a parent that is no session, or under a dangling one.
pub open spec fn dangling(s: Seq<SessionHeader>, x: Seq<char>) -> bool {
    exists_id(s, x) && exists|k: nat| #[trigger] dangling_within(s, x, k)
}

/// Where an id stands.
pub open spec fn attach_of(s: Seq<SessionHeader>, x: Seq<char>) -> Attach {
    if !exists_id(s, x) {
        Attach::Main
    } else if dangling(s, x) {
        Attach::Dangling
    } else if on_cycle(s, x) {
        Attach::Unattributable
    } else {
        match parent_of(s, x) {
            None => if is_sub(s, x) {
                Attach::Unattributable
            } else {
                Attach::Main
            },
            Some(p) => if !exists_id(s, p) || dangling(s, p) {
                Attach::Unattributable
            } else {
                Attach::Attached
            },
        }
    }
}

/// `c` is a session and `p` is its parent.
pub open spec fn is_child(s: Seq<SessionHeader>, c: Seq<char>, p: Seq<char>) -> bool {
    exists_id(s, c) && parent_of(s, c) == Some(p)
}

/// `k` parent links lead from `y` to `x`.
pub open spec fn climbs(s: Seq<SessionHeader>, y: Seq<char>, x: Seq<char>, k: nat) -> bool
    decreases k,
{
    if k == 0 {
        y == x
    } else {
        exists_id(s, y) && match parent_of(s, y) {
            Some(p) => climbs(s, p, x, (k - 1) as nat),
            None => false,
        }
    }
}

/// Parent links lead from `y` to `x`, and the two differ.
pub open spec fn is_descendant(s: Seq<SessionHeader>, y: Seq<char>, x: Seq<char>) -> bool {
    y != x && exists|k: nat| #[trigger] climbs(s, y, x, k)
}

/// The ids of a sequence of sessions.
pub open spec fn ids_of(s: Seq<SessionHeader>) -> Seq<Seq<char>> {
    s.map_values(|h: SessionHeader| h.composer_id@)
}

proof fn lemma_exists_ids(s: Seq<SessionHeader>, x: Seq<char>)
    ensures
        exists_id(s, x) <==> ids_of(s).contains(x),
{
    if exists_id(s, x) {
        let i = choose|i: int| 0 <= i < s.len() && #[trigger] s[i].composer_id@ == x;
        assert(ids_of(s)[i] == x);
    }
    if ids_of(s).contains(x) {
        let i = choose|i: int| 0 <= i < ids_of(s).len() && ids_of(s)[i] == x;
        assert(s[i].composer_id@ == x);
    }
}

/// There are no more different ids than sessions.
pub(crate) proof fn lemma_distinct_bound(s: Seq<SessionHeader>, q: Seq<Seq<char>>)
    requires
        q.no_duplicates(),
        forall|i: int| 0 <= i < q.len() ==> exists_id(s, #[trigger] q[i]),
    ensures
        q.len() <= s.len(),
{
    let ids = ids_of(s);
    q.unique_seq_to_set();
    ids.lemma_cardinality_of_set();
    assert(q.to_set().subset_of(ids.to_set())) by {
        assert forall|x: Seq<char>| q.to_set().contains(x) implies ids.to_set().contains(x) by {
            let i = choose|i: int| 0 <= i < q.len() && q[i] == x;
            lemma_exists_ids(s, q[i]);
        }
    }
    vstd::set_lib::lemma_len_subset(q.to_set(), ids.to_set());
}

pub proof fn lemma_header_of(s: Seq<SessionHeader>, x: Seq<char>)
    ensures
        exists_id(s, x) ==> 0 <= header_of(s, x) < s.len() && s[header_of(s, x)].composer_id@ == x,
        !exists_id(s, x) ==> header_of(s, x) == -1,
    decreases s.len(),
{
    if s.len() > 0 {
        let t = s.drop_last();
        lemma_header_of(t, x);
        if s.last().composer_id@ != x {
            if exists_id(s, x) {
                let i = choose|i: int| 0 <= i < s.len() && #[trigger] s[i].composer_id@ == x;
                assert(t[i].composer_id@ == x);
            }
            if exists_id(t, x) {
                let i = choose|i: int| 0 <= i < t.len() && #[trigger] t[i].composer_id@ == x;
                assert(s[i].composer_id@ == x);
            }
        } else {
            assert(s[s.len() - 1].composer_id@ == x);
        }
    }
}

/// What a step up and a number of steps up lead to together.
proof fn lemma_up_add(s: Seq<SessionHeader>, x: Seq<char>, a: nat, b: nat)
    requires
        up(s, x, a) is Some,
    ensures
        up(s, x, a + b) == up(s, up(s, x, a)->0, b),
    decreases a,
{
    if a > 0 {
        let p = real_parent(s, x)->0;
        lemma_up_add(s, p, (a - 1) as nat, b);
        assert((a + b - 1) as nat == (a - 1) as nat + b);
    }
}

/// On a cycle nothing dangles.
proof fn lemma_cycle_not_dangling(s: Seq<SessionHeader>, x: Seq<char>, m: nat, k: nat)
    requires
        m > 0,
        up(s, x, m) == Some(x),
    ensures
        !dangling_within(s, x, k),
    decreases k,
{
    let p = real_parent(s, x)->0;
    lemma_up_add(s, x, m, 1);
    assert(up(s, x, 1) == up(s, p, 0));
    assert(up(s, x, m + 1) == up(s, p, m));
    if k > 0 {
        lemma_cycle_not_dangling(s, p, m, (k - 1) as nat);
    }
}

/// A set of ids that holds the parent of each of its members holds every ancestor.
pub open spec fn closed_up(s: Seq<SessionHeader>, d: Set<Seq<char>>) -> bool {
    forall|x: Seq<char>| #[trigger]
        d.contains(x) ==> (real_parent(s, x) matches Some(p) ==> d.contains(p))
}

proof fn lemma_closed_up(s: Seq<SessionHeader>, d: Set<Seq<char>>, x: Seq<char>, k: nat)
    requires
        closed_up(s, d),
        d.contains(x),
        up(s, x, k) is Some,
    ensures
        d.contains(up(s, x, k)->0),
    decreases k,
{
    if k > 0 {
        lemma_closed_up(s, d, real_parent(s, x)->0, (k - 1) as nat);
    }
}

/// What hangs below such a set is on no cycle.
proof fn lemma_below_not_on_cycle(s: Seq<SessionHeader>, d: Set<Seq<char>>, x: Seq<char>)
    requires
        closed_up(s, d),
        !d.contains(x),
        real_parent(s, x) is Some,
        d.contains(real_parent(s, x)->0),
    ensures
        !on_cycle(s, x),
{
    if on_cycle(s, x) {
        let k = choose|k: nat| k > 0 && #[trigger] up(s, x, k) == Some(x);
        lemma_closed_up(s, d, real_parent(s, x)->0, (k - 1) as nat);
    }
}

/// The standing of a child, from that of its parent and its own kind.
pub open spec fn child_standing(parent: Attach, sub: bool) -> Attach {
    match parent {
        Attach::Dangling => if sub {
            Attach::Dangling
        } else {
            Attach::Unattributable
        },
        _ => Attach::Attached,
    }
}

proof fn lemma_child_standing(s: Seq<SessionHeader>, x: Seq<char>)
    requires
        exists_id(s, x),
        real_parent(s, x) is Some,
        !on_cycle(s, x),
    ensures
        attach_of(s, x) == child_standing(attach_of(s, real_parent(s, x)->0), is_sub(s, x)),
{
    let p = real_parent(s, x)->0;
    if dangling(s, p) {
        let k = choose|k: nat| #[trigger] dangling_within(s, p, k);
        if is_sub(s, x) {
            assert(dangling_within(s, x, k + 1));
        } else {
            assert(!dangling(s, x)) by {
                assert forall|j: nat| !#[trigger] dangling_within(s, x, j) by {}
            }
        }
    } else {
        assert(!dangling(s, x)) by {
            assert forall|j: nat| !#[trigger] dangling_within(s, x, j) by {
                if dangling_within(s, x, j) {
                    assert(dangling_within(s, p, (j - 1) as nat));
                }
            }
        }
    }
}

/// At the top of a chain the session's own kind and link decide.
proof fn lemma_top_standing(s: Seq<SessionHeader>, x: Seq<char>)
    requires
        exists_id(s, x),
        real_parent(s, x) is None,
    ensures
        attach_of(s, x) == (match parent_of(s, x) {
            None => if is_sub(s, x) {
                Attach::Unattributable
            } else {
                Attach::Main
            },
            Some(_) => if is_sub(s, x) {
                Attach::Dangling
            } else {
                Attach::Unattributable
            },
        }),
{
    assert(!on_cycle(s, x)) by {
        assert forall|k: nat| k > 0 implies #[trigger] up(s, x, k) is None by {}
    }
    if parent_of(s, x) is Some {
        assert(dangling_within(s, x, 0) == is_sub(s, x));
        if !is_sub(s, x) {
            assert forall|j: nat| !#[trigger] dangling_within(s, x, j) by {}
        }
    } else {
        assert forall|j: nat| !#[trigger] dangling_within(s, x, j) by {}
    }
}

/// A descendant is a session.
pub proof fn lemma_descendant_exists(s: Seq<SessionHeader>, y: Seq<char>, x: Seq<char>)
    requires
        is_descendant(s, y, x),
    ensures
        exists_id(s, y),
{
    let k = choose|k: nat| #[trigger] climbs(s, y, x, k);
    assert(k > 0);
}

/// The tables that classifying a session reads.
struct Links {
    /// The place of the last session with each id.
    by_id: IdMap<usize>,
    /// The parent of each id that has one.
    parent: IdMap<String>,
}

impl Links {
    spec fn wf(&self, s: Seq<SessionHeader>) -> bool {
        &&& self.by_id.wf()
        &&& self.parent.wf()
        &&& forall|x: Seq<char>| #[trigger] self.by_id@.contains_key(x) <==> exists_id(s, x)
        &&& forall|x: Seq<char>| #[trigger]
            self.by_id@.contains_key(x) ==> self.by_id@[x] == header_of(s, x)
        &&& forall|x: Seq<char>| #[trigger]
            self.parent@.contains_key(x) <==> parent_of(s, x) is Some
        &&& forall|x: Seq<char>| #[trigger]
            self.parent@.contains_key(x) ==> self.parent@[x]@ == parent_of(s, x)->0
    }

    fn is_sub(&self, sessions: &[SessionHeader], x: &str) -> (r: bool)
        requires
            self.wf(sessions@),
            exists_id(sessions@, x@),
        ensures
            r == is_sub(sessions@, x@),
    {
        proof {
            lemma_header_of(sessions@, x@);
            assert(self.by_id@.contains_key(x@));
        }
        match self.by_id.get(x) {
            Some(i) => sessions[*i].is_subagent,
            None => false,
        }
    }
}

proof fn lemma_take_last(s: Seq<SessionHeader>, i: int)
    requires
        0 <= i < s.len(),
    ensures
        s.take(i + 1).drop_last() == s.take(i),
        s.take(i + 1).last() == s[i],
{
    assert(s.take(i + 1).drop_last() =~= s.take(i));
}

pub(crate) fn collect_by_id(sessions: &[SessionHeader]) -> (m: IdMap<usize>)
    ensures
        m.wf(),
        forall|x: Seq<char>| #[trigger] m@.contains_key(x) <==> exists_id(sessions@, x),
        forall|x: Seq<char>| #[trigger] m@.contains_key(x) ==> m@[x] == header_of(sessions@, x),
{
    let mut m: IdMap<usize> = IdMap::new();
    let mut i: usize = 0;
    while i < sessions.len()
        invariant
            i <= sessions@.len(),
            m.wf(),
            forall|x: Seq<char>| #[trigger]
                m@.contains_key(x) <==> header_of(sessions@.take(i as int), x) >= 0,
            forall|x: Seq<char>| #[trigger]
                m@.contains_key(x) ==> m@[x] == header_of(sessions@.take(i as int), x),
        decreases sessions@.len() - i,
    {
        m.insert(sessions[i].composer_id.clone(), i);
        proof {
            lemma_take_last(sessions@, i as int);
        }
        i += 1;
    }
    proof {
        assert(sessions@.take(i as int) =~= sessions@);
        assert forall|x: Seq<char>| #[trigger] m@.contains_key(x) <==> exists_id(sessions@, x) by {
            lemma_header_of(sessions@, x);
        }
    }
    m
}

fn collect_own(sessions: &[SessionHeader]) -> (m: IdMap<String>)
    ensures
        m.wf(),
        forall|x: Seq<char>| #[trigger] m@.contains_key(x) <==> own_parent(sessions@, x) is Some,
        forall|x: Seq<char>| #[trigger] m@.contains_key(x) ==> m@[x]@ == own_parent(sessions@, x)->0,
{
    let mut m: IdMap<String> = IdMap::new();
    let mut i: usize = 0;
    while i < sessions.len()
        invariant
            i <= sessions@.len(),
            m.wf(),
            forall|x: Seq<char>| #[trigger]
                m@.contains_key(x) <==> own_parent(sessions@.take(i as int), x) is Some,
            forall|x: Seq<char>| #[trigger]
                m@.contains_key(x) ==> m@[x]@ == own_parent(sessions@.take(i as int), x)->0,
        decreases sessions@.len() - i,
    {
        match &sessions[i].parent_composer_id {
            Some(p) => {
                m.insert(sessions[i].composer_id.clone(), p.clone());
            },
            None => {},
        }
        proof {
            lemma_take_last(sessions@, i as int);
        }
        i += 1;
    }
    assert(sessions@.take(i as int) =~= sessions@);
    m
}

/// What the sessions before the `i`-th claim, and the `i`-th with its first `j` claims.
spec fn claimed_so_far(s: Seq<SessionHeader>, i: int, j: int, x: Seq<char>) -> Option<Seq<char>> {
    match claimed_parent(s.take(i), x) {
        Some(p) => Some(p),
        None => if views(s[i].sub_composer_ids@).take(j).contains(x) {
            Some(s[i].composer_id@)
        } else {
            None
        },
    }
}

spec fn parent_so_far(s: Seq<SessionHeader>, i: int, j: int, x: Seq<char>) -> Option<Seq<char>> {
    match own_parent(s, x) {
        Some(p) => Some(p),
        None => claimed_so_far(s, i, j, x),
    }
}

fn collect_parents(sessions: &[SessionHeader]) -> (m: IdMap<String>)
    ensures
        m.wf(),
        forall|x: Seq<char>| #[trigger] m@.contains_key(x) <==> parent_of(sessions@, x) is Some,
        forall|x: Seq<char>| #[trigger] m@.contains_key(x) ==> m@[x]@ == parent_of(sessions@, x)->0,
{
    let mut m = collect_own(sessions);
    let mut i: usize = 0;
    while i < sessions.len()
        invariant
            i <= sessions@.len(),
            m.wf(),
            forall|x: Seq<char>|
                #![trigger m@.contains_key(x)]
                m@.contains_key(x) <==> own_parent(sessions@, x) is Some || claimed_parent(
                    sessions@.take(i as int),
                    x,
                ) is Some,
            forall|x: Seq<char>| #[trigger]
                m@.contains_key(x) ==> m@[x]@ == (match own_parent(sessions@, x) {
                    Some(p) => p,
                    None => claimed_parent(sessions@.take(i as int), x)->0,
                }),
        decreases sessions@.len() - i,
    {
        let subs = &sessions[i].sub_composer_ids;
        let mut j: usize = 0;
        while j < subs.len()
            invariant
                i < sessions@.len(),
                *subs == sessions@[i as int].sub_composer_ids,
                j <= subs@.len(),
                m.wf(),
                forall|x: Seq<char>| #[trigger]
                    m@.contains_key(x) <==> parent_so_far(sessions@, i as int, j as int, x) is Some,
                forall|x: Seq<char>| #[trigger]
                    m@.contains_key(x) ==> m@[x]@ == parent_so_far(
                        sessions@,
                        i as int,
                        j as int,
                        x,
                    )->0,
            decreases subs@.len() - j,
        {
            let ghost before = m@;
            if !m.contains(subs[j].as_str()) {
                m.insert(subs[j].clone(), sessions[i].composer_id.clone());
            }
            proof {
                let vs = views(subs@);
                let c = subs@[j as int]@;
                assert(vs.take(j + 1) =~= vs.take(j as int).push(c));
                assert forall|x: Seq<char>| vs.take(j + 1).contains(x) <==> vs.take(
                    j as int,
                ).contains(x) || x == c by {
                    if vs.take(j as int).contains(x) {
                        let k = choose|k: int| 0 <= k < j && vs.take(j as int)[k] == x;
                        assert(vs.take(j + 1)[k] == x);
                    }
                    assert(vs.take(j + 1)[j as int] == c);
                }
                assert(before.contains_key(c) <==> parent_so_far(
                    sessions@,
                    i as int,
                    j as int,
                    c,
                ) is Some);
            }
            j += 1;
        }
        proof {
            lemma_take_last(sessions@, i as int);
            assert(views(subs@).take(j as int) =~= views(subs@));
        }
        i += 1;
    }
    assert(sessions@.take(i as int) =~= sessions@);
    m
}

/// What has been classified so far is right, and holds every ancestor of what it holds.
spec fn memo_ok(s: Seq<SessionHeader>, memo: Map<Seq<char>, Attach>) -> bool {
    &&& forall|x: Seq<char>| #[trigger]
        memo.contains_key(x) ==> exists_id(s, x) && memo[x] == attach_of(s, x)
    &&& closed_up(s, memo.dom())
}

/// Each name of the path is the parent of the one before it.
spec fn is_path(s: Seq<SessionHeader>, q: Seq<Seq<char>>) -> bool {
    &&& forall|i: int| 0 <= i < q.len() ==> exists_id(s, #[trigger] q[i])
    &&& forall|i: int| #![trigger q[i]] 0 <= i < q.len() - 1 ==> real_parent(s, q[i]) == Some(q[i + 1])
}

proof fn lemma_path_up(s: Seq<SessionHeader>, q: Seq<Seq<char>>, i: int, j: int)
    requires
        is_path(s, q),
        0 <= i <= j < q.len(),
    ensures
        up(s, q[i], (j - i) as nat) == Some(q[j]),
    decreases j - i,
{
    if i < j {
        lemma_path_up(s, q, i + 1, j);
        assert(real_parent(s, q[i]) == Some(q[i + 1]));
    }
}

/// A path that leads back to one of its own names has a cycle from there on.
proof fn lemma_path_cycle(s: Seq<SessionHeader>, q: Seq<Seq<char>>, pos: int, i: int)
    requires
        is_path(s, q),
        0 <= pos <= i < q.len(),
        real_parent(s, q.last()) == Some(q[pos]),
    ensures
        on_cycle(s, q[i]),
        attach_of(s, q[i]) == Attach::Unattributable,
{
    let n = q.len() - 1;
    lemma_path_up(s, q, i, n);
    lemma_up_add(s, q[i], (n - i) as nat, 1);
    assert(up(s, q[n], 1) == up(s, q[pos], 0));
    let a = (n - i) as nat + 1;
    assert(up(s, q[i], a) == Some(q[pos]));
    lemma_path_up(s, q, pos, i);
    lemma_up_add(s, q[i], a, (i - pos) as nat);
    let m = a + (i - pos) as nat;
    assert(up(s, q[i], m) == Some(q[i]));
    assert(!dangling(s, q[i])) by {
        assert forall|k: nat| !#[trigger] dangling_within(s, q[i], k) by {
            lemma_cycle_not_dangling(s, q[i], m, k);
        }
    }
}

/// Where `x` stands on the path, if it does.
fn position(path: &Vec<String>, x: &str) -> (r: Option<usize>)
    ensures
        r matches Some(i) ==> i < path@.len() && path@[i as int]@ == x@,
        r is None ==> !views(path@).contains(x@),
{
    let mut i: usize = 0;
    while i < path.len()
        invariant
            i <= path@.len(),
            forall|j: int| 0 <= j < i ==> views(path@)[j] != x@,
        decreases path@.len() - i,
    {
        if same(path[i].as_str(), x) {
            return Some(i);
        }
        i += 1;
    }
    None
}

/// How the climb along the parents ended.
enum Top {
    /// The last name of the path has this standing by itself.
    OwnResult(Attach),
    /// The parent of the last name was classified before, with this standing.
    FromAbove(Attach),
    /// The parent of the last name stands on the path itself.
    Cycle(usize),
}

spec fn top_ok(
    s: Seq<SessionHeader>,
    memo: Map<Seq<char>, Attach>,
    q: Seq<Seq<char>>,
    top: Top,
) -> bool {
    match top {
        Top::OwnResult(a) => q.len() > 0 && real_parent(s, q.last()) is None && attach_of(
            s,
            q.last(),
        ) == a,
        Top::FromAbove(a) => q.len() > 0 && real_parent(s, q.last()) is Some && memo.contains_key(
            real_parent(s, q.last())->0,
        ) && attach_of(s, real_parent(s, q.last())->0) == a,
        Top::Cycle(pos) => pos < q.len() && real_parent(s, q.last()) == Some(q[pos as int]),
    }
}

/// Climbs from `id` along the parents as far as nothing is classified.
fn climb(sessions: &[SessionHeader], links: &Links, id: &str, memo: &IdMap<Attach>) -> (r: (
    Vec<String>,
    Top,
))
    requires
        links.wf(sessions@),
        memo.wf(),
        memo_ok(sessions@, memo@),
        exists_id(sessions@, id@),
        !memo@.contains_key(id@),
    ensures
        is_path(sessions@, views(r.0@)),
        views(r.0@).no_duplicates(),
        r.0@.len() > 0,
        views(r.0@)[0] == id@,
        forall|i: int| 0 <= i < r.0@.len() ==> !memo@.contains_key(#[trigger] views(r.0@)[i]),
        top_ok(sessions@, memo@, views(r.0@), r.1),
{
    let mut path: Vec<String> = Vec::new();
    let mut cur: String = id.to_owned();
    loop
        invariant
            links.wf(sessions@),
            memo.wf(),
            memo_ok(sessions@, memo@),
            exists_id(sessions@, cur@),
            is_path(sessions@, views(path@)),
            views(path@).no_duplicates(),
            path@.len() == 0 ==> cur@ == id@ && !memo@.contains_key(id@),
            path@.len() > 0 ==> views(path@)[0] == id@ && real_parent(
                sessions@,
                views(path@).last(),
            ) == Some(cur@),
            forall|i: int| 0 <= i < path@.len() ==> !memo@.contains_key(#[trigger] views(path@)[i]),
            path@.len() <= sessions@.len(),
        decreases sessions@.len() + 1 - path@.len(),
    {
        match memo.get(cur.as_str()) {
            Some(a) => {
                return (path, Top::FromAbove(*a));
            },
            None => {},
        }
        match position(&path, cur.as_str()) {
            Some(pos) => {
                assert(views(path@)[pos as int] == cur@);
                return (path, Top::Cycle(pos));
            },
            None => {},
        }
        let ghost q0 = views(path@);
        path.push(cur.clone());
        proof {
            let q = views(path@);
            assert(q =~= q0.push(cur@));
            assert(q.no_duplicates()) by {
                assert forall|i: int, j: int|
                    0 <= i < q.len() && 0 <= j < q.len() && i != j implies q[i] != q[j] by {
                    if i < q0.len() && j < q0.len() {
                        assert(q0[i] != q0[j]);
                    } else if i < q0.len() {
                        assert(q0.contains(q0[i]));
                    } else if j < q0.len() {
                        assert(q0.contains(q0[j]));
                    }
                }
            }
            assert forall|i: int| 0 <= i < q.len() implies exists_id(sessions@, #[trigger] q[i]) by {
                if i < q0.len() {
                    assert(q[i] == q0[i]);
                }
            }
            assert forall|i: int| #![trigger q[i]] 0 <= i < q.len() - 1 implies real_parent(
                sessions@,
                q[i],
            ) == Some(q[i + 1]) by {
                if i < q0.len() - 1 {
                    assert(q[i] == q0[i]);
                    assert(real_parent(sessions@, q0[i]) == Some(q0[i + 1]));
                }
            }
            assert forall|i: int| 0 <= i < q.len() implies !memo@.contains_key(#[trigger] q[i]) by {
                if i < q0.len() {
                    assert(q[i] == q0[i]);
                }
            }
            lemma_distinct_bound(sessions@, q);
            assert(links.parent@.contains_key(cur@) <==> parent_of(sessions@, cur@) is Some);
            if parent_of(sessions@, cur@) is Some {
                let p = parent_of(sessions@, cur@)->0;
                assert(links.by_id@.contains_key(p) <==> exists_id(sessions@, p));
            }
            if real_parent(sessions@, cur@) is None {
                lemma_top_standing(sessions@, cur@);
            }
        }
        let sub = links.is_sub(sessions, cur.as_str());
        match links.parent.get(cur.as_str()) {
            None => {
                let a = if sub {
                    Attach::Unattributable
                } else {
                    Attach::Main
                };
                return (path, Top::OwnResult(a));
            },
            Some(parent) => {
                if links.by_id.contains(parent.as_str()) {
                    cur = parent.clone();
                } else {
                    let a = if sub {
                        Attach::Dangling
                    } else {
                        Attach::Unattributable
                    };
                    return (path, Top::OwnResult(a));
                }
            },
        }
    }
}

/// The standing of a child under a classified parent.
fn derive_child(parent: Attach, sub: bool) -> (r: Attach)
    ensures
        r == child_standing(parent, sub),
{
    match parent {
        Attach::Main | Attach::Attached | Attach::Unattributable => Attach::Attached,
        Attach::Dangling => if sub {
            Attach::Dangling
        } else {
            Attach::Unattributable
        },
    }
}

/// Classifies a session, and with it each of its ancestors.
fn classify(sessions: &[SessionHeader], links: &Links, id: &str, memo: &mut IdMap<Attach>)
    requires
        links.wf(sessions@),
        old(memo).wf(),
        memo_ok(sessions@, old(memo)@),
        exists_id(sessions@, id@),
    ensures
        final(memo).wf(),
        memo_ok(sessions@, final(memo)@),
        final(memo)@.contains_key(id@),
        forall|x: Seq<char>| #[trigger]
            old(memo)@.contains_key(x) ==> final(memo)@.contains_key(x),
{
    if memo.contains(id) {
        return;
    }
    let (path, top) = climb(sessions, links, id, memo);
    let ghost s = sessions@;
    let ghost q = views(path@);
    let n: usize = path.len();
    let ghost known = memo@;
    // Everything from `start` on is settled; `above` is the standing of the parent of
    // the name before it.
    let mut start: usize = n;
    let mut above: Attach = Attach::Main;
    match top {
        Top::OwnResult(a) => {
            memo.insert(path[n - 1].clone(), a);
            start = n - 1;
            above = a;
        },
        Top::FromAbove(a) => {
            above = a;
        },
        Top::Cycle(pos) => {
            let mut i: usize = n;
            while i > pos
                invariant
                    pos <= i <= n,
                    n == path@.len(),
                    s == sessions@,
                    q == views(path@),
                    is_path(s, q),
                    q.no_duplicates(),
                    pos < q.len(),
                    real_parent(s, q.last()) == Some(q[pos as int]),
                    memo.wf(),
                    memo_ok(s, known),
                    forall|x: Seq<char>| #[trigger] memo@.contains_key(x) <==> known.contains_key(x)
                        || exists|j: int| i <= j < n && x == #[trigger] q[j],
                    forall|x: Seq<char>| #[trigger]
                        memo@.contains_key(x) ==> exists_id(s, x) && memo@[x] == attach_of(s, x),
                decreases i,
            {
                i -= 1;
                proof {
                    lemma_path_cycle(s, q, pos as int, i as int);
                    assert(exists_id(s, q[i as int]));
                }
                let ghost before = memo@;
                memo.insert(path[i].clone(), Attach::Unattributable);
                proof {
                    assert forall|x: Seq<char>| #[trigger] memo@.contains_key(x)
                        <==> known.contains_key(x) || exists|j: int|
                        i <= j < n && x == #[trigger] q[j] by {
                        assert(before.contains_key(x) <==> known.contains_key(x) || exists|j: int|
                            i + 1 <= j < n && x == #[trigger] q[j]);
                        if known.contains_key(x) || exists|j: int| i <= j < n && x == #[trigger] q[j] {
                            if !known.contains_key(x) {
                                let j = choose|j: int| i <= j < n && x == #[trigger] q[j];
                                if j != i {
                                    assert(i + 1 <= j < n && x == q[j]);
                                }
                            }
                        }
                        if memo@.contains_key(x) && !before.contains_key(x) {
                            assert(x == q[i as int]);
                        }
                    }
                }
            }
            start = pos;
            above = Attach::Unattributable;
            proof {
                lemma_path_cycle(s, q, pos as int, pos as int);
                assert(closed_up(s, memo@.dom())) by {
                    assert forall|x: Seq<char>| #[trigger] memo@.dom().contains(x) implies (
                    real_parent(s, x) matches Some(p) ==> memo@.dom().contains(p)) by {
                        assert(memo@.contains_key(x));
                        if real_parent(s, x) is Some {
                            let p = real_parent(s, x)->0;
                            if known.contains_key(x) {
                                assert(known.dom().contains(x));
                                assert(known.contains_key(p));
                                assert(memo@.contains_key(p));
                            } else {
                                let j = choose|j: int| pos <= j < n && x == #[trigger] q[j];
                                if j < n - 1 {
                                    assert(p == q[j + 1]);
                                    assert(memo@.contains_key(q[j + 1]));
                                } else {
                                    assert(p == q[pos as int]);
                                    assert(memo@.contains_key(q[pos as int]));
                                }
                            }
                        }
                    }
                }
                assert forall|i: int| 0 <= i < start implies !memo@.contains_key(#[trigger] q[i]) by {
                    assert(!known.contains_key(q[i]));
                }
            }
        },
    }
    let mut i: usize = start;
    while i > 0
        invariant
            i <= start <= n,
            n == path@.len(),
            n > 0,
            s == sessions@,
            q == views(path@),
            links.wf(s),
            is_path(s, q),
            q.no_duplicates(),
            memo.wf(),
            memo_ok(s, memo@),
            forall|j: int| 0 <= j < i ==> !memo@.contains_key(#[trigger] q[j]),
            i > 0 ==> real_parent(s, q[i - 1]) is Some && memo@.contains_key(
                real_parent(s, q[i - 1])->0,
            ) && above == attach_of(s, real_parent(s, q[i - 1])->0),
            i == 0 ==> memo@.contains_key(q[0]),
            forall|x: Seq<char>| #[trigger] known.contains_key(x) ==> memo@.contains_key(x),
        decreases i,
    {
        i -= 1;
        let ghost x = q[i as int];
        proof {
            assert(exists_id(s, x));
            lemma_below_not_on_cycle(s, memo@.dom(), x);
            lemma_child_standing(s, x);
        }
        let sub = links.is_sub(sessions, path[i].as_str());
        let this = derive_child(above, sub);
        let ghost before = memo@;
        memo.insert(path[i].clone(), this);
        above = this;
        proof {
            assert(memo@ == before.insert(x, this));
            assert(closed_up(s, memo@.dom())) by {
                assert forall|y: Seq<char>| #[trigger] memo@.dom().contains(y) implies (
                real_parent(s, y) matches Some(p) ==> memo@.dom().contains(p)) by {
                    if y != x {
                        assert(before.dom().contains(y));
                    }
                }
            }
            assert forall|y: Seq<char>| #[trigger] memo@.contains_key(y) implies exists_id(s, y)
                && memo@[y] == attach_of(s, y) by {
                if y != x {
                    assert(before.contains_key(y));
                }
            }
            if i > 0 {
                assert(real_parent(s, q[i - 1]) == Some(q[i as int]));
            }
        }
    }
}

/// `list` holds the children of `p`.
pub open spec fn lists_children(s: Seq<SessionHeader>, list: Seq<Seq<char>>, p: Seq<char>) -> bool {
    forall|c: Seq<char>| #[trigger] list.contains(c) <==> is_child(s, c, p)
}

/// `list` holds the children of `p` among the first `n` names in `order`.
spec fn lists_some(
    s: Seq<SessionHeader>,
    list: Seq<Seq<char>>,
    p: Seq<char>,
    order: Seq<Seq<char>>,
    n: int,
) -> bool {
    &&& list.no_duplicates()
    &&& forall|c: Seq<char>| #[trigger]
        list.contains(c) <==> is_child(s, c, p) && order.take(n).contains(c)
}

/// The lists of children are right for the first `n` of the children in `order`.
spec fn children_so_far(
    s: Seq<SessionHeader>,
    order: Seq<Seq<char>>,
    n: int,
    m: Map<Seq<char>, Vec<String>>,
) -> bool {
    &&& forall|p: Seq<char>| #[trigger]
        m.contains_key(p) ==> lists_some(s, views(m[p]@), p, order, n)
    &&& forall|c: Seq<char>, p: Seq<char>| #[trigger]
        is_child(s, c, p) && order.take(n).contains(c) ==> m.contains_key(p)
}

fn collect_children(sessions: &[SessionHeader], links: &Links) -> (m: IdMap<Vec<String>>)
    requires
        links.wf(sessions@),
    ensures
        m.wf(),
        forall|p: Seq<char>| #[trigger]
            m@.contains_key(p) ==> lex_increasing(views(m@[p]@)) && lists_children(
                sessions@,
                views(m@[p]@),
                p,
            ),
        forall|c: Seq<char>, p: Seq<char>| #[trigger]
            is_child(sessions@, c, p) ==> m@.contains_key(p),
{
    let mut m: IdMap<Vec<String>> = IdMap::new();
    let ghost order = links.parent.order();
    let ghost s = sessions@;
    let count: usize = links.parent.len();
    let mut i: usize = 0;
    proof {
        links.parent.lemma_order();
        assert(order.take(0) =~= Seq::<Seq<char>>::empty());
    }
    while i < count
        invariant
            i <= count,
            s == sessions@,
            links.wf(s),
            order == links.parent.order(),
            count == order.len(),
            order.no_duplicates(),
            m.wf(),
            children_so_far(s, order, i as int, m@),
        decreases count - i,
    {
        let child = links.parent.key(i);
        let parent = links.parent.value(i);
        let ghost before = m@;
        proof {
            assert(links.parent@.contains_key(child@));
            lemma_take_contains(order, i as int);
            assert(links.by_id@.contains_key(child@) <==> exists_id(s, child@));
        }
        if !links.by_id.contains(child.as_str()) {
            proof {
                assert forall|p: Seq<char>| #[trigger] m@.contains_key(p) implies lists_some(
                    s,
                    views(m@[p]@),
                    p,
                    order,
                    i + 1,
                ) by {
                    assert(lists_some(s, views(m@[p]@), p, order, i as int));
                }
            }
        } else {
            if m.contains(parent.as_str()) {
                let ghost list0 = views(before[parent@]@);
                match m.get_mut(parent.as_str()) {
                    Some(list) => {
                        list.push(child.clone());
                        proof {
                            assert(views(list@) =~= list0.push(child@));
                        }
                    },
                    None => {},
                }
                proof {
                    lemma_push_child(s, order, i as int, before, m@, child@, parent@);
                }
            } else {
                let mut list: Vec<String> = Vec::new();
                list.push(child.clone());
                proof {
                    assert(views(list@) =~= Seq::<Seq<char>>::empty().push(child@));
                }
                m.insert(parent.clone(), list);
                proof {
                    lemma_push_child(s, order, i as int, before, m@, child@, parent@);
                }
            }
        }
        i += 1;
    }
    proof {
        assert(order.take(i as int) =~= order);
        assert forall|c: Seq<char>, p: Seq<char>| #[trigger] is_child(s, c, p) implies order.contains(
            c,
        ) by {
            assert(links.parent@.contains_key(c));
            assert(order.to_set().contains(c));
        }
    }
    proof {
        assert forall|p: Seq<char>| #[trigger] m@.contains_key(p) implies views(
            m@[p]@,
        ).no_duplicates() && lists_children(s, views(m@[p]@), p) by {
            assert(lists_some(s, views(m@[p]@), p, order, i as int));
        }
    }
    let total: usize = m.len();
    let ghost unsorted = m@;
    let ghost parents = m.order();
    proof {
        m.lemma_order();
    }
    let mut k: usize = 0;
    while k < total
        invariant
            k <= total,
            s == sessions@,
            m.wf(),
            m.order() == parents,
            total == parents.len(),
            parents.no_duplicates(),
            m@.dom() == unsorted.dom(),
            parents.to_set() =~= unsorted.dom(),
            forall|c: Seq<char>, p: Seq<char>| #[trigger]
                is_child(s, c, p) ==> unsorted.contains_key(p),
            forall|p: Seq<char>| #[trigger]
                m@.contains_key(p) ==> views(m@[p]@).no_duplicates() && lists_children(
                    s,
                    views(m@[p]@),
                    p,
                ),
            forall|j: int|
                #![trigger parents[j]]
                0 <= j < k ==> lex_increasing(views(m@[parents[j]]@)),
        decreases total - k,
    {
        let name = m.key(k).clone();
        let ghost before = m@;
        match m.get_mut(name.as_str()) {
            Some(list) => {
                let ghost list0 = views(list@);
                sort_texts(list);
                proof {
                    lemma_permutation(list0, views(list@));
                    lemma_sorted_distinct(views(list@));
                    assert(lists_children(s, list0, name@));
                    assert forall|c: Seq<char>| #[trigger] views(list@).contains(c) <==> is_child(
                        s,
                        c,
                        name@,
                    ) by {
                        assert(views(list@).to_set().contains(c) <==> list0.to_set().contains(c));
                        assert(list0.contains(c) <==> is_child(s, c, name@));
                    }
                    assert(lists_children(s, views(list@), name@));
                }
            },
            None => {},
        }
        proof {
            assert(m@.dom() =~= before.dom());
            assert forall|p: Seq<char>| #[trigger] m@.contains_key(p) implies views(
                m@[p]@,
            ).no_duplicates() && lists_children(s, views(m@[p]@), p) by {
                assert(before.contains_key(p));
            }
            assert forall|j: int| #![trigger parents[j]] 0 <= j < k + 1 implies lex_increasing(
                views(m@[parents[j]]@),
            ) by {
                if j < k {
                    assert(parents[j] != parents[k as int]);
                }
            }
        }
        k += 1;
    }
    proof {
        assert forall|p: Seq<char>| #[trigger] m@.contains_key(p) implies lex_increasing(
            views(m@[p]@),
        ) && lists_children(s, views(m@[p]@), p) by {
            assert(parents.to_set().contains(p));
            let j = choose|j: int| 0 <= j < parents.len() && parents[j] == p;
            assert(lex_increasing(views(m@[parents[j]]@)));
        }
    }
    m
}

/// One more child in the list of its parent.
proof fn lemma_push_child(
    s: Seq<SessionHeader>,
    order: Seq<Seq<char>>,
    i: int,
    before: Map<Seq<char>, Vec<String>>,
    after: Map<Seq<char>, Vec<String>>,
    child: Seq<char>,
    parent: Seq<char>,
)
    requires
        0 <= i < order.len(),
        order[i] == child,
        order.no_duplicates(),
        is_child(s, child, parent),
        children_so_far(s, order, i, before),
        after.dom() =~= before.dom().insert(parent),
        forall|p: Seq<char>| p != parent && before.contains_key(p) ==> #[trigger] after[p] == before[p],
        views(after[parent]@) == (if before.contains_key(parent) {
            views(before[parent]@)
        } else {
            Seq::<Seq<char>>::empty()
        }).push(child),
    ensures
        children_so_far(s, order, i + 1, after),
{
    lemma_take_contains(order, i);
    assert forall|p: Seq<char>| #[trigger] after.contains_key(p) implies lists_some(
        s,
        views(after[p]@),
        p,
        order,
        i + 1,
    ) by {
        if p == parent {
            let l0 = if before.contains_key(parent) {
                views(before[parent]@)
            } else {
                Seq::<Seq<char>>::empty()
            };
            assert(lists_some(s, l0, p, order, i)) by {
                assert forall|c: Seq<char>| #[trigger] l0.contains(c) <==> is_child(s, c, p)
                    && order.take(i).contains(c) by {
                    if is_child(s, c, p) && order.take(i).contains(c) {
                        assert(before.contains_key(p));
                    }
                }
            }
            assert(!l0.contains(child));
            lemma_push_contains(l0, child);
        } else {
            assert(before.contains_key(p));
            assert(after[p] == before[p]);
            assert(lists_some(s, views(before[p]@), p, order, i));
        }
    }
    assert forall|c: Seq<char>, p: Seq<char>| #[trigger]
        is_child(s, c, p) && order.take(i + 1).contains(c) implies after.contains_key(p) by {
        if c != child {
            assert(before.contains_key(p));
        }
    }
}

/// The sessions' places among each other.
pub struct Lineage {
    children: IdMap<Vec<String>>,
    attach: IdMap<Attach>,
    source: Ghost<Seq<SessionHeader>>,
}

/// Where the parent of the `j`-th name stands in `q`.
pub open spec fn place(s: Seq<SessionHeader>, q: Seq<Seq<char>>, j: int) -> int {
    q.index_of(parent_of(s, q[j])->0)
}

/// The order in which a walk level by level meets the names: `q` starts with its root,
/// each later name stands behind its parent, names are grouped in the order of their
/// parents, and siblings are in the order of their texts.
pub open spec fn level_order(s: Seq<SessionHeader>, q: Seq<Seq<char>>) -> bool {
    &&& q.no_duplicates()
    &&& forall|j: int|
        #![trigger q[j]]
        #![trigger place(s, q, j)]
        1 <= j < q.len() ==> parent_of(s, q[j]) is Some && q.contains(parent_of(s, q[j])->0)
            && place(s, q, j) < j
    &&& forall|i: int, j: int|
        #![trigger place(s, q, i), place(s, q, j)]
        1 <= i < j < q.len() ==> place(s, q, i) < place(s, q, j) || (place(s, q, i) == place(
            s,
            q,
            j,
        ) && lex_lt(q[i], q[j]))
}

impl Lineage {
    #[verifier::type_invariant]
    spec fn inv(self) -> bool {
        &&& self.children.wf()
        &&& self.attach.wf()
        &&& forall|x: Seq<char>| #[trigger]
            self.attach@.contains_key(x) <==> exists_id(self.source@, x)
        &&& forall|x: Seq<char>| #[trigger]
            self.attach@.contains_key(x) ==> self.attach@[x] == attach_of(self.source@, x)
        &&& forall|p: Seq<char>| #[trigger]
            self.children@.contains_key(p) ==> lex_increasing(views(self.children@[p]@))
                && lists_children(self.source@, views(self.children@[p]@), p)
        &&& forall|c: Seq<char>, p: Seq<char>| #[trigger]
            is_child(self.source@, c, p) ==> self.children@.contains_key(p)
    }

    /// The sessions that it was built from.
    pub closed spec fn sessions(&self) -> Seq<SessionHeader> {
        self.source@
    }

    /// Places each session.
    pub fn build(sessions: &[SessionHeader]) -> (r: Self)
        ensures
            r.sessions() == sessions@,
    {
        let links = Links { by_id: collect_by_id(sessions), parent: collect_parents(sessions) };
        let children = collect_children(sessions, &links);
        let mut attach: IdMap<Attach> = IdMap::new();
        let mut i: usize = 0;
        while i < sessions.len()
            invariant
                i <= sessions@.len(),
                links.wf(sessions@),
                attach.wf(),
                memo_ok(sessions@, attach@),
                forall|j: int|
                    0 <= j < i ==> attach@.contains_key(#[trigger] sessions@[j].composer_id@),
            decreases sessions@.len() - i,
        {
            assert(sessions@[i as int].composer_id@ == sessions@[i as int].composer_id@);
            classify(sessions, &links, sessions[i].composer_id.as_str(), &mut attach);
            i += 1;
        }
        Lineage { children, attach, source: Ghost(sessions@) }
    }

    /// Where an id stands; an id of no session stands for itself.
    pub fn attach(&self, id: &str) -> (r: Attach)
        ensures
            r == attach_of(self.sessions(), id@),
    {
        proof {
            use_type_invariant(self);
            assert(self.attach@.contains_key(id@) <==> exists_id(self.source@, id@));
        }
        match self.attach.get(id) {
            Some(a) => *a,
            None => Attach::Main,
        }
    }

    /// Whether the session is a subagent whose chain of parents is broken.
    pub fn is_dangling(&self, id: &str) -> (r: bool)
        ensures
            r == dangling(self.sessions(), id@),
    {
        self.attach(id) == Attach::Dangling
    }

    /// All dangling subagents, in the order of their ids.
    pub fn dangling_ids(&self) -> (r: Vec<String>)
        ensures
            lex_increasing(views(r@)),
            forall|x: Seq<char>| #[trigger]
                views(r@).contains(x) <==> dangling(self.sessions(), x),
    {
        proof {
            use_type_invariant(self);
            self.attach.lemma_order();
        }
        let ghost order = self.attach.order();
        let ghost s = self.source@;
        let n: usize = self.attach.len();
        let mut out: Vec<String> = Vec::new();
        let mut i: usize = 0;
        while i < n
            invariant
                i <= n,
                n == order.len(),
                order == self.attach.order(),
                order.no_duplicates(),
                s == self.source@,
                self.attach.wf(),
                forall|x: Seq<char>| #[trigger]
                    self.attach@.contains_key(x) ==> self.attach@[x] == attach_of(s, x),
                forall|x: Seq<char>| #[trigger] self.attach@.contains_key(x) <==> exists_id(s, x),
                views(out@).no_duplicates(),
                forall|x: Seq<char>| #[trigger]
                    views(out@).contains(x) <==> dangling(s, x) && order.take(i as int).contains(x),
            decreases n - i,
        {
            let id = self.attach.key(i);
            let ghost v0 = views(out@);
            proof {
                lemma_take_contains(order, i as int);
                assert(self.attach@.contains_key(id@));
            }
            if *self.attach.value(i) == Attach::Dangling {
                out.push(id.clone());
                proof {
                    assert(views(out@) =~= v0.push(id@));
                    lemma_push_contains(v0, id@);
                    assert(!v0.contains(id@));
                }
            }
            i += 1;
        }
        let ghost v = views(out@);
        sort_texts(&mut out);
        proof {
            assert(order.take(i as int) =~= order);
            lemma_permutation(v, views(out@));
            lemma_sorted_distinct(views(out@));
            assert forall|x: Seq<char>| #[trigger] views(out@).contains(x) <==> dangling(s, x) by {
                assert(views(out@).to_set().contains(x) <==> v.to_set().contains(x));
                if dangling(s, x) {
                    assert(self.attach@.contains_key(x));
                    assert(order.to_set().contains(x));
                }
            }
        }
        out
    }

    /// The sessions whose parent this is, in the order of their ids.
    pub fn children_of(&self, id: &str) -> (r: &[String])
        ensures
            lex_increasing(views(r@)),
            lists_children(self.sessions(), views(r@), id@),
    {
        proof {
            use_type_invariant(self);
        }
        match self.children.get(id) {
            Some(list) => list.as_slice(),
            None => {
                let r: &[String] = &[];
                assert(views(r@) =~= Seq::<Seq<char>>::empty());
                r
            },
        }
    }

    /// All sessions below `id`, level by level.
    pub fn descendants_of(&self, id: &str) -> (r: Vec<String>)
        ensures
            forall|x: Seq<char>| #[trigger]
                views(r@).contains(x) <==> is_descendant(self.sessions(), x, id@),
            level_order(self.sessions(), seq![id@] + views(r@)),
    {
        let ghost s = self.sessions();
        let mut out: Vec<String> = Vec::new();
        let mut seen: FxHashSet<String> = names_new();
        names_add(&mut seen, id.to_owned());
        let mut h: usize = 0;
        let mut cur: String = id.to_owned();
        let ghost mut q: Seq<Seq<char>> = seq![id@];
        proof {
            assert(q =~= seq![id@] + views(out@));
            assert(climbs(s, q[0], id@, 0));
            lemma_to_set_push(Seq::<Seq<char>>::empty(), id@);
            assert(Seq::<Seq<char>>::empty().push(id@) =~= q);
            assert(fx_names(seen) =~= q.to_set());
        }
        loop
            invariant_except_break
                cur@ == q[h as int],
                walked_to(s, q, h as int),
            invariant
                s == self.sessions(),
                q == seq![id@] + views(out@),
                h < q.len() <= s.len() + 1,
                fx_names(seen) == q.to_set(),
                walked(s, q, id@),
            ensures
                walked_to(s, q, q.len() as int),
            decreases s.len() + 1 - h,
        {
            let kids = self.children_of(cur.as_str());
            let ghost ks = views(kids@);
            let mut k: usize = 0;
            assert(ks.take(0) =~= Seq::<Seq<char>>::empty());
            while k < kids.len()
                invariant
                    s == self.sessions(),
                    q == seq![id@] + views(out@),
                    h < q.len() <= s.len() + 1,
                    cur@ == q[h as int],
                    ks == views(kids@),
                    k <= ks.len(),
                    lex_increasing(ks),
                    lists_children(s, ks, cur@),
                    fx_names(seen) == q.to_set(),
                    walked(s, q, id@),
                    walking(s, q, h as int, ks, k as int),
                decreases ks.len() - k,
            {
                let child = &kids[k];
                assert(child@ == ks[k as int]);
                let fresh = names_add(&mut seen, child.clone());
                if fresh {
                    out.push(child.clone());
                    proof {
                        let q1 = q.push(child@);
                        assert(q1 =~= seq![id@] + views(out@));
                        assert(!q.contains(child@)) by {
                            assert(!q.to_set().contains(child@));
                        }
                        lemma_walk_push(s, q, h as int, id@, ks, k as int);
                        lemma_to_set_push(q, child@);
                        q = q1;
                    }
                } else {
                    proof {
                        assert(q.to_set().contains(child@));
                        lemma_take_contains(ks, k as int);
                        assert(fx_names(seen) =~= q.to_set());
                    }
                }
                k += 1;
            }
            proof {
                assert(ks.take(k as int) =~= ks);
                assert forall|i: int, c: Seq<char>|
                    #![trigger is_child(s, c, q[i])]
                    0 <= i < h + 1 && i < q.len() && is_child(s, c, q[i]) implies q.contains(c) by {
                    if i == h {
                        assert(ks.contains(c));
                    }
                }
                assert(walked_to(s, q, h + 1));
            }
            if h == out.len() {
                break;
            }
            cur = out[h].clone();
            h += 1;
        }
        proof {
            let v = views(out@);
            assert forall|x: Seq<char>| #[trigger] v.contains(x) <==> is_descendant(s, x, id@) by {
                if v.contains(x) {
                    let i = choose|i: int| 0 <= i < v.len() && v[i] == x;
                    assert(q[i + 1] == x);
                    assert(q[0] == id@);
                    assert(reaches(s, q[i + 1], id@));
                }
                if is_descendant(s, x, id@) {
                    let k = choose|k: nat| #[trigger] climbs(s, x, id@, k);
                    lemma_walk_reach(s, q, id@, x, k);
                    let i = choose|i: int| 0 <= i < q.len() && q[i] == x;
                    assert(v[i - 1] == x);
                }
            }
        }
        out
    }
}

/// Parent links lead from `y` to `x`.
spec fn reaches(s: Seq<SessionHeader>, y: Seq<char>, x: Seq<char>) -> bool {
    exists|k: nat| climbs(s, y, x, k)
}

/// The names in `q` were met on a walk from `id`, in its order.
spec fn walked(s: Seq<SessionHeader>, q: Seq<Seq<char>>, id: Seq<char>) -> bool {
    &&& q.len() > 0
    &&& q[0] == id
    &&& level_order(s, q)
    &&& forall|j: int| 1 <= j < q.len() ==> exists_id(s, #[trigger] q[j])
    &&& forall|j: int| 0 <= j < q.len() ==> reaches(s, #[trigger] q[j], id)
}

/// `q` holds the children of its first `h` names, and no others.
spec fn walked_to(s: Seq<SessionHeader>, q: Seq<Seq<char>>, h: int) -> bool {
    &&& forall|j: int| 1 <= j < q.len() ==> #[trigger] place(s, q, j) < h
    &&& forall|i: int, c: Seq<char>|
        #![trigger is_child(s, c, q[i])]
        0 <= i < h && i < q.len() && is_child(s, c, q[i]) ==> q.contains(c)
}

/// `q` holds the children of its first `h` names and the first `k` of the next.
spec fn walking(
    s: Seq<SessionHeader>,
    q: Seq<Seq<char>>,
    h: int,
    ks: Seq<Seq<char>>,
    k: int,
) -> bool {
    &&& forall|j: int| 1 <= j < q.len() ==> #[trigger] place(s, q, j) <= h
    &&& forall|i: int, c: Seq<char>|
        #![trigger is_child(s, c, q[i])]
        0 <= i < h && i < q.len() && is_child(s, c, q[i]) ==> q.contains(c)
    &&& forall|j: int|
        1 <= j < q.len() && #[trigger] place(s, q, j) == h ==> ks.take(k).contains(q[j])
    &&& forall|c: Seq<char>| #[trigger] ks.take(k).contains(c) ==> q.contains(c)
}

/// A name at the end changes no place.
proof fn lemma_place_push(s: Seq<SessionHeader>, q: Seq<Seq<char>>, x: Seq<char>)
    requires
        level_order(s, q),
        !q.contains(x),
    ensures
        q.push(x).no_duplicates(),
        forall|j: int|
            1 <= j < q.len() ==> #[trigger] place(s, q.push(x), j) == place(s, q, j),
        forall|p: Seq<char>| #[trigger]
            q.contains(p) ==> q.push(x).index_of(p) == q.index_of(p),
{
    let r = q.push(x);
    assert forall|i: int, j: int| 0 <= i < r.len() && 0 <= j < r.len() && i != j implies r[i]
        != r[j] by {
        if i < q.len() {
            assert(q.contains(q[i]));
        }
        if j < q.len() {
            assert(q.contains(q[j]));
        }
    }
    assert forall|p: Seq<char>| #[trigger] q.contains(p) implies r.index_of(p) == q.index_of(p) by {
        let i = choose|i: int| 0 <= i < q.len() && q[i] == p;
        assert(r[i] == p);
        assert(r[r.index_of(p)] == p);
        assert(q[q.index_of(p)] == p);
    }
    assert forall|j: int| 1 <= j < q.len() implies #[trigger] place(s, r, j) == place(s, q, j) by {
        assert(r[j] == q[j]);
        assert(q.contains(parent_of(s, q[j])->0));
    }
}

proof fn lemma_walk_push(
    s: Seq<SessionHeader>,
    q: Seq<Seq<char>>,
    h: int,
    id: Seq<char>,
    ks: Seq<Seq<char>>,
    k: int,
)
    requires
        walked(s, q, id),
        walking(s, q, h, ks, k),
        0 <= h < q.len() <= s.len() + 1,
        0 <= k < ks.len(),
        lex_increasing(ks),
        lists_children(s, ks, q[h]),
        !q.contains(ks[k]),
    ensures
        walked(s, q.push(ks[k]), id),
        walking(s, q.push(ks[k]), h, ks, k + 1),
        q.push(ks[k]).len() <= s.len() + 1,
{
    let child = ks[k];
    let r = q.push(child);
    let n = q.len() as int;
    assert(ks.contains(child));
    assert(is_child(s, child, q[h]));
    lemma_place_push(s, q, child);
    lemma_push_contains(q, child);
    lemma_take_contains(ks, k);
    assert(place(s, r, n) == h) by {
        assert(r[n] == child);
        assert(q.contains(q[h]));
        assert(q[q.index_of(q[h])] == q[h]);
    }
    assert(level_order(s, r)) by {
        assert forall|j: int|
            #![trigger r[j]]
            #![trigger place(s, r, j)]
            1 <= j < r.len() implies parent_of(s, r[j]) is Some && r.contains(
            parent_of(s, r[j])->0,
        ) && place(s, r, j) < j by {
            if j < n {
                assert(r[j] == q[j]);
                assert(place(s, r, j) == place(s, q, j));
            } else {
                assert(q.contains(q[h]));
            }
        }
        assert forall|i: int, j: int|
            #![trigger place(s, r, i), place(s, r, j)]
            1 <= i < j < r.len() implies place(s, r, i) < place(s, r, j) || (place(s, r, i)
            == place(s, r, j) && lex_lt(r[i], r[j])) by {
            assert(place(s, r, i) == place(s, q, i));
            assert(r[i] == q[i]);
            if j < n {
                assert(place(s, r, j) == place(s, q, j));
                assert(r[j] == q[j]);
            } else if place(s, q, i) == h {
                assert(ks.take(k).contains(q[i]));
                let x = choose|x: int| 0 <= x < k && ks.take(k)[x] == q[i];
                assert(lex_lt(ks[x], ks[k]));
            }
        }
    }
    assert forall|j: int| 1 <= j < r.len() implies exists_id(s, #[trigger] r[j]) by {
        if j < n {
            assert(r[j] == q[j]);
        }
    }
    assert forall|j: int| 0 <= j < r.len() implies reaches(s, #[trigger] r[j], id) by {
        if j < n {
            assert(r[j] == q[j]);
        } else {
            assert(reaches(s, q[h], id));
            let m = choose|m: nat| climbs(s, q[h], id, m);
            assert(climbs(s, r[j], id, m + 1));
        }
    }
    assert forall|j: int| 1 <= j < r.len() implies #[trigger] place(s, r, j) <= h by {
        if j < n {
            assert(place(s, r, j) == place(s, q, j));
        }
    }
    assert forall|i: int, c: Seq<char>|
        #![trigger is_child(s, c, r[i])]
        0 <= i < h && i < r.len() && is_child(s, c, r[i]) implies r.contains(c) by {
        assert(is_child(s, c, q[i]));
    }
    assert forall|j: int| 1 <= j < r.len() && #[trigger] place(s, r, j) == h implies ks.take(
        k + 1,
    ).contains(r[j]) by {
        if j < n {
            assert(place(s, r, j) == place(s, q, j));
            assert(r[j] == q[j]);
        }
    }
    let tail = r.skip(1);
    assert forall|i: int| 0 <= i < tail.len() implies exists_id(s, #[trigger] tail[i]) by {
        assert(tail[i] == r[i + 1]);
    }
    lemma_distinct_bound(s, tail);
}

proof fn lemma_walk_reach(
    s: Seq<SessionHeader>,
    q: Seq<Seq<char>>,
    id: Seq<char>,
    y: Seq<char>,
    k: nat,
)
    requires
        walked(s, q, id),
        walked_to(s, q, q.len() as int),
        climbs(s, y, id, k),
    ensures
        q.contains(y),
    decreases k,
{
    if k == 0 {
        assert(q[0] == y);
    } else {
        let p = parent_of(s, y)->0;
        lemma_walk_reach(s, q, id, p, (k - 1) as nat);
        let i = choose|i: int| 0 <= i < q.len() && q[i] == p;
        assert(is_child(s, y, q[i]));
    }
}

/// The session at `i` is the last with its id.
pub open spec fn is_last_of(s: Seq<SessionHeader>, i: int, x: Seq<char>) -> bool {
    &&& 0 <= i < s.len()
    &&& s[i].composer_id@ == x
    &&& forall|k: int| i < k < s.len() ==> (#[trigger] s[k]).composer_id@ != x
}

/// A parent that a session names itself goes before any claim; of several headers of one
/// session the last that names a parent counts. Where none names one, the first session that
/// claims it is its parent, and where none claims it, it has none.
pub proof fn lemma_parent_of(s: Seq<SessionHeader>, x: Seq<char>, i: int)
    requires
        0 <= i < s.len(),
    ensures
        s[i].composer_id@ == x && s[i].parent_composer_id is Some && (forall|k: int|
            i < k < s.len() && (#[trigger] s[k]).composer_id@ == x ==> s[k].parent_composer_id
                is None) ==> parent_of(s, x) == Some(s[i].parent_composer_id->0@),
        (forall|k: int|
            0 <= k < s.len() && (#[trigger] s[k]).composer_id@ == x ==> s[k].parent_composer_id
                is None) && views(s[i].sub_composer_ids@).contains(x) && (forall|k: int|
            0 <= k < i ==> !views((#[trigger] s[k]).sub_composer_ids@).contains(x)) ==> parent_of(
            s,
            x,
        ) == Some(s[i].composer_id@),
        (forall|k: int|
            0 <= k < s.len() && (#[trigger] s[k]).composer_id@ == x ==> s[k].parent_composer_id
                is None) && (forall|k: int|
            0 <= k < s.len() ==> !views((#[trigger] s[k]).sub_composer_ids@).contains(x))
            ==> parent_of(s, x) is None,
{
    lemma_own_parent(s, x, i);
    lemma_claimed_parent(s, x, i);
}

proof fn lemma_own_parent(s: Seq<SessionHeader>, x: Seq<char>, i: int)
    requires
        0 <= i < s.len(),
    ensures
        s[i].composer_id@ == x && s[i].parent_composer_id is Some && (forall|k: int|
            i < k < s.len() && (#[trigger] s[k]).composer_id@ == x ==> s[k].parent_composer_id
                is None) ==> own_parent(s, x) == Some(s[i].parent_composer_id->0@),
        (forall|k: int|
            0 <= k < s.len() && (#[trigger] s[k]).composer_id@ == x ==> s[k].parent_composer_id
                is None) ==> own_parent(s, x) is None,
    decreases s.len(),
{
    let d = s.drop_last();
    assert(s[s.len() - 1] == s.last());
    assert(forall|k: int| 0 <= k < d.len() ==> #[trigger] d[k] == s[k]);
    if d.len() > 0 {
        lemma_own_parent(d, x, if i < d.len() {
            i
        } else {
            0
        });
    }
}

proof fn lemma_claimed_parent(s: Seq<SessionHeader>, x: Seq<char>, i: int)
    requires
        0 <= i < s.len(),
    ensures
        views(s[i].sub_composer_ids@).contains(x) && (forall|k: int|
            0 <= k < i ==> !views((#[trigger] s[k]).sub_composer_ids@).contains(x))
            ==> claimed_parent(s, x) == Some(s[i].composer_id@),
        (forall|k: int|
            0 <= k < s.len() ==> !views((#[trigger] s[k]).sub_composer_ids@).contains(x))
            ==> claimed_parent(s, x) is None,
    decreases s.len(),
{
    let d = s.drop_last();
    assert(s[s.len() - 1] == s.last());
    assert(forall|k: int| 0 <= k < d.len() ==> #[trigger] d[k] == s[k]);
    if d.len() > 0 {
        lemma_claimed_parent(d, x, if i < d.len() {
            i
        } else {
            0
        });
    }
}

/// The last header of a session is the one that counts.
pub proof fn lemma_last_of(s: Seq<SessionHeader>, i: int, x: Seq<char>)
    requires
        is_last_of(s, i, x),
    ensures
        header_of(s, x) == i,
        exists_id(s, x),
    decreases s.len(),
{
    assert(s[i].composer_id@ == x);
    let d = s.drop_last();
    assert(s[s.len() - 1] == s.last());
    if i < s.len() - 1 {
        assert(s[s.len() - 1].composer_id@ != x);
        assert(is_last_of(d, i, x)) by {
            assert forall|k: int| i < k < d.len() implies (#[trigger] d[k]).composer_id@ != x by {
                assert(s[k].composer_id@ != x);
            }
        }
        lemma_last_of(d, i, x);
    }
}

/// A session dangles exactly where its last header says that it is a subagent and its parent
/// is no session, or is itself one that dangles.
pub proof fn lemma_dangling(s: Seq<SessionHeader>, x: Seq<char>, i: int)
    requires
        is_last_of(s, i, x),
    ensures
        dangling(s, x) <==> s[i].is_subagent && (parent_of(s, x) matches Some(p) && (!exists_id(s, p)
            || dangling(s, p))),
{
    lemma_last_of(s, i, x);
    if dangling(s, x) {
        let k = choose|k: nat| #[trigger] dangling_within(s, x, k);
        let p = parent_of(s, x)->0;
        if exists_id(s, p) {
            assert(dangling_within(s, p, (k - 1) as nat));
        }
    }
    if s[i].is_subagent && parent_of(s, x) is Some {
        let p = parent_of(s, x)->0;
        if !exists_id(s, p) {
            assert(dangling_within(s, x, 0));
        } else if dangling(s, p) {
            let k = choose|k: nat| #[trigger] dangling_within(s, p, k);
            assert(dangling_within(s, x, k + 1));
        }
    }
}

/// No session that is not there dangles, and none of which the last header does not say that
/// it is a subagent.
pub proof fn lemma_only_subagents_dangle(s: Seq<SessionHeader>, x: Seq<char>)
    requires
        dangling(s, x),
    ensures
        exists|i: int| #[trigger] is_last_of(s, i, x) && s[i].is_subagent,
{
    lemma_header_last(s, x);
    let k = choose|k: nat| #[trigger] dangling_within(s, x, k);
    assert(is_last_of(s, header_of(s, x), x));
}

/// The header that counts for a session is its last.
pub proof fn lemma_header_last(s: Seq<SessionHeader>, x: Seq<char>)
    requires
        exists_id(s, x),
    ensures
        is_last_of(s, header_of(s, x), x),
    decreases s.len(),
{
    let d = s.drop_last();
    assert(s[s.len() - 1] == s.last());
    if s.last().composer_id@ != x {
        let i = choose|i: int| 0 <= i < s.len() && #[trigger] s[i].composer_id@ == x;
        assert(d[i].composer_id@ == x);
        lemma_header_last(d, x);
        let h = header_of(d, x);
        assert(s[h].composer_id@ == x);
        assert forall|k: int| h < k < s.len() implies (#[trigger] s[k]).composer_id@ != x by {
            if k < d.len() {
                assert(d[k].composer_id@ != x);
            }
        }
    }
}

/// Where a session stands. One that dangles is dangling. Any other stands alone where it has
/// no parent, as a subagent that nobody owns where its last header says that it is one; below
/// its parent where that is a session, does not dangle, and is not below it in turn; and is
/// owned by nobody otherwise.
pub proof fn lemma_attach_of(s: Seq<SessionHeader>, x: Seq<char>, i: int)
    requires
        is_last_of(s, i, x),
    ensures
        attach_of(s, x) == Attach::Dangling <==> dangling(s, x),
        parent_of(s, x) is None && !s[i].is_subagent ==> attach_of(s, x) == Attach::Main,
        parent_of(s, x) is None && s[i].is_subagent ==> attach_of(s, x) == Attach::Unattributable,
        attach_of(s, x) == Attach::Attached <==> !dangling(s, x) && !is_own_ancestor(s, x) && (
        parent_of(s, x) matches Some(p) && exists_id(s, p) && !dangling(s, p)),
        attach_of(s, x) == Attach::Main ==> parent_of(s, x) is None && !s[i].is_subagent,
{
    lemma_last_of(s, i, x);
    lemma_dangling(s, x, i);
    lemma_own_ancestor(s, x);
    if parent_of(s, x) is None && on_cycle(s, x) {
        let k = choose|k: nat| k > 0 && #[trigger] up(s, x, k) == Some(x);
        assert(real_parent(s, x) is None);
        assert(up(s, x, k) is None);
    }
}

/// Links from sessions to their parents lead from the session back to it.
pub open spec fn is_own_ancestor(s: Seq<SessionHeader>, x: Seq<char>) -> bool {
    exists|k: nat| k > 0 && #[trigger] climbs(s, x, x, k)
}

proof fn lemma_own_ancestor(s: Seq<SessionHeader>, x: Seq<char>)
    requires
        exists_id(s, x),
    ensures
        on_cycle(s, x) <==> is_own_ancestor(s, x),
{
    if on_cycle(s, x) {
        let k = choose|k: nat| k > 0 && #[trigger] up(s, x, k) == Some(x);
        lemma_up_climbs(s, x, x, k);
    }
    if is_own_ancestor(s, x) {
        let k = choose|k: nat| k > 0 && #[trigger] climbs(s, x, x, k);
        lemma_climbs_up(s, x, x, k);
    }
}

proof fn lemma_up_climbs(s: Seq<SessionHeader>, y: Seq<char>, x: Seq<char>, k: nat)
    requires
        exists_id(s, y),
        up(s, y, k) == Some(x),
    ensures
        climbs(s, y, x, k),
    decreases k,
{
    if k > 0 {
        lemma_up_climbs(s, real_parent(s, y)->0, x, (k - 1) as nat);
    }
}

proof fn lemma_climbs_up(s: Seq<SessionHeader>, y: Seq<char>, x: Seq<char>, k: nat)
    requires
        exists_id(s, x),
        climbs(s, y, x, k),
    ensures
        up(s, y, k) == Some(x),
    decreases k,
{
    if k > 0 {
        let p = parent_of(s, y)->0;
        assert(climbs(s, p, x, (k - 1) as nat));
        assert(exists_id(s, p));
        lemma_climbs_up(s, p, x, (k - 1) as nat);
    }
}

/// The sessions below an id are its children, and the children of whatever is below it, but
/// never itself; and nothing else is below it.
pub proof fn lemma_descendants(s: Seq<SessionHeader>, y: Seq<char>, x: Seq<char>)
    ensures
        is_descendant(s, y, x) <==> y != x && exists_id(s, y) && (parent_of(s, y) matches Some(p)
            && (p == x || is_descendant(s, p, x))),
{
    if is_descendant(s, y, x) {
        let k = choose|k: nat| #[trigger] climbs(s, y, x, k);
        assert(k > 0);
        let p = parent_of(s, y)->0;
        assert(climbs(s, p, x, (k - 1) as nat));
    }
    if y != x && exists_id(s, y) && parent_of(s, y) is Some {
        let p = parent_of(s, y)->0;
        if p == x {
            assert(climbs(s, p, x, 0));
            assert(climbs(s, y, x, 1));
        } else if is_descendant(s, p, x) {
            let k = choose|k: nat| #[trigger] climbs(s, p, x, k);
            assert(climbs(s, y, x, k + 1));
        }
    }
}

} // verus!
