//! String-keyed collections on `rustc_hash`: a set of names and a map from names
//! to values that keeps its keys in the order in which they came.

use rustc_hash::{FxBuildHasher, FxHashMap, FxHashSet};
use vstd::prelude::*;

verus! {

/// `rustc_hash::FxBuildHasher`, the hasher of the two collections below.
#[verifier::external_type_specification]
#[verifier::external_body]
pub struct ExFxBuildHasher(FxBuildHasher);

/// What a map from strings to positions holds.
pub uninterp spec fn fx_index(m: FxHashMap<String, usize>) -> Map<Seq<char>, usize>;

/// What a set of strings holds.
pub uninterp spec fn fx_names(s: FxHashSet<String>) -> Set<Seq<char>>;

/// `FxHashMap::default` holds nothing.
#[verifier::external_body]
fn index_new() -> (m: FxHashMap<String, usize>)
    ensures
        fx_index(m) == (Map::<Seq<char>, usize>::empty()),
{
    FxHashMap::default()
}

/// `HashMap::get` finds the value under an equal string.
#[verifier::external_body]
fn index_get(m: &FxHashMap<String, usize>, k: &str) -> (r: Option<usize>)
    ensures
        r == (if fx_index(*m).contains_key(k@) {
            Some(fx_index(*m)[k@])
        } else {
            None
        }),
{
    m.get(k).copied()
}

/// `HashMap::insert` puts the value under the string, in place of an earlier one.
#[verifier::external_body]
fn index_put(m: &mut FxHashMap<String, usize>, k: String, i: usize)
    ensures
        fx_index(*final(m)) == fx_index(*old(m)).insert(k@, i),
{
    m.insert(k, i);
}

/// `HashMap::remove` takes the entry of an equal string out.
#[verifier::external_body]
fn index_drop(m: &mut FxHashMap<String, usize>, k: &str)
    ensures
        fx_index(*final(m)) == fx_index(*old(m)).remove(k@),
{
    m.remove(k);
}

/// `FxHashSet::default` holds nothing.
#[verifier::external_body]
pub(crate) fn names_new() -> (s: FxHashSet<String>)
    ensures
        fx_names(s) == Set::<Seq<char>>::empty(),
{
    FxHashSet::default()
}

/// `HashSet::contains` finds an equal string.
#[verifier::external_body]
pub(crate) fn names_has(s: &FxHashSet<String>, k: &str) -> (r: bool)
    ensures
        r == fx_names(*s).contains(k@),
{
    s.contains(k)
}

/// `HashSet::insert` adds the string and says whether it was new.
#[verifier::external_body]
pub(crate) fn names_add(s: &mut FxHashSet<String>, k: String) -> (fresh: bool)
    ensures
        fx_names(*final(s)) == fx_names(*old(s)).insert(k@),
        fresh == !fx_names(*old(s)).contains(k@),
{
    s.insert(k)
}

/// `HashSet::remove` takes an equal string out.
#[verifier::external_body]
fn names_drop(s: &mut FxHashSet<String>, k: &str)
    ensures
        fx_names(*final(s)) == fx_names(*old(s)).remove(k@),
{
    s.remove(k);
}

/// A map from strings to values of `T`, which also remembers the order in which
/// its keys first came.
pub struct IdMap<T> {
    index: FxHashMap<String, usize>,
    keys: Vec<String>,
    vals: Vec<T>,
}

impl<T> View for IdMap<T> {
    type V = Map<Seq<char>, T>;

    closed spec fn view(&self) -> Map<Seq<char>, T> {
        Map::new(
            |k: Seq<char>| fx_index(self.index).contains_key(k),
            |k: Seq<char>| self.vals@[fx_index(self.index)[k] as int],
        )
    }
}

impl<T> IdMap<T> {
    /// The index and the two vectors agree.
    pub closed spec fn wf(&self) -> bool {
        &&& self.keys@.len() == self.vals@.len()
        &&& forall|i: int|
            0 <= i < self.keys@.len() ==> fx_index(self.index).contains_key(
                #[trigger] self.keys@[i]@,
            ) && fx_index(self.index)[self.keys@[i]@] == i
        &&& forall|k: Seq<char>| #[trigger]
            fx_index(self.index).contains_key(k) ==> fx_index(self.index)[k] < self.keys@.len()
                && self.keys@[fx_index(self.index)[k] as int]@ == k
    }

    /// The keys, in the order in which they first came.
    pub closed spec fn order(&self) -> Seq<Seq<char>> {
        crate::text::views(self.keys@)
    }

    /// A map that holds nothing.
    pub fn new() -> (m: Self)
        ensures
            m.wf(),
            m@ == Map::<Seq<char>, T>::empty(),
            m.order() == Seq::<Seq<char>>::empty(),
    {
        let m = IdMap { index: index_new(), keys: Vec::new(), vals: Vec::new() };
        assert(m@ =~= Map::<Seq<char>, T>::empty());
        assert(m.order() =~= Seq::<Seq<char>>::empty());
        m
    }

    /// The keys are those of the map, each once.
    pub proof fn lemma_order(&self)
        requires
            self.wf(),
        ensures
            self.order().no_duplicates(),
            self.order().to_set() =~= self@.dom(),
            self@.dom().finite(),
            self@.dom().len() == self.order().len(),
    {
        let o = self.order();
        assert forall|i: int, j: int| 0 <= i < o.len() && 0 <= j < o.len() && i != j implies o[i]
            != o[j] by {
            assert(o[i] == self.keys@[i]@);
            assert(o[j] == self.keys@[j]@);
        }
        assert forall|k: Seq<char>| o.to_set().contains(k) <==> self@.dom().contains(k) by {
            if o.to_set().contains(k) {
                let i = choose|i: int| 0 <= i < o.len() && o[i] == k;
                assert(self.keys@[i]@ == k);
            }
            if self@.dom().contains(k) {
                let i = fx_index(self.index)[k] as int;
                assert(o[i] == k);
            }
        }
        o.unique_seq_to_set();
    }

    pub fn len(&self) -> (n: usize)
        requires
            self.wf(),
        ensures
            n == self.order().len(),
    {
        self.keys.len()
    }

    pub fn contains(&self, k: &str) -> (r: bool)
        requires
            self.wf(),
        ensures
            r == self@.contains_key(k@),
    {
        index_get(&self.index, k).is_some()
    }

    pub fn get(&self, k: &str) -> (r: Option<&T>)
        requires
            self.wf(),
        ensures
            r is Some <==> self@.contains_key(k@),
            r matches Some(v) ==> *v == self@[k@],
    {
        match index_get(&self.index, k) {
            Some(i) => Some(&self.vals[i]),
            None => None,
        }
    }

    /// The key that came `i`-th.
    pub fn key(&self, i: usize) -> (k: &String)
        requires
            self.wf(),
            i < self.order().len(),
        ensures
            k@ == self.order()[i as int],
            self@.contains_key(k@),
    {
        &self.keys[i]
    }

    /// The value of the key that came `i`-th.
    pub fn value(&self, i: usize) -> (v: &T)
        requires
            self.wf(),
            i < self.order().len(),
        ensures
            self@.contains_key(self.order()[i as int]),
            *v == self@[self.order()[i as int]],
    {
        assert(self.order()[i as int] == self.keys@[i as int]@);
        &self.vals[i]
    }

    /// Lends the value of `k` out for a change.
    pub fn get_mut(&mut self, k: &str) -> (r: Option<&mut T>)
        requires
            old(self).wf(),
        ensures
            final(self).wf(),
            final(self).order() == old(self).order(),
            match r {
                Some(v) => old(self)@.contains_key(k@) && *v == old(self)@[k@] && final(self)@ == old(
                    self,
                )@.insert(k@, *final(v)),
                None => !old(self)@.contains_key(k@) && final(self)@ == old(self)@,
            },
    {
        match index_get(&self.index, k) {
            Some(i) => {
                let ghost a = *self;
                assert forall|b: Self, v: T|
                    #![trigger b@, a@.insert(k@, v)]
                    b.index == a.index && b.keys == a.keys && b.vals@ == a.vals@.update(
                        i as int,
                        v,
                    ) implies b@ == a@.insert(k@, v) by {
                    assert forall|q: Seq<char>| b@.contains_key(q) implies b@[q] == a@.insert(
                        k@,
                        v,
                    )[q] by {
                        assert(fx_index(a.index).contains_key(q));
                        if q != k@ {
                            assert(fx_index(a.index)[q] != i);
                        }
                    }
                    assert(b@ =~= a@.insert(k@, v));
                }
                let r = &mut self.vals[i];
                Some(r)
            },
            None => None,
        }
    }

    /// Puts `v` under `k`, in place of what stood there.
    pub fn insert(&mut self, k: String, v: T)
        requires
            old(self).wf(),
        ensures
            final(self).wf(),
            final(self)@ == old(self)@.insert(k@, v),
            final(self).order() == (if old(self)@.contains_key(k@) {
                old(self).order()
            } else {
                old(self).order().push(k@)
            }),
    {
        match index_get(&self.index, k.as_str()) {
            Some(i) => {
                self.vals.set(i, v);
                proof {
                    let a = old(self);
                    assert(self@ =~= a@.insert(k@, v)) by {
                        assert forall|q: Seq<char>| self@.contains_key(q) implies self@[q]
                            == a@.insert(k@, v)[q] by {
                            assert(fx_index(a.index).contains_key(q));
                            if q != k@ {
                                assert(fx_index(a.index)[q] != i);
                            }
                        }
                    }
                }
            },
            None => {
                let n: usize = self.keys.len();
                let copy = k.clone();
                index_put(&mut self.index, copy, n);
                self.keys.push(k);
                self.vals.push(v);
                proof {
                    let a = old(self);
                    assert(self.order() =~= a.order().push(k@));
                    assert forall|i: int| 0 <= i < self.keys@.len() implies fx_index(
                        self.index,
                    ).contains_key(#[trigger] self.keys@[i]@) && fx_index(
                        self.index,
                    )[self.keys@[i]@] == i by {
                        if i < n {
                            assert(self.keys@[i] == a.keys@[i]);
                            assert(a.keys@[i]@ != k@);
                        }
                    }
                    assert(self@ =~= a@.insert(k@, v)) by {
                        assert forall|q: Seq<char>| self@.contains_key(q) implies self@[q]
                            == a@.insert(k@, v)[q] by {
                            if q != k@ {
                                assert(fx_index(a.index).contains_key(q));
                            }
                        }
                    }
                }
            },
        }
    }

    /// Takes the entry of `k` out and hands its value back, where there is one.
    pub fn remove(&mut self, k: &str) -> (r: Option<T>)
        requires
            old(self).wf(),
        ensures
            final(self).wf(),
            final(self)@ == old(self)@.remove(k@),
            r is Some <==> old(self)@.contains_key(k@),
            r matches Some(v) ==> v == old(self)@[k@],
    {
        match index_get(&self.index, k) {
            None => {
                assert(self@ =~= old(self)@.remove(k@));
                None
            },
            Some(i) => {
                let gone = self.keys.swap_remove(i);
                let v = self.vals.swap_remove(i);
                index_drop(&mut self.index, k);
                if i < self.keys.len() {
                    let moved = self.keys[i].clone();
                    index_put(&mut self.index, moved, i);
                }
                proof {
                    let a = old(self);
                    let last = a.keys@.len() - 1;
                    assert(gone@ == k@);
                    assert(fx_index(a.index).contains_key(a.keys@[last]@));
                    assert forall|j: int| 0 <= j < self.keys@.len() implies fx_index(
                        self.index,
                    ).contains_key(#[trigger] self.keys@[j]@) && fx_index(
                        self.index,
                    )[self.keys@[j]@] == j by {
                        if j == i {
                            assert(self.keys@[j] == a.keys@[last]);
                        } else {
                            assert(self.keys@[j] == a.keys@[j]);
                            assert(fx_index(a.index)[a.keys@[j]@] == j);
                        }
                    }
                    assert forall|q: Seq<char>| #[trigger]
                        fx_index(self.index).contains_key(q) implies fx_index(self.index)[q]
                        < self.keys@.len() && self.keys@[fx_index(self.index)[q] as int]@ == q by {
                        assert(fx_index(a.index).contains_key(q));
                        if q == a.keys@[last]@ {
                        } else {
                            assert(fx_index(a.index)[q] != last);
                        }
                    }
                    assert(self@ =~= a@.remove(k@)) by {
                        assert forall|q: Seq<char>| self@.contains_key(q) <==> a@.remove(
                            k@,
                        ).contains_key(q) by {
                            if a@.remove(k@).contains_key(q) {
                                assert(fx_index(a.index).contains_key(q));
                            }
                        }
                        assert forall|q: Seq<char>| self@.contains_key(q) implies self@[q]
                            == a@[q] by {
                            assert(fx_index(self.index).contains_key(q));
                            assert(fx_index(a.index).contains_key(q));
                        }
                    }
                }
                Some(v)
            },
        }
    }
}

/// A set of strings that also remembers the order in which they first came.
#[derive(Debug)]
pub struct NameSet {
    names: FxHashSet<String>,
    list: Vec<String>,
}

impl View for NameSet {
    type V = Set<Seq<char>>;

    closed spec fn view(&self) -> Set<Seq<char>> {
        fx_names(self.names)
    }
}

impl NameSet {
    #[verifier::type_invariant]
    spec fn inv(self) -> bool {
        &&& crate::text::views(self.list@).no_duplicates()
        &&& crate::text::views(self.list@).to_set() =~= fx_names(self.names)
    }

    /// The strings, in the order in which they first came.
    pub closed spec fn order(&self) -> Seq<Seq<char>> {
        crate::text::views(self.list@)
    }

    /// A set that holds nothing.
    pub fn new() -> (r: Self)
        ensures
            r@ == Set::<Seq<char>>::empty(),
            r.order() == Seq::<Seq<char>>::empty(),
    {
        let list: Vec<String> = Vec::new();
        proof {
            assert(crate::text::views(list@) =~= Seq::<Seq<char>>::empty());
            assert(crate::text::views(list@).to_set() =~= Set::<Seq<char>>::empty());
        }
        NameSet { names: names_new(), list }
    }

    /// How many strings it holds: each of them once in its order.
    pub fn len(&self) -> (n: usize)
        ensures
            n == self.order().len(),
            self.order().no_duplicates(),
            self.order().to_set() == self@,
            self@.finite(),
            self@.len() == n,
    {
        proof {
            use_type_invariant(self);
            self.order().unique_seq_to_set();
        }
        self.list.len()
    }

    pub fn contains(&self, k: &str) -> (r: bool)
        ensures
            r == self@.contains(k@),
    {
        names_has(&self.names, k)
    }

    /// The string that came `i`-th.
    pub fn get(&self, i: usize) -> (r: &String)
        requires
            i < self.order().len(),
        ensures
            r@ == self.order()[i as int],
    {
        &self.list[i]
    }

    /// Adds a string, and says whether it was new.
    pub fn insert(&mut self, k: String) -> (fresh: bool)
        ensures
            final(self)@ == old(self)@.insert(k@),
            fresh == !old(self)@.contains(k@),
            final(self).order() == (if fresh {
                old(self).order().push(k@)
            } else {
                old(self).order()
            }),
    {
        proof {
            use_type_invariant(&*self);
        }
        if names_has(&self.names, k.as_str()) {
            assert(self@ =~= old(self)@.insert(k@));
            return false;
        }
        let mut other = NameSet::new();
        std::mem::swap(&mut other, self);
        let NameSet { mut names, mut list } = other;
        let ghost l0 = crate::text::views(list@);
        names_add(&mut names, k.clone());
        list.push(k);
        proof {
            assert(crate::text::views(list@) =~= l0.push(k@));
            assert(!l0.contains(k@)) by {
                assert(!l0.to_set().contains(k@));
            }
            crate::types::lemma_to_set_push(l0, k@);
        }
        *self = NameSet { names, list };
        true
    }

    /// Takes a string out, and says whether it was there.
    pub fn remove(&mut self, k: &str) -> (there: bool)
        ensures
            final(self)@ == old(self)@.remove(k@),
            there == old(self)@.contains(k@),
    {
        proof {
            use_type_invariant(&*self);
        }
        if !names_has(&self.names, k) {
            assert(self@ =~= old(self)@.remove(k@));
            return false;
        }
        let mut other = NameSet::new();
        std::mem::swap(&mut other, self);
        let NameSet { mut names, mut list } = other;
        let ghost l0 = crate::text::views(list@);
        let mut i: usize = 0;
        assert(l0.to_set().contains(k@));
        while i < list.len() && !crate::text::same(list[i].as_str(), k)
            invariant
                i <= list@.len(),
                l0 == crate::text::views(list@),
                l0.contains(k@),
                forall|j: int| 0 <= j < i ==> l0[j] != k@,
            decreases list@.len() - i,
        {
            i += 1;
        }
        names_drop(&mut names, k);
        if i < list.len() {
            list.remove(i);
        }
        proof {
            let l1 = crate::text::views(list@);
            assert(l0[i as int] == k@);
            assert(l1 =~= l0.remove(i as int));
            assert forall|x: Seq<char>| l1.to_set().contains(x) <==> l0.to_set().remove(
                k@,
            ).contains(x) by {
                if l1.contains(x) {
                    let j = choose|j: int| 0 <= j < l1.len() && l1[j] == x;
                    assert(l0[if j < i {
                        j
                    } else {
                        j + 1
                    }] == x);
                }
                if l0.contains(x) && x != k@ {
                    let j = choose|j: int| 0 <= j < l0.len() && l0[j] == x;
                    assert(l1[if j < i {
                        j
                    } else {
                        j - 1
                    }] == x);
                }
            }
            assert(l1.to_set() =~= l0.to_set().remove(k@));
        }
        *self = NameSet { names, list };
        true
    }
}

} // verus!
