//! Values grouped under string keys, the finite-map structure behind
//! adjacency lists and shared-species tables.

use vstd::prelude::*;
use crate::names::{name_position, names_contain};

verus! {

/// `m` with `v` appended to the group of `k` (a group of its own when `k` is new).
pub open spec fn push_into<V>(m: Map<Seq<char>, Seq<V>>, k: Seq<char>, v: V) -> Map<Seq<char>, Seq<V>> {
    m.insert(k, if m.contains_key(k) { m[k].push(v) } else { seq![v] })
}

/// The groups of `m` that hold more than `min` values.
pub open spec fn keep_larger<V>(m: Map<Seq<char>, Seq<V>>, min: nat) -> Map<Seq<char>, Seq<V>> {
    Map::new(|k: Seq<char>| m.contains_key(k) && m[k].len() > min, |k: Seq<char>| m[k])
}

/// Lists of values, each under a distinct string key. Entry `j` is the key
/// `keys[j]` with the values `groups[j]`, in the order they were added.
pub struct Grouping<V> {
    pub keys: Vec<String>,
    pub groups: Vec<Vec<V>>,
}

impl<V> Grouping<V> {
    pub open spec fn key_at(&self, j: int) -> Seq<char> {
        self.keys@[j]@
    }

    /// One group per key, and no key twice.
    pub open spec fn wf(&self) -> bool {
        &&& self.keys.len() == self.groups.len()
        &&& forall|i: int, j: int|
            0 <= i < self.keys.len() && 0 <= j < self.keys.len() && i != j ==> #[trigger] self.key_at(i)
                != #[trigger] self.key_at(j)
    }

    pub open spec fn has_key(&self, k: Seq<char>) -> bool {
        exists|j: int| 0 <= j < self.keys.len() && #[trigger] self.key_at(j) == k
    }

    pub open spec fn index_of_key(&self, k: Seq<char>) -> int {
        choose|j: int| 0 <= j < self.keys.len() && #[trigger] self.key_at(j) == k
    }

    /// The grouping as a map from key to the values under it.
    pub open spec fn as_map(&self) -> Map<Seq<char>, Seq<V>> {
        Map::new(|k: Seq<char>| self.has_key(k), |k: Seq<char>| self.groups@[self.index_of_key(k)]@)
    }

    proof fn lemma_index_of_key(&self, j: int)
        requires
            self.wf(),
            0 <= j < self.keys.len(),
        ensures
            self.has_key(self.key_at(j)),
            self.index_of_key(self.key_at(j)) == j,
            self.as_map().contains_key(self.key_at(j)),
            self.as_map()[self.key_at(j)] == self.groups@[j]@,
    {
        let k = self.key_at(j);
        assert(self.has_key(k));
        let i = self.index_of_key(k);
        assert(self.key_at(i) == k);
    }

    /// An empty grouping.
    pub fn new() -> (g: Self)
        ensures
            g.wf(),
            g.as_map() == Map::<Seq<char>, Seq<V>>::empty(),
    {
        let g = Grouping { keys: Vec::new(), groups: Vec::new() };
        assert(g.as_map() =~= Map::<Seq<char>, Seq<V>>::empty());
        g
    }

    /// The entry whose key equals `key`, if there is one.
    pub fn position(&self, key: &String) -> (pos: Option<usize>)
        requires
            self.wf(),
        ensures
            pos is None <==> !self.has_key(key@),
            pos matches Some(j) ==> j < self.keys.len() && self.key_at(j as int) == key@,
    {
        let pos = name_position(&self.keys, key);
        proof {
            if names_contain(self.keys@, key@) {
                let j = choose|j: int| 0 <= j < self.keys.len() && #[trigger] self.keys@[j]@ == key@;
                assert(self.key_at(j) == key@);
            }
            if self.has_key(key@) {
                let j = self.index_of_key(key@);
                assert(self.keys@[j]@ == key@);
            }
        }
        pos
    }

    /// Whether some entry has the key `key`.
    pub fn contains_key(&self, key: &String) -> (found: bool)
        requires
            self.wf(),
        ensures
            found == self.as_map().contains_key(key@),
    {
        self.position(key).is_some()
    }

    /// The values under `key`, if it is a key.
    pub fn get(&self, key: &String) -> (group: Option<&Vec<V>>)
        requires
            self.wf(),
        ensures
            group is None <==> !self.as_map().contains_key(key@),
            group matches Some(g) ==> g@ == self.as_map()[key@],
    {
        match self.position(key) {
            Some(p) => {
                proof {
                    self.lemma_index_of_key(p as int);
                }
                Some(&self.groups[p])
            },
            None => None,
        }
    }

    /// Appends `value` to the group of `key`, opening that group if it is new.
    pub fn add(&mut self, key: &String, value: V)
        requires
            old(self).wf(),
        ensures
            final(self).wf(),
            final(self).as_map() == push_into(old(self).as_map(), key@, value),
    {
        let ghost old_g = *self;
        let ghost target = push_into(old_g.as_map(), key@, value);
        match self.position(key) {
            Some(p) => {
                proof {
                    old_g.lemma_index_of_key(p as int);
                }
                self.groups[p].push(value);
                let ghost new_g = *self;
                assert(new_g.keys@ == old_g.keys@);
                assert(forall|i: int| 0 <= i < new_g.keys.len() ==> #[trigger] new_g.key_at(i) == old_g.key_at(i));
                assert(new_g.groups@.len() == old_g.groups@.len());
                assert(new_g.wf());
                assert forall|k: Seq<char>|
                    #![trigger new_g.as_map().dom().contains(k)]
                    #![trigger target.dom().contains(k)]
                    new_g.as_map().dom().contains(k) <==> target.dom().contains(k) by {
                    if new_g.has_key(k) {
                        let i = new_g.index_of_key(k);
                        assert(old_g.key_at(i) == k);
                    }
                    if old_g.has_key(k) {
                        let i = old_g.index_of_key(k);
                        assert(new_g.key_at(i) == k);
                    }
                }
                assert forall|k: Seq<char>| #![trigger target[k]] target.dom().contains(k) implies
                    new_g.as_map()[k] == target[k] by {
                    if k == key@ {
                        new_g.lemma_index_of_key(p as int);
                    } else {
                        let i = old_g.index_of_key(k);
                        old_g.lemma_index_of_key(i);
                        new_g.lemma_index_of_key(i);
                        assert(i != p);
                        assert(new_g.groups@[i] == old_g.groups@[i]);
                    }
                }
                assert(new_g.as_map() =~= target);
            },
            None => {
                let mut group = Vec::new();
                group.push(value);
                self.insert_new(key.clone(), group);
                assert(seq![value] =~= Seq::<V>::empty().push(value));
            },
        }
    }

    /// Adds the entry `key` with the values `group`; `key` must be new.
    pub fn insert_new(&mut self, key: String, group: Vec<V>)
        requires
            old(self).wf(),
            !old(self).has_key(key@),
        ensures
            final(self).wf(),
            final(self).as_map() == old(self).as_map().insert(key@, group@),
    {
        let ghost old_g = *self;
        let ghost target = old_g.as_map().insert(key@, group@);
        let ghost kv = key@;
        let ghost gv = group@;
        self.keys.push(key);
        self.groups.push(group);
        let ghost new_g = *self;
        let ghost n = old_g.keys.len() as int;
        assert(new_g.key_at(n) == kv);
        assert(forall|i: int| 0 <= i < n ==> #[trigger] new_g.key_at(i) == old_g.key_at(i));
        assert(new_g.wf());
        assert forall|k: Seq<char>|
            #![trigger new_g.as_map().dom().contains(k)]
            #![trigger target.dom().contains(k)]
            new_g.as_map().dom().contains(k) <==> target.dom().contains(k) by {
            if new_g.has_key(k) {
                let i = new_g.index_of_key(k);
                if i < n {
                    assert(old_g.key_at(i) == k);
                }
            }
            if old_g.has_key(k) {
                let i = old_g.index_of_key(k);
                assert(new_g.key_at(i) == k);
            }
            if k == kv {
                assert(new_g.key_at(n) == k);
            }
        }
        assert forall|k: Seq<char>| #![trigger target[k]] target.dom().contains(k) implies
            new_g.as_map()[k] == target[k] by {
            if k == kv {
                new_g.lemma_index_of_key(n);
            } else {
                let i = old_g.index_of_key(k);
                old_g.lemma_index_of_key(i);
                new_g.lemma_index_of_key(i);
            }
        }
        assert(new_g.as_map() =~= target);
    }

    /// The entries of `orig` at index `m` or later whose groups hold more
    /// than `min` values.
    spec fn kept_from(orig: Self, m: int, min: nat) -> Map<Seq<char>, Seq<V>> {
        Map::new(
            |k: Seq<char>| orig.has_key(k) && orig.index_of_key(k) >= m && orig.as_map()[k].len() > min,
            |k: Seq<char>| orig.as_map()[k],
        )
    }

    /// Keeps only the groups that hold more than `min` values.
    pub fn retain_larger(self, min: usize) -> (g: Self)
        requires
            self.wf(),
        ensures
            g.wf(),
            g.as_map() == keep_larger(self.as_map(), min as nat),
    {
        let ghost orig = self;
        let mut rest = self;
        let mut out: Grouping<V> = Grouping::new();
        assert(out.as_map() =~= Self::kept_from(orig, orig.keys.len() as int, min as nat));
        while rest.keys.len() > 0
            invariant
                orig.wf(),
                out.wf(),
                rest.keys.len() == rest.groups.len(),
                rest.keys.len() <= orig.keys.len(),
                rest.keys@ == orig.keys@.take(rest.keys.len() as int),
                rest.groups@ == orig.groups@.take(rest.keys.len() as int),
                out.as_map() == Self::kept_from(orig, rest.keys.len() as int, min as nat),
            decreases rest.keys.len(),
        {
            let ghost m = rest.keys.len() as int;
            let ghost j = m - 1;
            let key = rest.keys.pop().unwrap();
            let group = rest.groups.pop().unwrap();
            proof {
                assert(key@ == orig.key_at(j));
                assert(group@ == orig.groups@[j]@);
                orig.lemma_index_of_key(j);
                assert(rest.keys@ =~= orig.keys@.take(j));
                assert(rest.groups@ =~= orig.groups@.take(j));
            }
            if group.len() > min {
                proof {
                    if out.has_key(key@) {
                        let i = out.index_of_key(key@);
                        out.lemma_index_of_key(i);
                        assert(Self::kept_from(orig, m, min as nat).contains_key(key@));
                    }
                }
                let ghost before = out.as_map();
                out.insert_new(key, group);
                proof {
                    let target = Self::kept_from(orig, j, min as nat);
                    assert forall|k: Seq<char>| #![trigger target.dom().contains(k)]
                        target.dom().contains(k) <==> out.as_map().dom().contains(k) by {
                        if orig.has_key(k) && orig.index_of_key(k) == j {
                            assert(k == orig.key_at(j));
                        }
                    }
                    assert(out.as_map() =~= target);
                }
            } else {
                proof {
                    let target = Self::kept_from(orig, j, min as nat);
                    assert forall|k: Seq<char>| #![trigger target.dom().contains(k)]
                        target.dom().contains(k) <==> out.as_map().dom().contains(k) by {
                        if orig.has_key(k) && orig.index_of_key(k) == j {
                            assert(k == orig.key_at(j));
                        }
                    }
                    assert(out.as_map() =~= target);
                }
            }
        }
        proof {
            let target = keep_larger(orig.as_map(), min as nat);
            assert forall|k: Seq<char>| #![trigger target.dom().contains(k)]
                target.dom().contains(k) <==> out.as_map().dom().contains(k) by {
                if orig.has_key(k) {
                    let i = orig.index_of_key(k);
                    orig.lemma_index_of_key(i);
                }
            }
            assert(out.as_map() =~= target);
        }
        out
    }
}

} // verus!
