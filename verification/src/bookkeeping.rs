//! Search bookkeeping containers for the graph domain: a set of
//! vertices (the visited set) and a predecessor map from vertex to
//! vertex (the came-from map), both modelled by mathematical sets and
//! maps and backed by duplicate-free vectors.

use vstd::prelude::*;

use crate::graph::Vertex;

verus! {

broadcast use {
    vstd::set::group_set_axioms,
    vstd::seq_lib::seq_to_set_is_finite,
    vstd::seq_lib::group_seq_properties,
};

/// A finite set of vertices with value-based membership.
pub struct VertexSet {
    items: Vec<Vertex>,
}

impl View for VertexSet {
    type V = Set<Vertex>;

    closed spec fn view(&self) -> Set<Vertex> {
        self.items@.to_set()
    }
}

impl VertexSet {
    /// The elements are stored without duplicates, so the stored
    /// length is the cardinality of the set.
    pub closed spec fn wf(&self) -> bool {
        self.items@.no_duplicates()
    }

    pub fn new() -> (r: Self)
        ensures
            r.wf(),
            r@ == Set::<Vertex>::empty(),
    {
        let r = VertexSet { items: Vec::new() };
        proof {
            assert(r.items@.to_set() =~= Set::<Vertex>::empty());
        }
        r
    }

    pub fn contains(&self, v: Vertex) -> (r: bool)
        ensures
            r == self@.contains(v),
    {
        let n = self.items.len();
        let mut i: usize = 0;
        while i < n
            invariant
                n == self.items@.len(),
                0 <= i <= n,
                forall|j: int| 0 <= j < i ==> self.items@[j] != v,
            decreases n - i,
        {
            if self.items[i] == v {
                assert(self.items@.contains(v));
                return true;
            }
            i += 1;
        }
        assert(!self.items@.contains(v));
        false
    }

    pub fn insert(&mut self, v: Vertex)
        requires
            old(self).wf(),
        ensures
            final(self).wf(),
            final(self)@ == old(self)@.insert(v),
            final(self)@.len() == old(self)@.len() + (if old(self)@.contains(v) {
                0int
            } else {
                1int
            }),
    {
        proof {
            self.items@.unique_seq_to_set();
        }
        if !self.contains(v) {
            self.items.push(v);
            proof {
                assert(self.items@ == old(self).items@.push(v));
                old(self).items@.lemma_push_to_set_commute(v);
                assert(self@ =~= old(self)@.insert(v));
                self.items@.unique_seq_to_set();
            }
        } else {
            proof {
                assert(self@ =~= old(self)@.insert(v));
            }
        }
    }

    pub fn len(&self) -> (r: usize)
        requires
            self.wf(),
        ensures
            r == self@.len(),
    {
        proof {
            self.items@.unique_seq_to_set();
        }
        self.items.len()
    }
}

/// A predecessor map from vertex to vertex, modelled as a
/// mathematical `Map` and stored as a vector of key-value pairs with
/// pairwise distinct keys.
pub struct VertexMap {
    entries: Vec<(Vertex, Vertex)>,
}

/// The map denoted by an association list; a later entry for a key
/// overrides an earlier one.
pub open spec fn map_of(s: Seq<(Vertex, Vertex)>) -> Map<Vertex, Vertex>
    decreases s.len(),
{
    if s.len() == 0 {
        Map::empty()
    } else {
        map_of(s.drop_last()).insert(s.last().0, s.last().1)
    }
}

/// A key is in the denoted map exactly when some entry carries it.
pub proof fn lemma_map_of_dom(s: Seq<(Vertex, Vertex)>, k: Vertex)
    ensures
        map_of(s).contains_key(k) <==> exists|i: int| 0 <= i < s.len() && s[i].0 == k,
    decreases s.len(),
{
    if s.len() > 0 {
        lemma_map_of_dom(s.drop_last(), k);
        if s.last().0 == k {
            assert(s[s.len() - 1].0 == k);
        } else if map_of(s).contains_key(k) {
            let i = choose|i: int| 0 <= i < s.drop_last().len() && s.drop_last()[i].0 == k;
            assert(s[i].0 == k);
        } else if exists|i: int| 0 <= i < s.len() && s[i].0 == k {
            let i = choose|i: int| 0 <= i < s.len() && s[i].0 == k;
            assert(s.drop_last()[i].0 == k);
        }
    }
}

/// An entry whose key no later entry repeats gives the key's value in
/// the denoted map.
pub proof fn lemma_map_of_at(s: Seq<(Vertex, Vertex)>, i: int)
    requires
        0 <= i < s.len(),
        forall|j: int| i < j < s.len() ==> s[j].0 != s[i].0,
    ensures
        map_of(s).contains_key(s[i].0),
        map_of(s)[s[i].0] == s[i].1,
    decreases s.len(),
{
    if i == s.len() - 1 {
    } else {
        assert(s.drop_last()[i] == s[i]);
        lemma_map_of_at(s.drop_last(), i);
    }
}

/// With pairwise distinct keys, the denoted map has exactly one key
/// per entry.
pub proof fn lemma_map_of_len(s: Seq<(Vertex, Vertex)>)
    requires
        forall|i: int, j: int| 0 <= i < j < s.len() ==> s[i].0 != s[j].0,
    ensures
        map_of(s).dom().finite(),
        map_of(s).dom().len() == s.len(),
    decreases s.len(),
{
    if s.len() > 0 {
        lemma_map_of_len(s.drop_last());
        lemma_map_of_dom(s.drop_last(), s.last().0);
        assert(forall|i: int| 0 <= i < s.drop_last().len() ==> s.drop_last()[i] == s[i]);
        assert(!map_of(s.drop_last()).contains_key(s.last().0));
    }
}

impl View for VertexMap {
    type V = Map<Vertex, Vertex>;

    closed spec fn view(&self) -> Map<Vertex, Vertex> {
        map_of(self.entries@)
    }
}

impl VertexMap {
    /// The stored keys are pairwise distinct.
    pub closed spec fn wf(&self) -> bool {
        forall|i: int, j: int|
            0 <= i < j < self.entries@.len() ==> self.entries@[i].0 != self.entries@[j].0
    }

    pub fn new() -> (r: Self)
        ensures
            r.wf(),
            r@ == Map::<Vertex, Vertex>::empty(),
            r@.dom().finite(),
            r@.dom().len() == 0,
    {
        let r = VertexMap { entries: Vec::new() };
        proof {
            lemma_map_of_len(r.entries@);
        }
        r
    }

    pub fn contains_key(&self, k: Vertex) -> (r: bool)
        ensures
            r == self@.contains_key(k),
    {
        proof {
            lemma_map_of_dom(self.entries@, k);
        }
        let n = self.entries.len();
        let mut i: usize = 0;
        while i < n
            invariant
                n == self.entries@.len(),
                0 <= i <= n,
                forall|j: int| 0 <= j < i ==> self.entries@[j].0 != k,
            decreases n - i,
        {
            if self.entries[i].0 == k {
                proof {
                    assert(self.entries@[i as int].0 == k);
                    assert(exists|j: int| 0 <= j < self.entries@.len() && self.entries@[j].0 == k);
                    lemma_map_of_dom(self.entries@, k);
                    assert(map_of(self.entries@).contains_key(k));
                    assert(self@.contains_key(k));
                }
                return true;
            }
            i += 1;
        }
        false
    }

    pub fn get(&self, k: Vertex) -> (r: Option<Vertex>)
        requires
            self.wf(),
        ensures
            r == (if self@.contains_key(k) {
                Some(self@[k])
            } else {
                None::<Vertex>
            }),
    {
        proof {
            lemma_map_of_dom(self.entries@, k);
        }
        let n = self.entries.len();
        let mut i: usize = 0;
        while i < n
            invariant
                self.wf(),
                n == self.entries@.len(),
                0 <= i <= n,
                forall|j: int| 0 <= j < i ==> self.entries@[j].0 != k,
            decreases n - i,
        {
            if self.entries[i].0 == k {
                proof {
                    lemma_map_of_at(self.entries@, i as int);
                }
                return Some(self.entries[i].1);
            }
            i += 1;
        }
        None
    }

    /// Record a predecessor for a vertex seen for the first time.
    /// During a search every vertex is discovered at most once, so
    /// insertion is only ever needed for a fresh key.
    pub fn insert(&mut self, k: Vertex, v: Vertex)
        requires
            old(self).wf(),
            !old(self)@.contains_key(k),
        ensures
            final(self).wf(),
            final(self)@ == old(self)@.insert(k, v),
            final(self)@.dom().finite(),
            final(self)@.dom().len() == old(self)@.dom().len() + 1,
    {
        proof {
            lemma_map_of_dom(self.entries@, k);
            lemma_map_of_len(self.entries@);
        }
        self.entries.push((k, v));
        proof {
            assert(self.entries@.drop_last() =~= old(self).entries@);
            assert(self@ == old(self)@.insert(k, v));
            lemma_map_of_len(self.entries@);
        }
    }

    pub fn len(&self) -> (r: usize)
        requires
            self.wf(),
        ensures
            r == self@.dom().len(),
    {
        proof {
            lemma_map_of_len(self.entries@);
        }
        self.entries.len()
    }
}

} // verus!
