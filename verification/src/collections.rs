//! `NameMap`: a map keyed by names, kept sorted by key (the iteration order of a
//! `BTreeMap<String, _>`), with a `Map<Seq<char>, V>` view.

use vstd::prelude::*;

use crate::text::{chars_of, lemma_seq_lt_irreflexive,
    lemma_seq_lt_total, lemma_seq_lt_transitive, seq_eq, seq_lt, vec_lt};

verus! {

/// Keys strictly increasing in code-point order.
pub open spec fn sorted_keys(ks: Seq<Seq<char>>) -> bool {
    forall|i: int, j: int| 0 <= i < j < ks.len() ==> seq_lt(#[trigger] ks[i], #[trigger] ks[j])
}

/// The map described by parallel key and value lists.
pub open spec fn map_of<V>(ks: Seq<Seq<char>>, vs: Seq<V>) -> Map<Seq<char>, V> {
    Map::new(|k: Seq<char>| ks.contains(k), |k: Seq<char>| vs[ks.index_of(k)])
}

pub proof fn lemma_sorted_unique(ks: Seq<Seq<char>>, i: int, j: int)
    requires
        sorted_keys(ks),
        0 <= i < ks.len(),
        0 <= j < ks.len(),
        ks[i] == ks[j],
    ensures
        i == j,
{
    if i < j {
        lemma_seq_lt_irreflexive(ks[i]);
    } else if j < i {
        lemma_seq_lt_irreflexive(ks[i]);
    }
}

pub proof fn lemma_map_of_at<V>(ks: Seq<Seq<char>>, vs: Seq<V>, i: int)
    requires
        sorted_keys(ks),
        ks.len() == vs.len(),
        0 <= i < ks.len(),
    ensures
        map_of(ks, vs).contains_key(ks[i]),
        map_of(ks, vs)[ks[i]] == vs[i],
{
    assert(ks.contains(ks[i]));
    let j = ks.index_of(ks[i]);
    lemma_sorted_unique(ks, i, j);
}

/// A name-keyed map iterated in sorted key order.
#[derive(Debug, PartialEq, Eq)]
pub struct NameMap<V> {
    pub(crate) keys: Vec<String>,
    pub(crate) vals: Vec<V>,
}

impl<V> NameMap<V> {
    /// The keys, in iteration (sorted) order.
    pub closed spec fn key_list(&self) -> Seq<Seq<char>> {
        self.keys@.map_values(|s: String| s@)
    }

    /// The values, in the order of `key_list`.
    pub closed spec fn value_list(&self) -> Seq<V> {
        self.vals@
    }

    #[verifier::type_invariant]
    pub(crate) open spec fn inv(&self) -> bool {
        &&& self.keys@.len() == self.vals@.len()
        &&& sorted_keys(self.key_list())
    }

    /// Facts that hold of every map value built through this API.
    pub open spec fn well_formed(&self) -> bool {
        &&& self.key_list().len() == self.value_list().len()
        &&& sorted_keys(self.key_list())
    }

    /// Builds a map from key and value vectors already in sorted key order.
    pub(crate) fn from_parts(keys: Vec<String>, vals: Vec<V>) -> (r: Self)
        requires
            keys@.len() == vals@.len(),
            sorted_keys(keys@.map_values(|s: String| s@)),
        ensures
            r.key_list() == keys@.map_values(|s: String| s@),
            r.value_list() == vals@,
            r.keys@ == keys@,
            r.vals@ == vals@,
    {
        NameMap { keys, vals }
    }

    pub(crate) proof fn lemma_parts(&self)
        ensures
            self.key_list() == self.keys@.map_values(|s: String| s@),
            self.value_list() == self.vals@,
    {
    }

    /// An empty map.
    pub fn new() -> (m: Self)
        ensures
            m@ == Map::<Seq<char>, V>::empty(),
            m.key_list() == Seq::<Seq<char>>::empty(),
            m.well_formed(),
    {
        let m = NameMap { keys: Vec::new(), vals: Vec::new() };
        assert(m.key_list() =~= Seq::<Seq<char>>::empty());
        assert(m@ =~= Map::<Seq<char>, V>::empty());
        m
    }

    /// Number of entries.
    pub fn len(&self) -> (n: usize)
        ensures
            n == self.key_list().len(),
            self.well_formed(),
            self@.dom().len() == n,
    {
        proof {
            use_type_invariant(self);
            self.lemma_dom_len();
        }
        self.keys.len()
    }

    /// True when the map holds no entry.
    pub fn is_empty(&self) -> (b: bool)
        ensures
            b == (self.key_list().len() == 0),
            b == (self@ == Map::<Seq<char>, V>::empty()),
            self.well_formed(),
    {
        proof {
            use_type_invariant(self);
            if self.key_list().len() == 0 {
                assert(self@ =~= Map::<Seq<char>, V>::empty());
            } else {
                assert(self@.contains_key(self.key_list()[0]));
            }
        }
        self.keys.len() == 0
    }

    proof fn lemma_dom_len(&self)
        requires
            self.well_formed(),
        ensures
            self@.dom().len() == self.key_list().len(),
            self@.dom() == self.key_list().to_set(),
    {
        let ks = self.key_list();
        assert(self@.dom() =~= ks.to_set());
        assert(ks.no_duplicates()) by {
            assert forall|i: int, j: int| 0 <= i < ks.len() && 0 <= j < ks.len() && i != j
                implies ks[i] != ks[j] by {
                if ks[i] == ks[j] {
                    lemma_sorted_unique(ks, i, j);
                }
            }
        }
        ks.unique_seq_to_set();
    }

    /// Every key of the view is listed, and each listed key maps to its value.
    pub proof fn lemma_view(&self)
        requires
            self.well_formed(),
        ensures
            forall|i: int| #![trigger self.key_list()[i]] 0 <= i < self.key_list().len() ==>
                self@.contains_key(self.key_list()[i]) && self@[self.key_list()[i]]
                    == self.value_list()[i],
            forall|k: Seq<char>| #[trigger] self@.contains_key(k) <==> self.key_list().contains(k),
    {
        let ks = self.key_list();
        let vs = self.value_list();
        assert forall|i: int| #![trigger ks[i]] 0 <= i < ks.len() implies
            map_of(ks, vs).contains_key(ks[i]) && map_of(ks, vs)[ks[i]] == vs[i] by {
            lemma_map_of_at(ks, vs, i);
        }
    }

    /// The key at position `i` of the iteration order.
    pub fn key_at(&self, i: usize) -> (k: &String)
        requires
            i < self.key_list().len(),
        ensures
            k@ == self.key_list()[i as int],
            self.well_formed(),
    {
        proof {
            use_type_invariant(self);
        }
        &self.keys[i]
    }

    /// The value at position `i` of the iteration order.
    pub fn value_at(&self, i: usize) -> (v: &V)
        requires
            i < self.key_list().len(),
        ensures
            *v == self.value_list()[i as int],
            *v == self@[self.key_list()[i as int]],
            self.well_formed(),
    {
        proof {
            use_type_invariant(self);
            lemma_map_of_at(self.key_list(), self.value_list(), i as int);
        }
        &self.vals[i]
    }

    /// Position of `key`, or where it would be inserted.
    fn find(&self, key: &Vec<char>) -> (r: (usize, bool))
        ensures
            r.0 <= self.key_list().len(),
            forall|j: int| 0 <= j < r.0 ==> seq_lt(#[trigger] self.key_list()[j], key@),
            r.1 ==> r.0 < self.key_list().len() && self.key_list()[r.0 as int] == key@,
            !r.1 ==> forall|j: int| r.0 <= j < self.key_list().len() ==> seq_lt(key@,
                #[trigger] self.key_list()[j]),
            self.well_formed(),
    {
        proof {
            use_type_invariant(self);
        }
        let n = self.keys.len();
        let mut i: usize = 0;
        while i < n
            invariant
                n == self.key_list().len(),
                self.well_formed(),
                i <= n,
                forall|j: int| 0 <= j < i ==> seq_lt(#[trigger] self.key_list()[j], key@),
            decreases n - i,
        {
            let k = chars_of(self.keys[i].as_str());
            assert(k@ == self.key_list()[i as int]);
            if vec_lt(&k, key) {
                i = i + 1;
            } else {
                if seq_eq(&k, key) {
                    return (i, true);
                }
                proof {
                    lemma_seq_lt_total(k@, key@);
                    assert forall|j: int| i <= j < n implies seq_lt(key@,
                        #[trigger] self.key_list()[j]) by {
                        if j > i {
                            lemma_seq_lt_transitive(key@, self.key_list()[i as int],
                                self.key_list()[j]);
                        }
                    }
                }
                return (i, false);
            }
        }
        (i, false)
    }

    /// True when `key` is present.
    pub fn contains_key(&self, key: &str) -> (b: bool)
        ensures
            b == self@.contains_key(key@),
            self.well_formed(),
    {
        let k = chars_of(key);
        let (p, found) = self.find(&k);
        proof {
            self.lemma_view();
            if !found && self.key_list().contains(key@) {
                let j = self.key_list().index_of(key@);
                if j < p {
                    lemma_seq_lt_irreflexive(key@);
                } else {
                    lemma_seq_lt_irreflexive(key@);
                }
            }
        }
        found
    }

    /// The value stored under `key`.
    pub fn get(&self, key: &str) -> (r: Option<&V>)
        ensures
            match r {
                Some(v) => self@.contains_key(key@) && self@[key@] == *v,
                None => !self@.contains_key(key@),
            },
            self.well_formed(),
    {
        let k = chars_of(key);
        let (p, found) = self.find(&k);
        proof {
            self.lemma_view();
        }
        if found {
            Some(self.value_at(p))
        } else {
            proof {
                if self.key_list().contains(key@) {
                    let j = self.key_list().index_of(key@);
                    lemma_seq_lt_irreflexive(key@);
                }
            }
            None
        }
    }

    /// Stores `value` under `key`, replacing any earlier value.
    pub fn insert(&mut self, key: String, value: V)
        ensures
            final(self)@ == old(self)@.insert(key@, value),
            final(self).well_formed(),
    {
        proof {
            use_type_invariant(&*self);
        }
        let kc = chars_of(key.as_str());
        let (p, found) = self.find(&kc);
        let ghost ks0 = self.key_list();
        let ghost vs0 = self.value_list();
        let ghost m0 = self@;
        let mut tmp: NameMap<V> = NameMap { keys: Vec::new(), vals: Vec::new() };
        proof {
            assert(tmp.key_list() =~= Seq::<Seq<char>>::empty());
        }
        std::mem::swap(self, &mut tmp);
        let NameMap { mut keys, mut vals } = tmp;
        assert(keys@.map_values(|s: String| s@) == ks0);
        assert(vals@ == vs0);
        let ghost key_view = key@;
        if found {
            keys.remove(p);
            vals.remove(p);
            keys.insert(p, key);
            vals.insert(p, value);
        } else {
            keys.insert(p, key);
            vals.insert(p, value);
        }
        let ghost ks1 = keys@.map_values(|s: String| s@);
        proof {
            if found {
                assert(ks1 =~= ks0.update(p as int, key_view));
                assert(vals@ =~= vs0.update(p as int, value));
            } else {
                assert(ks1 =~= ks0.insert(p as int, key_view));
                assert(vals@ =~= vs0.insert(p as int, value));
            }
            assert forall|i: int, j: int| 0 <= i < j < ks1.len() implies seq_lt(
                #[trigger] ks1[i], #[trigger] ks1[j]) by {
                if found {
                    if i == p {
                        assert(ks0[i] == key_view);
                    } else if j == p {
                        assert(ks0[j] == key_view);
                    }
                } else {
                    if i < p && j == p {
                    } else if i < p && j > p {
                        assert(ks1[j] == ks0[j - 1]);
                    } else if i == p {
                        assert(ks1[j] == ks0[j - 1]);
                    } else if i > p {
                        assert(ks1[i] == ks0[i - 1]);
                        assert(ks1[j] == ks0[j - 1]);
                    }
                }
            }
        }
        let r = NameMap { keys, vals };
        proof {
            let m1 = r@;
            assert(r.key_list() == ks1);
            assert(r.value_list() == vals@);
            r.lemma_view();
            assert forall|k: Seq<char>| #[trigger] m1.contains_key(k) == m0.insert(key_view,
                value).contains_key(k) by {
                if k == key_view {
                    assert(ks1[p as int] == key_view);
                } else {
                    if ks0.contains(k) {
                        let j = ks0.index_of(k);
                        if found {
                            assert(ks1[j] == k);
                        } else if j < p {
                            assert(ks1[j] == k);
                        } else {
                            assert(ks1[j + 1] == k);
                        }
                    }
                    if ks1.contains(k) {
                        let j = ks1.index_of(k);
                        if found {
                            assert(ks0[j] == k);
                        } else if j < p {
                            assert(ks0[j] == k);
                        } else if j > p {
                            assert(ks0[j - 1] == k);
                        }
                    }
                }
            }
            assert forall|k: Seq<char>| #[trigger] m1.contains_key(k) implies m1[k] == m0.insert(
                key_view, value)[k] by {
                let j = ks1.index_of(k);
                if k == key_view {
                    lemma_sorted_unique(ks1, j, p as int);
                } else {
                    if found {
                        assert(ks0[j] == k);
                        lemma_map_of_at(ks0, vs0, j);
                    } else if j < p {
                        assert(ks0[j] == k);
                        lemma_map_of_at(ks0, vs0, j);
                    } else {
                        assert(j != p);
                        assert(ks0[j - 1] == k);
                        lemma_map_of_at(ks0, vs0, j - 1);
                    }
                    lemma_map_of_at(ks1, vals@, j);
                }
            }
            assert(m1 =~= m0.insert(key_view, value));
        }
        *self = r;
    }

    /// The entries as parallel key and value vectors, in iteration order.
    pub fn into_entries(self) -> (r: (Vec<String>, Vec<V>))
        ensures
            r.0@.map_values(|s: String| s@) == self.key_list(),
            r.1@ == self.value_list(),
            r.0@.len() == r.1@.len(),
            self.well_formed(),
    {
        proof {
            use_type_invariant(&self);
        }
        let NameMap { keys, vals } = self;
        (keys, vals)
    }
}

impl<V> NameMap<V> {
    /// The same keys with new values, given in key order.
    pub fn with_values<W>(&self, vals: Vec<W>) -> (r: NameMap<W>)
        requires
            vals@.len() == self.key_list().len(),
        ensures
            r.key_list() == self.key_list(),
            r.value_list() == vals@,
    {
        proof {
            use_type_invariant(self);
        }
        let mut keys: Vec<String> = Vec::new();
        let n = self.keys.len();
        let mut i: usize = 0;
        while i < n
            invariant
                n == self.keys@.len(),
                i <= n,
                keys@ == self.keys@.subrange(0, i as int),
            decreases n - i,
        {
            keys.push(self.keys[i].clone());
            i = i + 1;
            assert(keys@ =~= self.keys@.subrange(0, i as int));
        }
        assert(keys@ =~= self.keys@);
        NameMap { keys, vals }
    }
}

impl NameMap<String> {
    /// An independent copy with the same entries.
    pub fn duplicate(&self) -> (r: Self)
        ensures
            r@ == self@,
            r.key_list() == self.key_list(),
            r.value_list() == self.value_list(),
    {
        proof {
            use_type_invariant(self);
        }
        let mut keys: Vec<String> = Vec::new();
        let mut vals: Vec<String> = Vec::new();
        let n = self.keys.len();
        let mut i: usize = 0;
        while i < n
            invariant
                n == self.keys@.len(),
                n == self.vals@.len(),
                i <= n,
                keys@ == self.keys@.subrange(0, i as int),
                vals@ == self.vals@.subrange(0, i as int),
            decreases n - i,
        {
            keys.push(self.keys[i].clone());
            vals.push(self.vals[i].clone());
            i = i + 1;
            assert(keys@ =~= self.keys@.subrange(0, i as int));
            assert(vals@ =~= self.vals@.subrange(0, i as int));
        }
        assert(keys@ =~= self.keys@);
        assert(vals@ =~= self.vals@);
        NameMap { keys, vals }
    }
}

impl<V: Copy> NameMap<V> {
    /// An independent copy with the same entries.
    pub fn copied(&self) -> (r: Self)
        ensures
            r@ == self@,
            r.key_list() == self.key_list(),
            r.value_list() == self.value_list(),
    {
        proof {
            use_type_invariant(self);
        }
        let mut keys: Vec<String> = Vec::new();
        let mut vals: Vec<V> = Vec::new();
        let n = self.keys.len();
        let mut i: usize = 0;
        while i < n
            invariant
                n == self.keys@.len(),
                n == self.vals@.len(),
                i <= n,
                keys@ == self.keys@.subrange(0, i as int),
                vals@ == self.vals@.subrange(0, i as int),
            decreases n - i,
        {
            keys.push(self.keys[i].clone());
            vals.push(self.vals[i]);
            i = i + 1;
            assert(keys@ =~= self.keys@.subrange(0, i as int));
            assert(vals@ =~= self.vals@.subrange(0, i as int));
        }
        assert(keys@ =~= self.keys@);
        assert(vals@ =~= self.vals@);
        NameMap { keys, vals }
    }
}

impl<V> View for NameMap<V> {
    type V = Map<Seq<char>, V>;

    open spec fn view(&self) -> Map<Seq<char>, V> {
        map_of(self.key_list(), self.value_list())
    }
}

} // verus!
