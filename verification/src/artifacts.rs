//! In-memory artifact registry: named, typed artifacts with wildcard lookup.

use vstd::prelude::*;

use crate::collections::NameMap;
use crate::schema::{capability_kind, string_views, Capability};
use crate::text::{
    chars_of, concat, has_prefix, has_suffix, lemma_seq_lt_irreflexive, lemma_seq_lt_transitive, owned,
    seq_lt, slice_chars, starts_with, string_of,
};

verus! {

/// One published artifact: its name, kind and path.
#[derive(Debug, Clone)]
pub struct ArtifactRecord {
    pub name: String,
    pub kind: String,
    pub path: String,
}

/// An artifact record by content: (name, kind, path).
pub type RecordView = (Seq<char>, Seq<char>, Seq<char>);

pub open spec fn record_view(r: ArtifactRecord) -> RecordView {
    (r.name@, r.kind@, r.path@)
}

impl ArtifactRecord {
    /// An independent copy with the same content.
    pub fn duplicate(&self) -> (r: Self)
        ensures
            record_view(r) == record_view(*self),
    {
        ArtifactRecord { name: self.name.clone(), kind: self.kind.clone(), path: self.path.clone() }
    }
}

/// Published artifacts by name.
#[derive(Debug)]
pub struct ArtifactRegistry {
    pub(crate) by_name: NameMap<ArtifactRecord>,
}

/// Index of the first name (in name order) that extends `prefix` by at least one character.
pub open spec fn first_extending(names: Seq<Seq<char>>, prefix: Seq<char>) -> Option<int>
    decreases names.len(),
{
    if names.len() == 0 {
        None
    } else {
        match first_extending(names.drop_last(), prefix) {
            Some(i) => Some(i),
            None => if has_prefix(names.last(), prefix) && names.last().len() > prefix.len() {
                Some(names.len() - 1)
            } else {
                None
            },
        }
    }
}

/// `k` starts with `prefix` and is longer.
pub open spec fn extends(k: Seq<char>, prefix: Seq<char>) -> bool {
    has_prefix(k, prefix) && k.len() > prefix.len()
}

/// `k` is the least name of `m`, in code-point order, that extends `prefix`.
pub open spec fn least_extension(m: Map<Seq<char>, RecordView>, prefix: Seq<char>, k: Seq<char>) -> bool {
    &&& m.contains_key(k)
    &&& extends(k, prefix)
    &&& forall|k2: Seq<char>|
        #[trigger] m.contains_key(k2) && extends(k2, prefix) && k2 != k ==> seq_lt(k, k2)
}

/// The record a pattern names in registry `m`: for `prefix/*`, the least name extending
/// the prefix, else the prefix's own record; otherwise the record of the name itself.
pub open spec fn pattern_record(m: Map<Seq<char>, RecordView>, pattern: Seq<char>) -> Option<
    RecordView,
> {
    if pattern.len() >= 2 && has_suffix(pattern, "/*"@) {
        let prefix = pattern.subrange(0, pattern.len() - 2);
        if exists|k: Seq<char>| least_extension(m, prefix, k) {
            Some(m[choose|k: Seq<char>| least_extension(m, prefix, k)])
        } else if m.contains_key(prefix) {
            Some(m[prefix])
        } else {
            None
        }
    } else if m.contains_key(pattern) {
        Some(m[pattern])
    } else {
        None
    }
}

proof fn lemma_first_extending(names: Seq<Seq<char>>, prefix: Seq<char>)
    ensures
        match first_extending(names, prefix) {
            Some(i) => 0 <= i < names.len() && extends(names[i], prefix) && forall|j: int|
                0 <= j < i ==> !extends(#[trigger] names[j], prefix),
            None => forall|j: int| 0 <= j < names.len() ==> !extends(#[trigger] names[j], prefix),
        },
    decreases names.len(),
{
    if names.len() > 0 {
        lemma_first_extending(names.drop_last(), prefix);
        assert forall|j: int| 0 <= j < names.len() - 1 implies names[j] == names.drop_last()[j] by {}
    }
}

/// Name-keyed records of `produces`, all at `primary`.
pub open spec fn produced_records(names: Seq<Seq<char>>, kind: Seq<char>, primary: Seq<char>) -> Map<
    Seq<char>,
    RecordView,
> {
    Map::new(|k: Seq<char>| names.contains(k), |k: Seq<char>| (k, kind, primary))
}

/// Name-keyed records of a path map, all of `kind`.
pub open spec fn path_records(paths: Map<Seq<char>, String>, kind: Seq<char>) -> Map<
    Seq<char>,
    RecordView,
> {
    Map::new(|k: Seq<char>| paths.contains_key(k), |k: Seq<char>| (k, kind, paths[k]@))
}

/// The registry after a leaf publishes: its produced names at the primary output, then
/// its id, then its named outputs; a later entry replaces an earlier one of the same name.
pub open spec fn published(
    m: Map<Seq<char>, RecordView>,
    kind: Seq<char>,
    id: Option<Seq<char>>,
    produces: Seq<Seq<char>>,
    primary: Seq<char>,
    named: Map<Seq<char>, String>,
) -> Map<Seq<char>, RecordView> {
    let with_produced = m.union_prefer_right(produced_records(produces, kind, primary));
    let with_id = match id {
        Some(i) => with_produced.insert(i, (i, kind, primary)),
        None => with_produced,
    };
    with_id.union_prefer_right(path_records(named, kind))
}

impl View for ArtifactRegistry {
    type V = Map<Seq<char>, RecordView>;

    closed spec fn view(&self) -> Map<Seq<char>, RecordView> {
        self.by_name@.map_values(|r: ArtifactRecord| record_view(r))
    }
}

impl ArtifactRegistry {
    /// The names, in name order.
    pub closed spec fn names(&self) -> Seq<Seq<char>> {
        self.by_name.key_list()
    }

    /// What the lookup loop of [`ArtifactRegistry::resolve`] finds for `pattern`: for
    /// `prefix/*`, the first listed name extending the prefix, else the prefix itself;
    /// otherwise the name.
    spec fn resolved(&self, pattern: Seq<char>) -> Option<RecordView> {
        if pattern.len() >= 2 && has_suffix(pattern, "/*"@) {
            let prefix = pattern.subrange(0, pattern.len() - 2);
            match first_extending(self.names(), prefix) {
                Some(i) => Some(record_view(self.by_name.value_list()[i])),
                None => if self@.contains_key(prefix) {
                    Some(self@[prefix])
                } else {
                    None
                },
            }
        } else if self@.contains_key(pattern) {
            Some(self@[pattern])
        } else {
            None
        }
    }

    /// Names are listed in increasing order, so the first listed name extending a prefix
    /// is the least one.
    proof fn lemma_resolved_is_pattern_record(&self, pattern: Seq<char>)
        requires
            self.by_name.well_formed(),
        ensures
            self.resolved(pattern) == pattern_record(self@, pattern),
    {
        self.by_name.lemma_view();
        let ns = self.names();
        if pattern.len() >= 2 && has_suffix(pattern, "/*"@) {
            let prefix = pattern.subrange(0, pattern.len() - 2);
            lemma_first_extending(ns, prefix);
            match first_extending(ns, prefix) {
                Some(i) => {
                    let k = ns[i];
                    assert(self@.contains_key(k));
                    assert forall|k2: Seq<char>|
                        #[trigger] self@.contains_key(k2) && extends(k2, prefix) && k2 != k implies seq_lt(
                        k,
                        k2,
                    ) by {
                        assert(ns.contains(k2));
                        let j = ns.index_of(k2);
                        assert(ns[j] == k2);
                        if j < i {
                            assert(!extends(ns[j], prefix));
                        }
                        assert(j != i);
                    }
                    assert(least_extension(self@, prefix, k));
                    let c = choose|k1: Seq<char>| least_extension(self@, prefix, k1);
                    assert(least_extension(self@, prefix, c));
                    if c != k {
                        assert(seq_lt(k, c));
                        assert(seq_lt(c, k));
                        lemma_seq_lt_transitive(k, c, k);
                        lemma_seq_lt_irreflexive(k);
                    }
                    assert(self@[k] == record_view(self.by_name@[k]));
                },
                None => {
                    assert forall|k: Seq<char>| !least_extension(self@, prefix, k) by {
                        if least_extension(self@, prefix, k) {
                            assert(ns.contains(k));
                            let j = ns.index_of(k);
                            assert(ns[j] == k);
                        }
                    }
                },
            }
        }
    }

    pub fn new() -> (r: Self)
        ensures
            r@ == Map::<Seq<char>, RecordView>::empty(),
            r.names() == Seq::<Seq<char>>::empty(),
    {
        let r = ArtifactRegistry { by_name: NameMap::new() };
        assert(r@ =~= Map::<Seq<char>, RecordView>::empty());
        r
    }

    /// An independent copy with the same records (a branch starts from one).
    pub fn duplicate(&self) -> (r: Self)
        ensures
            r@ == self@,
            r.names() == self.names(),
    {
        let n = self.by_name.len();
        let mut vals: Vec<ArtifactRecord> = Vec::new();
        let mut i: usize = 0;
        while i < n
            invariant
                n == self.by_name.key_list().len(),
                self.by_name.well_formed(),
                i <= n,
                vals@.len() == i,
                forall|j: int|
                    0 <= j < i ==> #[trigger] record_view(vals@[j]) == record_view(
                        self.by_name.value_list()[j],
                    ),
            decreases n - i,
        {
            vals.push(self.by_name.value_at(i).duplicate());
            i = i + 1;
        }
        let by_name = self.by_name.with_values(vals);
        proof {
            self.by_name.lemma_view();
            by_name.lemma_view();
            assert forall|k: Seq<char>| #[trigger] by_name@.contains_key(k) implies record_view(
                by_name@[k],
            ) == record_view(self.by_name@[k]) by {
                let j = by_name.key_list().index_of(k);
                assert(by_name.key_list()[j] == k);
                assert(self.by_name.key_list()[j] == k);
            }
            assert(by_name@.map_values(|r: ArtifactRecord| record_view(r)) =~= self.by_name@.map_values(
                |r: ArtifactRecord| record_view(r),
            ));
        }
        ArtifactRegistry { by_name }
    }

    /// Records `name` of `kind` at `path`, replacing an earlier record of that name.
    pub fn insert(&mut self, name: String, kind: &str, path: String)
        ensures
            final(self)@ == old(self)@.insert(name@, (name@, kind@, path@)),
    {
        let rec = ArtifactRecord { name: name.clone(), kind: owned(kind), path };
        self.by_name.insert(name, rec);
        assert(self@ =~= old(self)@.insert(name@, (name@, kind@, path@)));
    }

    /// The record of `name`.
    pub fn get(&self, name: &str) -> (r: Option<&ArtifactRecord>)
        ensures
            match r {
                Some(rec) => self@.contains_key(name@) && self@[name@] == record_view(*rec),
                None => !self@.contains_key(name@),
            },
    {
        self.by_name.get(name)
    }

    /// The path of `name`.
    pub fn path(&self, name: &str) -> (r: Option<String>)
        ensures
            match r {
                Some(p) => self@.contains_key(name@) && self@[name@].2 == p@,
                None => !self@.contains_key(name@),
            },
    {
        match self.by_name.get(name) {
            Some(rec) => Some(rec.path.clone()),
            None => None,
        }
    }

    /// Name → path, in name order.
    pub fn paths_map(&self) -> (r: NameMap<String>)
        ensures
            r.key_list() == self.names(),
            r@.dom() == self@.dom(),
            forall|k: Seq<char>| #[trigger] r@.contains_key(k) ==> r@[k]@ == self@[k].2,
    {
        let n = self.by_name.len();
        let mut vals: Vec<String> = Vec::new();
        let mut i: usize = 0;
        while i < n
            invariant
                n == self.by_name.key_list().len(),
                self.by_name.well_formed(),
                i <= n,
                vals@.len() == i,
                forall|j: int| 0 <= j < i ==> #[trigger] vals@[j]@ == self.by_name.value_list()[j].path@,
            decreases n - i,
        {
            vals.push(self.by_name.value_at(i).path.clone());
            i = i + 1;
        }
        let r = self.by_name.with_values(vals);
        proof {
            self.by_name.lemma_view();
            assert(r.well_formed()) by {
                assert(r.key_list().len() == r.value_list().len());
            }
            r.lemma_view();
            assert(r@.dom() =~= self@.dom());
            assert forall|k: Seq<char>| #[trigger] r@.contains_key(k) implies r@[k]@ == self@[k].2 by {
                let i = r.key_list().index_of(k);
                assert(r.key_list()[i] == k);
            }
        }
        r
    }

    /// Records every entry of `paths` with `kind`, replacing earlier records of those names.
    pub fn extend_from_map(&mut self, paths: &NameMap<String>, kind: &str)
        ensures
            final(self)@ == old(self)@.union_prefer_right(path_records(paths@, kind@)),
    {
        let n = paths.len();
        let mut i: usize = 0;
        let ghost ks = paths.key_list();
        proof {
            paths.lemma_view();
        }
        assert(old(self)@.union_prefer_right(Map::new(
            |k: Seq<char>| ks.subrange(0, 0).contains(k),
            |k: Seq<char>| (k, kind@, paths@[k]@),
        )) =~= old(self)@);
        while i < n
            invariant
                n == ks.len(),
                ks == paths.key_list(),
                paths.well_formed(),
                i <= n,
                forall|k: Seq<char>| #[trigger] paths@.contains_key(k) <==> ks.contains(k),
                forall|j: int| #![trigger ks[j]] 0 <= j < ks.len() ==>
                    paths@.contains_key(ks[j]) && paths@[ks[j]] == paths.value_list()[j],
                self@ == old(self)@.union_prefer_right(Map::new(
                    |k: Seq<char>| ks.subrange(0, i as int).contains(k),
                    |k: Seq<char>| (k, kind@, paths@[k]@),
                )),
            decreases n - i,
        {
            let k = paths.key_at(i);
            let p = paths.value_at(i);
            let ghost before = self@;
            self.insert(k.clone(), kind, p.clone());
            proof {
                assert(ks[i as int] == k@);
                assert(paths@[k@] == *p);
                assert forall|x: Seq<char>| #[trigger] ks.subrange(0, i + 1).contains(x) <==> (
                ks.subrange(0, i as int).contains(x) || x == k@) by {
                    if ks.subrange(0, i + 1).contains(x) {
                        let j = ks.subrange(0, i + 1).index_of(x);
                        if j < i {
                            assert(ks.subrange(0, i as int)[j] == x);
                        }
                    }
                    if ks.subrange(0, i as int).contains(x) {
                        let j = ks.subrange(0, i as int).index_of(x);
                        assert(ks.subrange(0, i + 1)[j] == x);
                    }
                    if x == k@ {
                        assert(ks.subrange(0, i + 1)[i as int] == x);
                    }
                }
                assert(self@ =~= old(self)@.union_prefer_right(Map::new(
                    |x: Seq<char>| ks.subrange(0, i + 1).contains(x),
                    |x: Seq<char>| (x, kind@, paths@[x]@),
                )));
            }
            i = i + 1;
        }
        proof {
            assert(ks.subrange(0, n as int) =~= ks);
            assert(Map::new(
                |k: Seq<char>| ks.subrange(0, n as int).contains(k),
                |k: Seq<char>| (k, kind@, paths@[k]@),
            ) =~= path_records(paths@, kind@));
        }
    }

    /// Looks up `name`, or for `prefix/*` the first name (in order) that extends `prefix`,
    /// falling back to `prefix` itself.
    pub fn resolve(&self, pattern: &str) -> (r: Option<&ArtifactRecord>)
        ensures
            match pattern_record(self@, pattern@) {
                Some(v) => r is Some && record_view(*r->0) == v,
                None => r is None,
            },
    {
        let m = self.by_name.len();
        proof {
            self.lemma_resolved_is_pattern_record(pattern@);
        }
        let pv = chars_of(pattern);
        let n = pv.len();
        proof {
            reveal_strlit("/*");
        }
        if n >= 2 && pv[n - 2] == '/' && pv[n - 1] == '*' {
            assert(has_suffix(pattern@, "/*"@)) by {
                assert(pv@.subrange(n - 2, n as int) =~= "/*"@);
            }
            let prefix = string_of(&slice_chars(&pv, 0, n - 2));
            let mut i: usize = 0;
            assert(self.names().subrange(0, 0) =~= Seq::<Seq<char>>::empty());
            while i < m
                invariant
                    m == self.by_name.key_list().len(),
                    self.by_name.well_formed(),
                    i <= m,
                    pattern@.len() >= 2,
                    has_suffix(pattern@, "/*"@),
                    prefix@ == pattern@.subrange(0, pattern@.len() - 2),
                    first_extending(self.names().subrange(0, i as int), prefix@) is None,
                    self.resolved(pattern@) == pattern_record(self@, pattern@),
                decreases m - i,
            {
                let k = self.by_name.key_at(i);
                proof {
                    let t = self.names().subrange(0, i + 1);
                    assert(t.drop_last() =~= self.names().subrange(0, i as int));
                }
                let kv = chars_of(k.as_str());
                let pvv = chars_of(prefix.as_str());
                if starts_with(k.as_str(), prefix.as_str()) && kv.len() > pvv.len() {
                    proof {
                        lemma_first_extending_prefix(self.names(), prefix@, i as int + 1);
                    }
                    return Some(self.by_name.value_at(i));
                }
                i = i + 1;
            }
            assert(self.names().subrange(0, m as int) =~= self.names());
            return self.by_name.get(prefix.as_str());
        }
        proof {
            if pattern@.len() >= 2 && has_suffix(pattern@, "/*"@) {
                assert(pattern@.subrange(pattern@.len() - 2, pattern@.len() as int)[0] == '/');
                assert(pattern@.subrange(pattern@.len() - 2, pattern@.len() as int)[1] == '*');
            }
        }
        self.by_name.get(pattern)
    }

    /// Adds every record of `other`, replacing records of the same names.
    pub fn merge(&mut self, other: ArtifactRegistry)
        ensures
            final(self)@ == old(self)@.union_prefer_right(other@),
    {
        let ghost om = other@;
        let (keys, vals) = other.by_name.into_entries();
        let ghost ks = keys@.map_values(|s: String| s@);
        proof {
            other.by_name.lemma_view();
        }
        let n = keys.len();
        let mut i: usize = 0;
        assert(old(self)@.union_prefer_right(Map::new(
            |k: Seq<char>| ks.subrange(0, 0).contains(k),
            |k: Seq<char>| om[k],
        )) =~= old(self)@);
        while i < n
            invariant
                n == keys@.len(),
                n == vals@.len(),
                ks == keys@.map_values(|s: String| s@),
                i <= n,
                forall|k: Seq<char>| #[trigger] om.contains_key(k) <==> ks.contains(k),
                forall|j: int| #![trigger ks[j]] 0 <= j < ks.len() ==>
                    om.contains_key(ks[j]) && om[ks[j]] == record_view(vals@[j]),
                self@ == old(self)@.union_prefer_right(Map::new(
                    |k: Seq<char>| ks.subrange(0, i as int).contains(k),
                    |k: Seq<char>| om[k],
                )),
            decreases n - i,
        {
            let k = keys[i].clone();
            let v = vals[i].duplicate();
            proof {
                assert(ks[i as int] == k@);
            }
            let ghost before = self@;
            let ghost kv = k@;
            let ghost rv = record_view(v);
            self.by_name.insert(k, v);
            proof {
                assert(self@ =~= before.insert(kv, rv));
                assert forall|x: Seq<char>| #[trigger] ks.subrange(0, i + 1).contains(x) <==> (
                ks.subrange(0, i as int).contains(x) || x == ks[i as int]) by {
                    if ks.subrange(0, i + 1).contains(x) {
                        let j = ks.subrange(0, i + 1).index_of(x);
                        if j < i {
                            assert(ks.subrange(0, i as int)[j] == x);
                        }
                    }
                    if ks.subrange(0, i as int).contains(x) {
                        let j = ks.subrange(0, i as int).index_of(x);
                        assert(ks.subrange(0, i + 1)[j] == x);
                    }
                    if x == ks[i as int] {
                        assert(ks.subrange(0, i + 1)[i as int] == x);
                    }
                }
                assert(record_view(v) == record_view(vals@[i as int]));
                assert(self@ =~= old(self)@.union_prefer_right(Map::new(
                    |x: Seq<char>| ks.subrange(0, i + 1).contains(x),
                    |x: Seq<char>| om[x],
                )));
            }
            i = i + 1;
        }
        proof {
            assert(ks.subrange(0, n as int) =~= ks);
            assert(Map::new(|k: Seq<char>| ks.subrange(0, n as int).contains(k), |k: Seq<char>| om[k])
                =~= om);
        }
    }

    /// Publishes a leaf's artifacts: each produced name at the primary output, its id at
    /// the primary output, then its named outputs; kinds follow the capability.
    pub fn publish_step(
        &mut self,
        capability: Capability,
        id: Option<&str>,
        produces: &Vec<String>,
        primary: &str,
        named: &NameMap<String>,
    )
        ensures
            final(self)@ == published(
                old(self)@,
                capability_kind(capability),
                match id {
                    Some(i) => Some(i@),
                    None => None,
                },
                string_views(produces@),
                primary@,
                named@,
            ),
    {
        let kind = capability.default_artifact_kind();
        let ghost pv = string_views(produces@);
        let mut i: usize = 0;
        assert(old(self)@.union_prefer_right(produced_records(pv.subrange(0, 0), kind@, primary@))
            =~= old(self)@);
        while i < produces.len()
            invariant
                i <= produces@.len(),
                pv == string_views(produces@),
                kind@ == capability_kind(capability),
                self@ == old(self)@.union_prefer_right(
                    produced_records(pv.subrange(0, i as int), kind@, primary@),
                ),
            decreases produces@.len() - i,
        {
            let name = produces[i].clone();
            self.insert(name, kind, owned(primary));
            proof {
                assert(pv[i as int] == produces@[i as int]@);
                assert forall|x: Seq<char>| #[trigger] pv.subrange(0, i + 1).contains(x) <==> (
                pv.subrange(0, i as int).contains(x) || x == pv[i as int]) by {
                    if pv.subrange(0, i + 1).contains(x) {
                        let j = pv.subrange(0, i + 1).index_of(x);
                        if j < i {
                            assert(pv.subrange(0, i as int)[j] == x);
                        }
                    }
                    if pv.subrange(0, i as int).contains(x) {
                        let j = pv.subrange(0, i as int).index_of(x);
                        assert(pv.subrange(0, i + 1)[j] == x);
                    }
                    if x == pv[i as int] {
                        assert(pv.subrange(0, i + 1)[i as int] == x);
                    }
                }
                assert(self@ =~= old(self)@.union_prefer_right(
                    produced_records(pv.subrange(0, i + 1), kind@, primary@),
                ));
            }
            i = i + 1;
        }
        assert(pv.subrange(0, produces@.len() as int) =~= pv);
        if let Some(id) = id {
            self.insert(owned(id), kind, owned(primary));
        }
        self.extend_from_map(named, kind);
    }
}

proof fn lemma_first_extending_prefix(names: Seq<Seq<char>>, prefix: Seq<char>, n: int)
    requires
        0 <= n <= names.len(),
        first_extending(names.subrange(0, n), prefix) is Some,
    ensures
        first_extending(names, prefix) == first_extending(names.subrange(0, n), prefix),
    decreases names.len() - n,
{
    if n < names.len() {
        assert(names.subrange(0, n + 1).drop_last() =~= names.subrange(0, n));
        lemma_first_extending_prefix(names, prefix, n + 1);
    } else {
        assert(names.subrange(0, n) =~= names);
    }
}

/// A read after a write gives back what was written, and leaves other names alone.
pub proof fn law_get_after_insert(
    before: Map<Seq<char>, RecordView>,
    name: Seq<char>,
    rec: RecordView,
    other: Seq<char>,
)
    requires
        other != name,
    ensures
        before.insert(name, rec)[name] == rec,
        before.insert(name, rec).contains_key(other) == before.contains_key(other),
        before.contains_key(other) ==> before.insert(name, rec)[other] == before[other],
{
}

/// After a merge, a name of the merged-in registry reads its record; other names keep
/// theirs.
pub proof fn law_merge_prefers_other(
    mine: Map<Seq<char>, RecordView>,
    other: Map<Seq<char>, RecordView>,
    name: Seq<char>,
)
    ensures
        other.contains_key(name) ==> mine.union_prefer_right(other)[name] == other[name],
        !other.contains_key(name) && mine.contains_key(name) ==> mine.union_prefer_right(
            other,
        )[name] == mine[name],
        mine.union_prefer_right(other).contains_key(name) <==> (mine.contains_key(name)
            || other.contains_key(name)),
{
}

} // verus!
