//! Leaf ordering: the data and ordering edges between capability leaves, and a
//! topological order of the leaves by Kahn's algorithm.

use vstd::prelude::*;

use crate::resolve::{contains_str, pp_inputs};
use crate::schema::{
    arg_text, arg_view, fault_of, job_leaves, ref_is_path, step_input_refs, step_refs,
    str_views, string_views, ArgValue, ArtifactRef, Capability, Fault, Job, JobError, Step,
};
use crate::text::{contains_char, has_char, owned, str_eq};
use vstd::seq_lib::{lemma_seq_concat_contains_all_elements, lemma_seq_contains_after_push};
use vstd::set_lib::{
    lemma_int_range, lemma_len_subset, lemma_set_empty_equivalency_len, lemma_subset_equality,
    set_int_range,
};

verus! {

/// A graph as successor lists over vertices `0..g.len()`.
pub open spec fn adj_view(adj: Seq<Vec<usize>>) -> Seq<Seq<usize>> {
    adj.map_values(|v: Vec<usize>| v@)
}

/// Successor lists name vertices of the graph, each at most once.
pub open spec fn well_graph(g: Seq<Seq<usize>>) -> bool {
    forall|a: int|
        0 <= a < g.len() ==> (#[trigger] g[a]).no_duplicates() && forall|k: int|
            0 <= k < g[a].len() ==> g[a][k] < g.len()
}

pub open spec fn ints(v: Seq<usize>) -> Seq<int> {
    v.map_values(|x: usize| x as int)
}

/// The predecessors of `j` that are not in `done`.
pub open spec fn pending(g: Seq<Seq<usize>>, done: Seq<int>, j: int) -> Set<int> {
    Set::new(|a: int| 0 <= a < g.len() && !done.contains(a) && g[a].contains(j as usize))
}

/// `o` lists every vertex once, each after all of its predecessors.
pub open spec fn graph_topo(g: Seq<Seq<usize>>, o: Seq<int>) -> bool {
    &&& o.len() == g.len()
    &&& o.no_duplicates()
    &&& forall|p: int| 0 <= p < o.len() ==> 0 <= #[trigger] o[p] < g.len()
    &&& forall|p: int, q: int|
        0 <= p < o.len() && 0 <= q < o.len() && #[trigger] g[o[q]].contains(#[trigger] o[p] as usize)
            ==> q < p
}

/// `a` is a vertex of `g` with `x` among its successors.
pub open spec fn pred_of(g: Seq<Seq<usize>>, a: int, x: int) -> bool {
    0 <= a < g.len() && g[a].contains(x as usize)
}

/// Every successor list is in increasing order.
pub open spec fn ascending_rows(g: Seq<Seq<usize>>) -> bool {
    forall|a: int, i: int, j: int|
        0 <= a < g.len() && 0 <= i < j < g[a].len() ==> #[trigger] g[a][i] < #[trigger] g[a][j]
}

/// The position, below `n`, of the last predecessor of `x` listed in `o`; -1 when `o`
/// lists none there.
pub open spec fn last_pred(g: Seq<Seq<usize>>, o: Seq<int>, x: int, n: int) -> int
    decreases n,
{
    if n <= 0 {
        -1
    } else if pred_of(g, o[n - 1], x) {
        n - 1
    } else {
        last_pred(g, o, x, n - 1)
    }
}

/// Position `t` with number `x` sorts before position `u` with number `y`.
pub open spec fn lex_before(t: int, x: int, u: int, y: int) -> bool {
    t < u || (t == u && x < y)
}

/// `o` lists its vertices sorted by the position in `o` of their last predecessor (those
/// with none first), then by number: the order in which Kahn's algorithm lists them when
/// its queue starts with the vertices without predecessors, lowest first, and receives
/// the vertices each listed vertex releases, lowest first.
pub open spec fn kahn_sorted(g: Seq<Seq<usize>>, o: Seq<int>) -> bool {
    forall|p: int, q: int|
        #![trigger o[p], o[q]]
        0 <= p < q < o.len() ==> lex_before(
            last_pred(g, o, o[p], o.len() as int),
            o[p],
            last_pred(g, o, o[q], o.len() as int),
            o[q],
        )
}

proof fn lemma_last_pred_is(g: Seq<Seq<usize>>, o: Seq<int>, x: int, m: int, t: int)
    requires
        -1 <= t < m <= o.len(),
        t >= 0 ==> pred_of(g, o[t], x),
        forall|k: int| t < k < m ==> !pred_of(g, #[trigger] o[k], x),
    ensures
        last_pred(g, o, x, m) == t,
    decreases m,
{
    if m > 0 && m - 1 > t {
        lemma_last_pred_is(g, o, x, m - 1, t);
    }
}

proof fn lemma_last_pred_prefix(g: Seq<Seq<usize>>, o1: Seq<int>, o2: Seq<int>, x: int, n: int)
    requires
        0 <= n <= o1.len(),
        n <= o2.len(),
        forall|k: int| 0 <= k < n ==> o1[k] == o2[k],
    ensures
        last_pred(g, o1, x, n) == last_pred(g, o2, x, n),
    decreases n,
{
    if n > 0 {
        lemma_last_pred_prefix(g, o1, o2, x, n - 1);
    }
}

proof fn lemma_last_pred_skip(g: Seq<Seq<usize>>, o: Seq<int>, x: int, n: int, m: int)
    requires
        0 <= n <= m <= o.len(),
        forall|k: int| n <= k < m ==> !pred_of(g, #[trigger] o[k], x),
    ensures
        last_pred(g, o, x, m) == last_pred(g, o, x, n),
    decreases m,
{
    if m > n {
        lemma_last_pred_skip(g, o, x, n, m - 1);
    }
}

/// The queue Kahn's algorithm starts from: vertices without predecessors, in increasing
/// order, all sorted before any position.
proof fn lemma_kahn_start(g: Seq<Seq<usize>>, q: Seq<int>)
    requires
        forall|i: int, j: int| 0 <= i < j < q.len() ==> q[i] < q[j],
        forall|p: int, a: int| 0 <= p < q.len() ==> !#[trigger] pred_of(g, a, q[p]),
    ensures
        kahn_sorted(g, q),
        forall|p: int| 0 <= p < q.len() ==> last_pred(g, q, #[trigger] q[p], q.len() as int) < 0,
{
    assert forall|p: int| 0 <= p < q.len() implies last_pred(g, q, #[trigger] q[p], q.len() as int)
        == -1 by {
        let x = q[p];
        assert forall|k: int| -1 < k < q.len() implies !pred_of(g, #[trigger] q[k], x) by {
            assert(!pred_of(g, q[k], q[p]));
        }
        lemma_last_pred_is(g, q, x, q.len() as int, -1);
    }
}

/// Appending the vertices released by the vertex at position `h` (all of whose
/// predecessors are listed up to `h`), in increasing order, keeps the queue sorted.
proof fn lemma_kahn_append(g: Seq<Seq<usize>>, q0: Seq<int>, nx: Seq<int>, h: int)
    requires
        kahn_sorted(g, q0),
        0 <= h < q0.len(),
        forall|p: int| 0 <= p < q0.len() ==> last_pred(g, q0, #[trigger] q0[p], q0.len() as int) < h,
        (q0 + nx).no_duplicates(),
        forall|p: int, k: int|
            0 <= p < q0.len() && 0 <= k < nx.len() ==> !pred_of(g, #[trigger] nx[k], #[trigger] q0[p]),
        forall|k: int| 0 <= k < nx.len() ==> pred_of(g, q0[h], #[trigger] nx[k]),
        forall|k: int, a: int|
            0 <= k < nx.len() && #[trigger] pred_of(g, a, nx[k]) ==> q0.subrange(0, h + 1).contains(a),
        forall|i: int, j: int| 0 <= i < j < nx.len() ==> nx[i] < nx[j],
    ensures
        kahn_sorted(g, q0 + nx),
        forall|p: int|
            0 <= p < (q0 + nx).len() ==> last_pred(g, q0 + nx, #[trigger] (q0 + nx)[p], (q0
                + nx).len() as int) <= h,
{
    let q1 = q0 + nx;
    let n0 = q0.len() as int;
    let n1 = q1.len() as int;
    assert forall|p: int| 0 <= p < n0 implies last_pred(g, q1, #[trigger] q1[p], n1) == last_pred(
        g,
        q0,
        q0[p],
        n0,
    ) by {
        let x = q0[p];
        assert(q1[p] == x);
        assert forall|k: int| n0 <= k < n1 implies !pred_of(g, #[trigger] q1[k], x) by {
            assert(q1[k] == nx[k - n0]);
            assert(!pred_of(g, nx[k - n0], q0[p]));
        }
        lemma_last_pred_skip(g, q1, x, n0, n1);
        lemma_last_pred_prefix(g, q0, q1, x, n0);
    }
    assert forall|p: int| n0 <= p < n1 implies last_pred(g, q1, #[trigger] q1[p], n1) == h by {
        let k0 = p - n0;
        let x = nx[k0];
        assert(q1[p] == x);
        assert(q1[h] == q0[h]);
        assert(pred_of(g, q0[h], nx[k0]));
        assert forall|k: int| h < k < n1 implies !pred_of(g, #[trigger] q1[k], x) by {
            if pred_of(g, q1[k], nx[k0]) {
                assert(q0.subrange(0, h + 1).contains(q1[k]));
                let i = q0.subrange(0, h + 1).index_of(q1[k]);
                assert(q1[i] == q0.subrange(0, h + 1)[i]);
                assert(q1[i] == q1[k]);
            }
        }
        lemma_last_pred_is(g, q1, x, n1, h);
    }
    assert forall|p: int, r: int| #![trigger q1[p], q1[r]] 0 <= p < r < n1 implies lex_before(
        last_pred(g, q1, q1[p], n1),
        q1[p],
        last_pred(g, q1, q1[r], n1),
        q1[r],
    ) by {
        if r < n0 {
            assert(q1[p] == q0[p] && q1[r] == q0[r]);
            assert(lex_before(
                last_pred(g, q0, q0[p], n0),
                q0[p],
                last_pred(g, q0, q0[r], n0),
                q0[r],
            ));
        } else if p < n0 {
            assert(q1[p] == q0[p]);
            assert(last_pred(g, q0, q0[p], n0) < h);
        } else {
            assert(q1[p] == nx[p - n0] && q1[r] == nx[r - n0]);
        }
    }
    assert forall|p: int| 0 <= p < n1 implies last_pred(g, q1, #[trigger] q1[p], n1) <= h by {
        if p < n0 {
            assert(last_pred(g, q0, q0[p], n0) < h);
        }
    }
}

proof fn lemma_pending_finite(g: Seq<Seq<usize>>, done: Seq<int>, j: int)
    ensures
        pending(g, done, j).finite(),
        pending(g, done, j).len() <= g.len(),
{
    lemma_int_range(0, g.len() as int);
    lemma_len_subset(pending(g, done, j), set_int_range(0, g.len() as int));
}

/// A sequence of distinct vertices has at most as many entries as the graph has vertices;
/// with exactly that many it holds every vertex.
proof fn lemma_distinct_vertices(o: Seq<int>, n: int)
    requires
        0 <= n,
        o.no_duplicates(),
        forall|p: int| 0 <= p < o.len() ==> 0 <= #[trigger] o[p] < n,
    ensures
        o.len() <= n,
        o.len() == n ==> forall|j: int| 0 <= j < n ==> o.contains(j),
{
    o.unique_seq_to_set();
    lemma_int_range(0, n);
    assert(o.to_set().subset_of(set_int_range(0, n))) by {
        assert forall|x: int| o.to_set().contains(x) implies set_int_range(0, n).contains(x) by {
            let p = o.index_of(x);
        }
    }
    lemma_len_subset(o.to_set(), set_int_range(0, n));
    if o.len() == n {
        lemma_subset_equality(o.to_set(), set_int_range(0, n));
        assert forall|j: int| 0 <= j < n implies o.contains(j) by {
            assert(set_int_range(0, n).contains(j));
            assert(o.to_set().contains(j));
        }
    }
}

/// When every vertex of a non-empty set has a predecessor in the set, no order lists
/// each vertex after its predecessors: the set holds a cycle.
proof fn lemma_no_topo(g: Seq<Seq<usize>>, rest: Set<int>, o: Seq<int>)
    requires
        exists|x: int| rest.contains(x),
        forall|x: int| rest.contains(x) ==> 0 <= x < g.len(),
        forall|x: int|
            rest.contains(x) ==> exists|a: int|
                #![trigger rest.contains(a), g[a]]
                rest.contains(a) && 0 <= a < g.len() && g[a].contains(x as usize),
    ensures
        !graph_topo(g, o),
{
    if graph_topo(g, o) {
        lemma_distinct_vertices(o, g.len() as int);
        lemma_topo_prefix_outside(g, rest, o, o.len() as int);
        let x = choose|x: int| rest.contains(x);
        assert(o.contains(x));
        let p = o.index_of(x);
        assert(o[p] == x);
    }
}

proof fn lemma_topo_prefix_outside(g: Seq<Seq<usize>>, rest: Set<int>, o: Seq<int>, n: int)
    requires
        graph_topo(g, o),
        0 <= n <= o.len(),
        forall|x: int| rest.contains(x) ==> 0 <= x < g.len(),
        forall|x: int|
            rest.contains(x) ==> exists|a: int|
                #![trigger rest.contains(a), g[a]]
                rest.contains(a) && 0 <= a < g.len() && g[a].contains(x as usize),
    ensures
        forall|p: int| 0 <= p < n ==> !rest.contains(#[trigger] o[p]),
    decreases n,
{
    if n > 0 {
        lemma_topo_prefix_outside(g, rest, o, n - 1);
        let p = n - 1;
        if rest.contains(o[p]) {
            let x = o[p];
            let a = choose|a: int|
                #![trigger rest.contains(a), g[a]]
                rest.contains(a) && 0 <= a < g.len() && g[a].contains(x as usize);
            lemma_distinct_vertices(o, g.len() as int);
            assert(o.contains(a));
            let q = o.index_of(a);
            assert(o[q] == a);
            assert(g[o[q]].contains(o[p] as usize));
            assert(q < p);
            assert(!rest.contains(o[q]));
        }
    }
}

/// Kahn's algorithm: vertices whose predecessors have all been listed are listed,
/// lowest first, in rounds. The result lists distinct vertices, each after its
/// predecessors; it lists them all exactly when the graph has a topological order.
pub fn kahn_order(adj: &Vec<Vec<usize>>, indeg: Vec<usize>) -> (order: Vec<usize>)
    requires
        well_graph(adj_view(adj@)),
        ascending_rows(adj_view(adj@)),
        indeg@.len() == adj@.len(),
        forall|j: int|
            0 <= j < adj@.len() ==> indeg@[j] == pending(
                adj_view(adj@),
                Seq::<int>::empty(),
                j,
            ).len(),
    ensures
        ints(order@).no_duplicates(),
        order@.len() <= adj@.len(),
        forall|p: int| 0 <= p < order@.len() ==> #[trigger] order@[p] < adj@.len(),
        forall|p: int, q: int|
            0 <= p < order@.len() && 0 <= q < order@.len() && #[trigger] adj_view(
                adj@,
            )[order@[q] as int].contains(#[trigger] order@[p]) ==> q < p,
        order@.len() == adj@.len() ==> graph_topo(adj_view(adj@), ints(order@)),
        order@.len() != adj@.len() ==> forall|o: Seq<int>| !graph_topo(adj_view(adj@), o),
        kahn_sorted(adj_view(adj@), ints(order@)),
{
    let ghost g = adj_view(adj@);
    let n = adj.len();
    let mut indeg = indeg;
    let mut q: Vec<usize> = Vec::new();
    let mut i: usize = 0;
    while i < n
        invariant
            n == adj@.len(),
            g == adj_view(adj@),
            indeg@.len() == n,
            i <= n,
            forall|j: int| 0 <= j < n ==> indeg@[j] == pending(g, Seq::<int>::empty(), j).len(),
            ints(q@).no_duplicates(),
            forall|p: int| 0 <= p < q@.len() ==> #[trigger] q@[p] < i,
            forall|p: int, r: int| 0 <= p < r < q@.len() ==> q@[p] < q@[r],
            forall|j: int| 0 <= j < i ==> (ints(q@).contains(j) <==> indeg@[j] == 0),
        decreases n - i,
    {
        if indeg[i] == 0 {
            let ghost q0 = q@;
            q.push(i);
            proof {
                assert(ints(q@) =~= ints(q0).push(i as int));
                assert(!ints(q0).contains(i as int)) by {
                    if ints(q0).contains(i as int) {
                        let p = ints(q0).index_of(i as int);
                        assert(ints(q0)[p] == q0[p] as int);
                        assert(q0[p] < i);
                    }
                }
                assert forall|j: int| 0 <= j < i + 1 implies (ints(q@).contains(j) <==> indeg@[j]
                    == 0) by {
                    lemma_seq_contains_after_push(ints(q0), i as int, j);
                }
                assert forall|p: int| 0 <= p < q@.len() implies #[trigger] q@[p] < i + 1 by {
                    if p < q0.len() {
                        assert(q@[p] == q0[p]);
                    }
                }
            }
        } else {
            proof {
                assert forall|j: int| 0 <= j < i + 1 implies (ints(q@).contains(j) <==> indeg@[j]
                    == 0) by {
                    if j == i && ints(q@).contains(j) {
                        let p = ints(q@).index_of(j);
                        assert(ints(q@)[p] == q@[p] as int);
                        assert(q@[p] < i);
                    }
                }
            }
        }
        i = i + 1;
    }
    proof {
        assert forall|p: int, a: int|
            0 <= p < q@.len() && 0 <= a < n && #[trigger] g[a].contains(#[trigger] q@[p]) implies ints(
            q@.subrange(0, p),
        ).contains(a) by {
            let x = q@[p] as int;
            assert(ints(q@).contains(x)) by {
                assert(ints(q@)[p] == x);
            }
            lemma_pending_finite(g, Seq::<int>::empty(), x);
            assert(indeg@[x] == 0);
            lemma_set_empty_equivalency_len(pending(g, Seq::<int>::empty(), x));
            assert(pending(g, Seq::<int>::empty(), x).contains(a));
        }
    }
    proof {
        let q0 = ints(q@);
        assert forall|p: int, a: int| 0 <= p < q0.len() implies !#[trigger] pred_of(g, a, q0[p]) by {
            let x = q0[p];
            assert(q0.contains(x));
            assert(q@[p] < n);
            assert(indeg@[x] == 0);
            lemma_pending_finite(g, Seq::<int>::empty(), x);
            lemma_set_empty_equivalency_len(pending(g, Seq::<int>::empty(), x));
            assert(!pending(g, Seq::<int>::empty(), x).contains(a));
        }
        lemma_kahn_start(g, q0);
    }
    assert(ints(q@.subrange(0, 0)) =~= Seq::<int>::empty());
    let mut head: usize = 0;
    let mut order: Vec<usize> = Vec::new();
    while head < q.len()
        invariant
            n == adj@.len(),
            g == adj_view(adj@),
            well_graph(g),
            indeg@.len() == n,
            head <= q@.len(),
            order@ == q@.subrange(0, head as int),
            ints(q@).no_duplicates(),
            forall|p: int| 0 <= p < q@.len() ==> #[trigger] q@[p] < n,
            forall|j: int|
                0 <= j < n ==> indeg@[j] == pending(g, ints(q@.subrange(0, head as int)), j).len(),
            forall|j: int| 0 <= j < n ==> (ints(q@).contains(j) <==> indeg@[j] == 0),
            forall|p: int, a: int|
                0 <= p < q@.len() && 0 <= a < n && #[trigger] g[a].contains(#[trigger] q@[p])
                    ==> ints(q@.subrange(0, p)).contains(a),
            ascending_rows(g),
            kahn_sorted(g, ints(q@)),
            forall|p: int|
                0 <= p < q@.len() ==> last_pred(g, ints(q@), #[trigger] ints(q@)[p], q@.len() as int)
                    < head,
        decreases n - head,
    {
        proof {
            lemma_distinct_vertices(ints(q@), n as int);
        }
        let v = q[head];
        let ghost h0 = head as int;
        let ghost done0 = ints(q@.subrange(0, head as int));
        head = head + 1;
        order.push(v);
        let ghost done1 = ints(q@.subrange(0, head as int));
        proof {
            assert(done1 =~= done0.push(v as int));
            assert(!done0.contains(v as int)) by {
                if done0.contains(v as int) {
                    let p = done0.index_of(v as int);
                    assert(ints(q@)[p] == ints(q@)[head - 1]);
                }
            }
            assert(v < n);
            assert forall|a: int| #[trigger] done1.contains(a) <==> (done0.contains(a) || a == v as int) by {
                lemma_seq_contains_after_push(done0, v as int, a);
            }
            assert forall|j: int| 0 <= j < n implies indeg@[j] == pending(g, done1, j).len() + (
            if g[v as int].contains(j as usize) {
                1int
            } else {
                0int
            }) by {
                lemma_pending_finite(g, done1, j);
                if g[v as int].contains(j as usize) {
                    assert(pending(g, done0, j) =~= pending(g, done1, j).insert(v as int));
                } else {
                    assert(pending(g, done0, j) =~= pending(g, done1, j));
                }
            }
        }
        let succ = &adj[v];
        assert(succ@ == g[v as int]);
        let mut nxt: Vec<usize> = Vec::new();
        let mut k: usize = 0;
        assert(succ@.subrange(0, succ@.len() as int) =~= succ@);
        while k < succ.len()
            invariant
                n == adj@.len(),
                g == adj_view(adj@),
                well_graph(g),
                succ@ == g[v as int],
                v < n,
                indeg@.len() == n,
                k <= succ@.len(),
                head <= q@.len(),
                done1 == ints(q@.subrange(0, head as int)),
                ints(q@).no_duplicates(),
                ints(nxt@).no_duplicates(),
                forall|p: int| 0 <= p < nxt@.len() ==> #[trigger] nxt@[p] < n,
                forall|j: int|
                    0 <= j < n ==> indeg@[j] == pending(g, done1, j).len() + (if succ@.subrange(
                        k as int,
                        succ@.len() as int,
                    ).contains(j as usize) {
                        1int
                    } else {
                        0int
                    }),
                forall|j: int|
                    0 <= j < n ==> (ints(q@).contains(j) || ints(nxt@).contains(j) <==> indeg@[j]
                        == 0),
                forall|j: int| #[trigger] ints(nxt@).contains(j) ==> !ints(q@).contains(j),
                ascending_rows(g),
                forall|p: int, r: int| 0 <= p < r < nxt@.len() ==> nxt@[p] < nxt@[r],
                forall|p: int| 0 <= p < nxt@.len() ==> k > 0 && #[trigger] nxt@[p] <= succ@[k - 1],
                forall|p: int| 0 <= p < nxt@.len() ==> g[v as int].contains(#[trigger] nxt@[p]),
            decreases succ@.len() - k,
        {
            let w = succ[k];
            proof {
                if k > 0 {
                    assert(g[v as int][k - 1] < g[v as int][k as int]);
                }
                assert(g[v as int].contains(w));
                assert(g[v as int].no_duplicates());
                assert(succ@.subrange(k as int, succ@.len() as int) =~= seq![w].add(
                    succ@.subrange(k + 1, succ@.len() as int),
                ));
                assert(!succ@.subrange(k + 1, succ@.len() as int).contains(w)) by {
                    if succ@.subrange(k + 1, succ@.len() as int).contains(w) {
                        let p = succ@.subrange(k + 1, succ@.len() as int).index_of(w);
                        assert(succ@[k + 1 + p] == succ@[k as int]);
                    }
                }
                assert(succ@.subrange(k as int, succ@.len() as int).contains(w)) by {
                    assert(succ@.subrange(k as int, succ@.len() as int)[0] == w);
                }
                assert forall|j: int|
                    0 <= j < n && j != w implies #[trigger] succ@.subrange(k as int, succ@.len() as int).contains(
                    j as usize,
                ) == succ@.subrange(k + 1, succ@.len() as int).contains(j as usize) by {
                    let s0 = succ@.subrange(k as int, succ@.len() as int);
                    let s1 = succ@.subrange(k + 1, succ@.len() as int);
                    if s0.contains(j as usize) {
                        let p = s0.index_of(j as usize);
                        assert(p > 0);
                        assert(s1[p - 1] == s0[p]);
                    }
                    if s1.contains(j as usize) {
                        let p = s1.index_of(j as usize);
                        assert(s0[p + 1] == s1[p]);
                    }
                }
            }
            let d = indeg[w] - 1;
            indeg.set(w, d);
            if d == 0 {
                let ghost n0 = nxt@;
                nxt.push(w);
                proof {
                    assert(ints(nxt@) =~= ints(n0).push(w as int));
                    assert(!ints(n0).contains(w as int));
                    assert(!ints(q@).contains(w as int));
                    assert forall|j: int| 0 <= j < n implies (ints(q@).contains(j) || ints(
                        nxt@,
                    ).contains(j) <==> indeg@[j] == 0) by {
                        lemma_seq_contains_after_push(ints(n0), w as int, j);
                    }
                    assert forall|j: int| #[trigger] ints(nxt@).contains(j) implies !ints(q@).contains(j) by {
                        lemma_seq_contains_after_push(ints(n0), w as int, j);
                    }
                    assert forall|p: int| 0 <= p < nxt@.len() implies #[trigger] nxt@[p] < n by {
                        if p < n0.len() {
                            assert(nxt@[p] == n0[p]);
                        }
                    }
                    assert forall|p: int| 0 <= p < nxt@.len() implies #[trigger] nxt@[p] <= succ@[k as int]
                        && g[v as int].contains(nxt@[p]) by {
                        if p < n0.len() {
                            assert(nxt@[p] == n0[p]);
                        }
                    }
                    assert forall|p: int, r: int| 0 <= p < r < nxt@.len() implies nxt@[p] < nxt@[r] by {
                        if r < n0.len() {
                            assert(nxt@[p] == n0[p] && nxt@[r] == n0[r]);
                        } else {
                            assert(nxt@[p] == n0[p]);
                        }
                    }
                }
            }
            k = k + 1;
        }
        proof {
            assert forall|j: int| 0 <= j < n implies indeg@[j] == pending(g, done1, j).len() by {
                assert(succ@.subrange(succ@.len() as int, succ@.len() as int).len() == 0);
            }
            assert forall|x: int| #[trigger] ints(nxt@).contains(x) implies !ints(q@).contains(x)
                && 0 <= x < n && pending(g, done1, x).len() == 0 by {
                let p = ints(nxt@).index_of(x);
                assert(ints(nxt@)[p] == nxt@[p] as int);
                assert(nxt@[p] < n);
                assert(indeg@[x] == 0);
            }
        }
        let ghost q0 = q@;
        let ghost n0 = nxt@;
        q.append(&mut nxt);
        proof {
            assert(ints(q@) =~= ints(q0) + ints(n0));
            assert forall|a: int, b: int|
                0 <= a < ints(q0).len() && 0 <= b < ints(n0).len() implies ints(q0)[a] != ints(
                n0,
            )[b] by {
                assert(ints(n0).contains(ints(n0)[b]));
                assert(ints(q0).contains(ints(q0)[a]));
            }
            vstd::seq_lib::lemma_no_dup_in_concat(ints(q0), ints(n0));
            assert forall|p: int| 0 <= p < q@.len() implies #[trigger] q@[p] < n by {
                if p >= q0.len() {
                    assert(q@[p] == n0[p - q0.len()]);
                }
            }
            assert forall|j: int| 0 <= j < n implies (ints(q@).contains(j) <==> indeg@[j] == 0) by {
                if ints(q@).contains(j) {
                    let p = ints(q@).index_of(j);
                    if p < q0.len() {
                        assert(ints(q0)[p] == j);
                    } else {
                        assert(ints(n0)[p - q0.len()] == j);
                    }
                }
                if ints(q0).contains(j) {
                    let p = ints(q0).index_of(j);
                    assert(ints(q@)[p] == j);
                }
                if ints(n0).contains(j) {
                    let p = ints(n0).index_of(j);
                    assert(ints(q@)[q0.len() + p] == j);
                }
            }
            assert(q@.subrange(0, head as int) =~= q0.subrange(0, head as int));
            assert forall|p: int, a: int|
                0 <= p < q@.len() && 0 <= a < n && #[trigger] g[a].contains(#[trigger] q@[p]) implies ints(
                q@.subrange(0, p),
            ).contains(a) by {
                if p < q0.len() {
                    assert(q@[p] == q0[p]);
                    assert(q@.subrange(0, p) =~= q0.subrange(0, p));
                } else {
                    let x = q@[p] as int;
                    assert(ints(n0)[p - q0.len()] == x);
                    assert(ints(n0).contains(x));
                    lemma_pending_finite(g, done1, x);
                    assert(!pending(g, done1, x).contains(a));
                    assert(done1.contains(a));
                    let r = done1.index_of(a);
                    assert(ints(q@.subrange(0, p))[r] == a);
                }
            }
        }
        proof {
            let iq0 = ints(q0);
            let inx = ints(n0);
            assert forall|p: int, k2: int|
                0 <= p < iq0.len() && 0 <= k2 < inx.len() implies !pred_of(g, #[trigger] inx[k2], #[trigger] iq0[p]) by {
                if pred_of(g, inx[k2], iq0[p]) {
                    assert(g[inx[k2]].contains(q0[p]));
                    assert(ints(q0.subrange(0, p)).contains(inx[k2]));
                    let r = ints(q0.subrange(0, p)).index_of(inx[k2]);
                    assert(iq0[r] == inx[k2]);
                    assert(iq0.contains(inx[k2]));
                    assert(inx.contains(inx[k2]));
                }
            }
            assert(iq0[h0] == v as int);
            assert forall|k2: int| 0 <= k2 < inx.len() implies pred_of(g, iq0[h0], #[trigger] inx[k2]) by {
                assert(g[v as int].contains(n0[k2]));
            }
            assert(iq0.subrange(0, h0 + 1) =~= done1);
            assert forall|k2: int, a: int|
                0 <= k2 < inx.len() && #[trigger] pred_of(g, a, inx[k2]) implies iq0.subrange(0, h0 + 1).contains(a) by {
                let x = inx[k2];
                assert(inx.contains(x));
                lemma_pending_finite(g, done1, x);
                lemma_set_empty_equivalency_len(pending(g, done1, x));
                assert(!pending(g, done1, x).contains(a));
            }
            lemma_kahn_append(g, iq0, inx, h0);
            assert(ints(q@) =~= iq0 + inx);
        }
    }
    proof {
        assert(q@.subrange(0, head as int) =~= q@);
        lemma_distinct_vertices(ints(q@), n as int);
        assert forall|p: int, r: int|
            0 <= p < order@.len() && 0 <= r < order@.len() && #[trigger] g[order@[r] as int].contains(
                #[trigger] order@[p],
            ) implies r < p by {
            let a = order@[r] as int;
            assert(ints(q@.subrange(0, p)).contains(a));
            let s = ints(q@.subrange(0, p)).index_of(a);
            assert(ints(q@)[s] == ints(q@)[r]);
        }
        if order@.len() == n {
            let o = ints(order@);
            assert forall|p: int, r: int|
                0 <= p < o.len() && 0 <= r < o.len() && #[trigger] g[o[r]].contains(
                    #[trigger] o[p] as usize,
                ) implies r < p by {
                assert(g[order@[r] as int].contains(order@[p]));
            }
        } else {
            let rest = Set::new(|x: int| 0 <= x < n && !ints(q@).contains(x));
            assert(exists|x: int| rest.contains(x)) by {
                if forall|x: int| !rest.contains(x) {
                    assert forall|j: int| 0 <= j < n implies ints(q@).contains(j) by {
                        assert(!rest.contains(j));
                    }
                    let r = set_int_range(0, n as int);
                    lemma_int_range(0, n as int);
                    ints(q@).unique_seq_to_set();
                    assert(r.subset_of(ints(q@).to_set())) by {
                        assert forall|j: int| r.contains(j) implies ints(q@).to_set().contains(j) by {
                            assert(ints(q@).contains(j));
                        }
                    }
                    lemma_len_subset(r, ints(q@).to_set());
                }
            }
            assert forall|x: int| rest.contains(x) implies exists|a: int|
                #![trigger rest.contains(a), g[a]]
                rest.contains(a) && 0 <= a < g.len() && g[a].contains(x as usize) by {
                lemma_pending_finite(g, ints(q@), x);
                assert(ints(q@.subrange(0, head as int)) == ints(q@));
                assert(indeg@[x] != 0);
                assert(pending(g, ints(q@), x).len() != 0);
                let a = pending(g, ints(q@), x).choose();
                assert(pending(g, ints(q@), x).contains(a));
                assert(rest.contains(a));
            }
            assert forall|o: Seq<int>| !graph_topo(g, o) by {
                lemma_no_topo(g, rest, o);
            }
        }
    }
    order
}

/// Leaf `s` registers artifact name `name`: as its id, an output name, or a produced
/// name without a wildcard.
pub open spec fn registers(s: Step, name: Seq<char>) -> bool {
    ||| (s.id is Some && s.id->0@ == name)
    ||| s.outputs@.contains_key(name)
    ||| (string_views(s.produces@).contains(name) && !has_char(name, '*'))
}

/// The last leaf that registers `name`.
pub open spec fn artifact_source(ls: Seq<Step>, name: Seq<char>) -> Option<int>
    decreases ls.len(),
{
    if ls.len() == 0 {
        None
    } else if registers(ls.last(), name) {
        Some(ls.len() - 1)
    } else {
        artifact_source(ls.drop_last(), name)
    }
}

/// The last leaf whose id is `id`.
pub open spec fn id_source(ls: Seq<Step>, id: Seq<char>) -> Option<int>
    decreases ls.len(),
{
    if ls.len() == 0 {
        None
    } else if ls.last().id is Some && ls.last().id->0@ == id {
        Some(ls.len() - 1)
    } else {
        id_source(ls.drop_last(), id)
    }
}

/// The leaf a reference reads from: for an artifact id without a wildcard, the last leaf
/// that registers it; paths and wildcards read from no leaf.
pub open spec fn ref_source(ls: Seq<Step>, raw: Seq<char>) -> Option<int> {
    if ref_is_path(raw) || has_char(raw, '*') {
        None
    } else {
        artifact_source(ls, raw)
    }
}

pub open spec fn ref_sources(ls: Seq<Step>, refs: Seq<Seq<char>>) -> Seq<int>
    decreases refs.len(),
{
    if refs.len() == 0 {
        Seq::<int>::empty()
    } else {
        let p = ref_sources(ls, refs.drop_last());
        match ref_source(ls, refs.last()) {
            Some(a) => p.push(a),
            None => p,
        }
    }
}

pub open spec fn dep_sources(ls: Seq<Step>, deps: Seq<Seq<char>>) -> Seq<int>
    decreases deps.len(),
{
    if deps.len() == 0 {
        Seq::<int>::empty()
    } else {
        let p = dep_sources(ls, deps.drop_last());
        match id_source(ls, deps.last()) {
            Some(a) => p.push(a),
            None => p,
        }
    }
}

/// The leaf a postprocess input value reads from, by its scalar text.
pub open spec fn value_source(ls: Seq<Step>, v: ArgValue) -> Option<int> {
    match arg_text(arg_view(v)) {
        Some(raw) => ref_source(ls, raw),
        None => None,
    }
}

pub open spec fn value_sources(ls: Seq<Step>, vals: Seq<ArgValue>) -> Seq<int>
    decreases vals.len(),
{
    if vals.len() == 0 {
        Seq::<int>::empty()
    } else {
        let p = value_sources(ls, vals.drop_last());
        match value_source(ls, vals.last()) {
            Some(a) => p.push(a),
            None => p,
        }
    }
}

/// Capabilities that, given no inputs, read the output of the leaf before them.
pub open spec fn chains_previous(c: Capability) -> bool {
    ||| c == Capability::FixCasing
    ||| c == Capability::FixAsr
    ||| c == Capability::FixTerms
    ||| c == Capability::FixLayout
    ||| c == Capability::MeetingMerge
}

/// The last leaf before leaf `b` that is not skipped.
pub open spec fn prev_active(ls: Seq<Step>, b: int) -> Option<int>
    decreases b,
{
    if b <= 0 {
        None
    } else if !ls[b - 1].skip {
        Some(b - 1)
    } else {
        prev_active(ls, b - 1)
    }
}

/// The ordering edge into an input-less chaining leaf from the active leaf before it.
pub open spec fn implicit_source(ls: Seq<Step>, b: int) -> Seq<int> {
    let s = ls[b];
    if step_input_refs(s).len() == 0 && chains_previous(s.capability) && !s.skip {
        match prev_active(ls, b) {
            Some(a) => seq![a],
            None => Seq::<int>::empty(),
        }
    } else {
        Seq::<int>::empty()
    }
}

/// The leaves leaf `b` reads from or runs after: its input references, its `depends`,
/// its postprocess inputs, then the implicit predecessor.
pub open spec fn leaf_sources(ls: Seq<Step>, b: int) -> Seq<int> {
    ref_sources(ls, step_input_refs(ls[b])) + dep_sources(ls, string_views(ls[b].depends@))
        + value_sources(ls, pp_inputs(ls[b])) + implicit_source(ls, b)
}

/// Leaf `b` must run after leaf `a`.
pub open spec fn has_edge(ls: Seq<Step>, a: int, b: int) -> bool {
    a != b && leaf_sources(ls, b).contains(a)
}

/// `o` lists every leaf once, each after every leaf it must run after.
pub open spec fn is_topo_order(ls: Seq<Step>, o: Seq<int>) -> bool {
    &&& o.len() == ls.len()
    &&& o.no_duplicates()
    &&& forall|p: int| 0 <= p < o.len() ==> 0 <= #[trigger] o[p] < ls.len()
    &&& forall|p: int, q: int|
        0 <= p < o.len() && 0 <= q < o.len() && #[trigger] has_edge(ls, o[q], o[p]) ==> q < p
}

proof fn lemma_prev_active_is(ls: Seq<Step>, a: int, b: int)
    requires
        0 <= a < b <= ls.len(),
        !ls[a].skip,
        forall|k: int| a < k < b ==> #[trigger] ls[k].skip,
    ensures
        prev_active(ls, b) == Some(a),
    decreases b,
{
    if b - 1 > a {
        assert(ls[b - 1].skip);
        lemma_prev_active_is(ls, a, b - 1);
    }
}

/// An input-less fix-casing, fix-asr, fix-terms, fix-layout or meeting-merge leaf that is
/// not skipped reads what the last non-skipped leaf before it wrote: that leaf is among
/// its sources, and every topological order (the Kahn order among them) lists it first.
pub proof fn law_input_less_fix_follows_previous(ls: Seq<Step>, a: int, b: int, o: Seq<int>)
    requires
        0 <= a < b < ls.len(),
        !ls[a].skip,
        forall|k: int| a < k < b ==> #[trigger] ls[k].skip,
        !ls[b].skip,
        step_input_refs(ls[b]).len() == 0,
        ls[b].capability == Capability::FixCasing || ls[b].capability == Capability::FixAsr
            || ls[b].capability == Capability::FixTerms || ls[b].capability == Capability::FixLayout
            || ls[b].capability == Capability::MeetingMerge,
        is_topo_order(ls, o),
    ensures
        has_edge(ls, a, b),
        forall|p: int, q: int| 0 <= p < o.len() && 0 <= q < o.len() && o[p] == a && o[q] == b ==> p < q,
{
    lemma_prev_active_is(ls, a, b);
    assert(implicit_source(ls, b) == seq![a]);
    let srcs = leaf_sources(ls, b);
    assert(srcs[srcs.len() - 1] == a);
    assert(srcs.contains(a));
    assert forall|p: int, q: int|
        0 <= p < o.len() && 0 <= q < o.len() && o[p] == a && o[q] == b implies p < q by {
        assert(has_edge(ls, o[p], o[q]));
    }
}

/// The position, below `n`, of the last leaf listed in `o` that leaf `x` must run after;
/// -1 when `o` lists none there.
pub open spec fn last_source(ls: Seq<Step>, o: Seq<int>, x: int, n: int) -> int
    decreases n,
{
    if n <= 0 {
        -1
    } else if has_edge(ls, o[n - 1], x) {
        n - 1
    } else {
        last_source(ls, o, x, n - 1)
    }
}

/// The order Kahn's algorithm lists the leaves in: a topological order in which leaves
/// come sorted by the position of the last leaf they must run after (leaves with none
/// first), then by leaf number.
pub open spec fn is_kahn_order(ls: Seq<Step>, o: Seq<int>) -> bool {
    &&& is_topo_order(ls, o)
    &&& forall|p: int, q: int|
        #![trigger o[p], o[q]]
        0 <= p < q < o.len() ==> lex_before(
            last_source(ls, o, o[p], o.len() as int),
            o[p],
            last_source(ls, o, o[q], o.len() as int),
            o[q],
        )
}

proof fn lemma_last_source_prefix(ls: Seq<Step>, o1: Seq<int>, o2: Seq<int>, x: int, n: int)
    requires
        0 <= n <= o1.len(),
        n <= o2.len(),
        forall|k: int| 0 <= k < n ==> o1[k] == o2[k],
    ensures
        last_source(ls, o1, x, n) == last_source(ls, o2, x, n),
    decreases n,
{
    if n > 0 {
        lemma_last_source_prefix(ls, o1, o2, x, n - 1);
    }
}

proof fn lemma_last_source_skip(ls: Seq<Step>, o: Seq<int>, x: int, n: int, m: int)
    requires
        0 <= n <= m <= o.len(),
        forall|k: int| n <= k < m ==> !has_edge(ls, #[trigger] o[k], x),
    ensures
        last_source(ls, o, x, m) == last_source(ls, o, x, n),
    decreases m,
{
    if m > n {
        lemma_last_source_skip(ls, o, x, n, m - 1);
    }
}

/// Two Kahn orders of the same leaves that agree below position `i`: the leaf at position
/// `i` of `o1`, wherever `o2` places it, has in both its last source below `i`, at the
/// same position.
proof fn lemma_kahn_key_shared(ls: Seq<Step>, o1: Seq<int>, o2: Seq<int>, i: int, j: int, x: int)
    requires
        is_kahn_order(ls, o1),
        is_kahn_order(ls, o2),
        0 <= i <= j < o2.len(),
        o2[j] == x,
        o1[i] == x,
        forall|k: int| 0 <= k < i ==> o1[k] == o2[k],
    ensures
        last_source(ls, o1, x, o1.len() as int) == last_source(ls, o1, x, i),
        last_source(ls, o2, x, o2.len() as int) == last_source(ls, o1, x, i),
{
    let n = o1.len() as int;
    assert forall|k: int| i <= k < n implies !has_edge(ls, #[trigger] o1[k], x) by {
        if has_edge(ls, o1[k], o1[i]) {
            assert(k < i);
        }
    }
    lemma_last_source_skip(ls, o1, x, i, n);
    assert forall|k: int| i <= k < n implies !has_edge(ls, #[trigger] o2[k], x) by {
        if has_edge(ls, o2[k], o2[j]) {
            assert(k < j);
            let a = o2[k];
            lemma_distinct_vertices(o1, ls.len() as int);
            assert(o1.contains(a));
            let ra = o1.index_of(a);
            assert(o1[ra] == a);
            assert(has_edge(ls, o1[ra], o1[i]));
            assert(ra < i);
            if ra >= i {
                assert(false);
            }
            assert(o2[ra] == a);
            assert(ra != k);
        }
    }
    lemma_last_source_skip(ls, o2, x, i, n);
    lemma_last_source_prefix(ls, o1, o2, x, i);
}

proof fn lemma_kahn_orders_agree(ls: Seq<Step>, o1: Seq<int>, o2: Seq<int>, p: int)
    requires
        is_kahn_order(ls, o1),
        is_kahn_order(ls, o2),
        0 <= p <= o1.len(),
    ensures
        forall|k: int| 0 <= k < p ==> o1[k] == o2[k],
    decreases p,
{
    if p > 0 {
        let i = p - 1;
        lemma_kahn_orders_agree(ls, o1, o2, i);
        if o1[i] != o2[i] {
            let n = o1.len() as int;
            let x = o1[i];
            let y = o2[i];
            lemma_distinct_vertices(o1, ls.len() as int);
            lemma_distinct_vertices(o2, ls.len() as int);
            assert(o2.contains(x));
            assert(o1.contains(y));
            let jx = o2.index_of(x);
            let jy = o1.index_of(y);
            assert(o2[jx] == x && o1[jy] == y);
            assert(jx > i) by {
                if jx < i {
                    assert(o1[jx] == o1[i]);
                }
            }
            assert(jy > i) by {
                if jy < i {
                    assert(o2[jy] == o2[i]);
                }
            }
            assert forall|k: int| 0 <= k < i implies o2[k] == o1[k] by {}
            lemma_kahn_key_shared(ls, o1, o2, i, jx, x);
            lemma_kahn_key_shared(ls, o2, o1, i, jy, y);
            lemma_last_source_prefix(ls, o1, o2, y, i);
            assert(lex_before(
                last_source(ls, o1, o1[i], n),
                o1[i],
                last_source(ls, o1, o1[jy], n),
                o1[jy],
            ));
            assert(lex_before(
                last_source(ls, o2, o2[i], n),
                o2[i],
                last_source(ls, o2, o2[jx], n),
                o2[jx],
            ));
        }
    }
}

/// Only one order of a Job's leaves is a Kahn order: `is_kahn_order` determines the
/// order completely.
pub proof fn law_kahn_order_unique(ls: Seq<Step>, o1: Seq<int>, o2: Seq<int>)
    requires
        is_kahn_order(ls, o1),
        is_kahn_order(ls, o2),
    ensures
        o1 == o2,
{
    lemma_kahn_orders_agree(ls, o1, o2, o1.len() as int);
    assert(o1 =~= o2);
}

proof fn lemma_last_source_agrees(ls: Seq<Step>, g: Seq<Seq<usize>>, o: Seq<int>, x: int, n: int)
    requires
        g.len() == ls.len(),
        ls.len() <= usize::MAX,
        forall|a: int, c: usize|
            0 <= a < ls.len() && c < ls.len() ==> (#[trigger] g[a].contains(c) <==> has_edge(
                ls,
                a,
                c as int,
            )),
        0 <= n <= o.len(),
        forall|k: int| 0 <= k < o.len() ==> 0 <= #[trigger] o[k] < ls.len(),
        0 <= x < ls.len(),
    ensures
        last_pred(g, o, x, n) == last_source(ls, o, x, n),
    decreases n,
{
    if n > 0 {
        let a = o[n - 1];
        assert((x as usize) as int == x);
        assert(pred_of(g, a, x) == has_edge(ls, a, x));
        lemma_last_source_agrees(ls, g, o, x, n - 1);
    }
}

pub open spec fn opt_int(o: Option<usize>) -> Option<int> {
    match o {
        Some(x) => Some(x as int),
        None => None,
    }
}

fn step_registers(s: &Step, name: &str) -> (b: bool)
    ensures
        b == registers(*s, name@),
{
    let by_id = match &s.id {
        Some(i) => str_eq(i.as_str(), name),
        None => false,
    };
    by_id || s.outputs.contains_key(name) || (contains_str(&s.produces, name) && !contains_char(
        name,
        '*',
    ))
}

fn last_registering(leaves: &Vec<&Step>, name: &str) -> (r: Option<usize>)
    ensures
        opt_int(r) == artifact_source(step_refs(leaves@), name@),
        r matches Some(i) ==> i < leaves@.len(),
{
    let ghost ls = step_refs(leaves@);
    let mut i: usize = leaves.len();
    assert(ls.subrange(0, i as int) =~= ls);
    while i > 0
        invariant
            ls == step_refs(leaves@),
            i <= leaves@.len(),
            artifact_source(ls, name@) == artifact_source(ls.subrange(0, i as int), name@),
        decreases i,
    {
        let ghost t = ls.subrange(0, i as int);
        assert(t.last() == *leaves[i - 1]);
        assert(t.drop_last() =~= ls.subrange(0, i - 1));
        if step_registers(leaves[i - 1], name) {
            return Some(i - 1);
        }
        i = i - 1;
    }
    None
}

fn last_with_id(leaves: &Vec<&Step>, id: &str) -> (r: Option<usize>)
    ensures
        opt_int(r) == id_source(step_refs(leaves@), id@),
        r matches Some(i) ==> i < leaves@.len(),
{
    let ghost ls = step_refs(leaves@);
    let mut i: usize = leaves.len();
    assert(ls.subrange(0, i as int) =~= ls);
    while i > 0
        invariant
            ls == step_refs(leaves@),
            i <= leaves@.len(),
            id_source(ls, id@) == id_source(ls.subrange(0, i as int), id@),
        decreases i,
    {
        let ghost t = ls.subrange(0, i as int);
        assert(t.last() == *leaves[i - 1]);
        assert(t.drop_last() =~= ls.subrange(0, i - 1));
        let hit = match &leaves[i - 1].id {
            Some(x) => str_eq(x.as_str(), id),
            None => false,
        };
        if hit {
            return Some(i - 1);
        }
        i = i - 1;
    }
    None
}

fn ref_leaf(leaves: &Vec<&Step>, raw: &str) -> (r: Option<usize>)
    ensures
        opt_int(r) == ref_source(step_refs(leaves@), raw@),
        r matches Some(i) ==> i < leaves@.len(),
{
    match ArtifactRef::parse(raw) {
        ArtifactRef::Path(_) => None,
        ArtifactRef::Id(id) => {
            if contains_char(id.as_str(), '*') {
                None
            } else {
                last_registering(leaves, id.as_str())
            }
        },
    }
}

fn prev_active_leaf(leaves: &Vec<&Step>, b: usize) -> (r: Option<usize>)
    requires
        b <= leaves@.len(),
    ensures
        opt_int(r) == prev_active(step_refs(leaves@), b as int),
        r matches Some(i) ==> i < b,
{
    let ghost ls = step_refs(leaves@);
    let mut j: usize = b;
    while j > 0
        invariant
            ls == step_refs(leaves@),
            j <= b <= leaves@.len(),
            prev_active(ls, b as int) == prev_active(ls, j as int),
        decreases j,
    {
        assert(ls[j - 1] == *leaves[j - 1]);
        if !leaves[j - 1].skip {
            return Some(j - 1);
        }
        j = j - 1;
    }
    None
}

fn chains_prev(c: Capability) -> (b: bool)
    ensures
        b == chains_previous(c),
{
    match c {
        Capability::FixCasing | Capability::FixAsr | Capability::FixTerms | Capability::FixLayout
        | Capability::MeetingMerge => true,
        _ => false,
    }
}

proof fn lemma_ints_push(v: Seq<usize>, x: usize)
    ensures
        ints(v.push(x)) == ints(v).push(x as int),
{
    assert(ints(v.push(x)) =~= ints(v).push(x as int));
}

/// The sources of leaf `b`, in the order [`leaf_sources`] lists them.
fn sources_of(leaves: &Vec<&Step>, b: usize) -> (r: Vec<usize>)
    requires
        b < leaves@.len(),
    ensures
        ints(r@) == leaf_sources(step_refs(leaves@), b as int),
        forall|p: int| 0 <= p < r@.len() ==> #[trigger] r@[p] < leaves@.len(),
{
    let ghost ls = step_refs(leaves@);
    let step: &Step = leaves[b];
    assert(*step == ls[b as int]);
    let mut out: Vec<usize> = Vec::new();
    let refs = step.input_refs();
    let ghost rs = step_input_refs(*step);
    let mut k: usize = 0;
    assert(rs.subrange(0, 0) =~= Seq::<Seq<char>>::empty());
    assert(ints(out@) =~= Seq::<int>::empty());
    while k < refs.len()
        invariant
            ls == step_refs(leaves@),
            str_views(refs@) == rs,
            k <= refs@.len(),
            ints(out@) == ref_sources(ls, rs.subrange(0, k as int)),
            forall|p: int| 0 <= p < out@.len() ==> #[trigger] out@[p] < leaves@.len(),
        decreases refs@.len() - k,
    {
        let raw: &str = refs[k];
        assert(raw@ == rs[k as int]);
        assert(rs.subrange(0, k + 1).drop_last() =~= rs.subrange(0, k as int));
        if let Some(a) = ref_leaf(leaves, raw) {
            proof {
                lemma_ints_push(out@, a);
            }
            out.push(a);
        }
        k = k + 1;
    }
    assert(rs.subrange(0, refs@.len() as int) =~= rs);
    let ghost part1 = ints(out@);
    let ghost ds = string_views(step.depends@);
    let mut k: usize = 0;
    assert(ds.subrange(0, 0) =~= Seq::<Seq<char>>::empty());
    assert(part1 + dep_sources(ls, ds.subrange(0, 0)) =~= part1);
    while k < step.depends.len()
        invariant
            ls == step_refs(leaves@),
            ds == string_views(step.depends@),
            k <= step.depends@.len(),
            ints(out@) == part1 + dep_sources(ls, ds.subrange(0, k as int)),
            forall|p: int| 0 <= p < out@.len() ==> #[trigger] out@[p] < leaves@.len(),
        decreases step.depends@.len() - k,
    {
        let dep = step.depends[k].as_str();
        assert(dep@ == ds[k as int]);
        assert(ds.subrange(0, k + 1).drop_last() =~= ds.subrange(0, k as int));
        if let Some(a) = last_with_id(leaves, dep) {
            proof {
                lemma_ints_push(out@, a);
                assert(part1 + dep_sources(ls, ds.subrange(0, k as int)).push(a as int) =~= (part1
                    + dep_sources(ls, ds.subrange(0, k as int))).push(a as int));
            }
            out.push(a);
        }
        k = k + 1;
    }
    assert(ds.subrange(0, step.depends@.len() as int) =~= ds);
    let ghost part2 = ints(out@);
    let ghost vs = pp_inputs(*step);
    assert(part2 + value_sources(ls, Seq::<ArgValue>::empty()) =~= part2);
    if step.capability == Capability::Postprocess {
        if let Some(v) = step.options.get("inputs") {
            if let Some(map) = v.as_map() {
                assert(vs == map.value_list());
                let n = map.len();
                let mut k: usize = 0;
                assert(vs.subrange(0, 0) =~= Seq::<ArgValue>::empty());
                while k < n
                    invariant
                        ls == step_refs(leaves@),
                        vs == map.value_list(),
                        n == map.key_list().len(),
                        map.well_formed(),
                        k <= n,
                        ints(out@) == part2 + value_sources(ls, vs.subrange(0, k as int)),
                        forall|p: int| 0 <= p < out@.len() ==> #[trigger] out@[p] < leaves@.len(),
                    decreases n - k,
                {
                    let val = map.value_at(k);
                    assert(vs.subrange(0, k + 1).drop_last() =~= vs.subrange(0, k as int));
                    assert(vs.subrange(0, k + 1).last() == *val);
                    if let Some(raw) = val.as_string() {
                        if let Some(a) = ref_leaf(leaves, raw.as_str()) {
                            proof {
                                lemma_ints_push(out@, a);
                                assert(part2 + value_sources(ls, vs.subrange(0, k as int)).push(
                                    a as int,
                                ) =~= (part2 + value_sources(ls, vs.subrange(0, k as int))).push(
                                    a as int,
                                ));
                            }
                            out.push(a);
                        }
                    }
                    k = k + 1;
                }
                assert(vs.subrange(0, n as int) =~= vs);
            }
        }
    }
    let ghost part3 = ints(out@);
    assert(part3 == part2 + value_sources(ls, vs));
    if refs.len() == 0 && chains_prev(step.capability) && !step.skip {
        if let Some(a) = prev_active_leaf(leaves, b) {
            proof {
                lemma_ints_push(out@, a);
            }
            out.push(a);
        }
    }
    assert(ints(out@) =~= part3 + implicit_source(ls, b as int));
    out
}

fn has_index(v: &Vec<usize>, x: usize) -> (b: bool)
    ensures
        b == v@.contains(x),
{
    let mut i: usize = 0;
    while i < v.len()
        invariant
            i <= v@.len(),
            forall|j: int| 0 <= j < i ==> v@[j] != x,
        decreases v@.len() - i,
    {
        if v[i] == x {
            assert(v@[i as int] == x);
            return true;
        }
        i = i + 1;
    }
    false
}

/// The successor lists of the leaf graph and each leaf's number of predecessors.
fn build_graph(leaves: &Vec<&Step>) -> (r: (Vec<Vec<usize>>, Vec<usize>))
    ensures
        r.0@.len() == leaves@.len(),
        r.1@.len() == leaves@.len(),
        well_graph(adj_view(r.0@)),
        ascending_rows(adj_view(r.0@)),
        forall|a: int, c: usize|
            0 <= a < leaves@.len() && c < leaves@.len() ==> (#[trigger] adj_view(r.0@)[a].contains(c)
                <==> has_edge(step_refs(leaves@), a, c as int)),
        forall|j: int|
            0 <= j < leaves@.len() ==> r.1@[j] == pending(
                adj_view(r.0@),
                Seq::<int>::empty(),
                j,
            ).len(),
{
    let ghost ls = step_refs(leaves@);
    let n = leaves.len();
    let mut adj: Vec<Vec<usize>> = Vec::new();
    let mut indeg: Vec<usize> = Vec::new();
    let mut i: usize = 0;
    while i < n
        invariant
            n == leaves@.len(),
            i <= n,
            adj@.len() == i,
            indeg@.len() == i,
            forall|a: int| 0 <= a < i ==> (#[trigger] adj@[a])@.len() == 0,
            forall|a: int| 0 <= a < i ==> #[trigger] indeg@[a] == 0,
        decreases n - i,
    {
        adj.push(Vec::new());
        indeg.push(0);
        i = i + 1;
    }
    proof {
        assert forall|j: int| 0 <= j < n implies indeg@[j] == pending(
            adj_view(adj@),
            Seq::<int>::empty(),
            j,
        ).len() by {
            assert(pending(adj_view(adj@), Seq::<int>::empty(), j) =~= Set::<int>::empty());
        }
    }
    let mut b: usize = 0;
    while b < n
        invariant
            n == leaves@.len(),
            ls == step_refs(leaves@),
            b <= n,
            adj@.len() == n,
            indeg@.len() == n,
            well_graph(adj_view(adj@)),
            ascending_rows(adj_view(adj@)),
            forall|a: int, k: int|
                0 <= a < n && 0 <= k < adj_view(adj@)[a].len() ==> #[trigger] adj_view(adj@)[a][k] < b,
            forall|a: int, c: usize|
                0 <= a < n && c < n ==> (#[trigger] adj_view(adj@)[a].contains(c) <==> (c < b
                    && has_edge(ls, a, c as int))),
            forall|j: int|
                0 <= j < n ==> indeg@[j] == pending(adj_view(adj@), Seq::<int>::empty(), j).len(),
        decreases n - b,
    {
        let srcs = sources_of(leaves, b);
        let mut k: usize = 0;
        assert(ints(srcs@.subrange(0, 0)) =~= Seq::<int>::empty());
        while k < srcs.len()
            invariant
                n == leaves@.len(),
                ls == step_refs(leaves@),
                b < n,
                k <= srcs@.len(),
                ints(srcs@) == leaf_sources(ls, b as int),
                forall|p: int| 0 <= p < srcs@.len() ==> #[trigger] srcs@[p] < n,
                adj@.len() == n,
                indeg@.len() == n,
                well_graph(adj_view(adj@)),
                ascending_rows(adj_view(adj@)),
                forall|a: int, k: int|
                    0 <= a < n && 0 <= k < adj_view(adj@)[a].len() ==> #[trigger] adj_view(adj@)[a][k] <= b,
                forall|a: int, c: usize|
                    0 <= a < n && c < n ==> (#[trigger] adj_view(adj@)[a].contains(c) <==> ((c
                        < b && has_edge(ls, a, c as int)) || (c == b && a != b && ints(
                        srcs@.subrange(0, k as int),
                    ).contains(a)))),
                forall|j: int|
                    0 <= j < n ==> indeg@[j] == pending(
                        adj_view(adj@),
                        Seq::<int>::empty(),
                        j,
                    ).len(),
            decreases srcs@.len() - k,
        {
            let a = srcs[k];
            let ghost g0 = adj_view(adj@);
            proof {
                assert(ints(srcs@.subrange(0, k + 1)) =~= ints(srcs@.subrange(0, k as int)).push(
                    a as int,
                ));
                assert forall|x: int| #[trigger] ints(srcs@.subrange(0, k + 1)).contains(x) <==> (
                ints(srcs@.subrange(0, k as int)).contains(x) || x == a as int) by {
                    lemma_seq_contains_after_push(ints(srcs@.subrange(0, k as int)), a as int, x);
                }
            }
            if a != b && !has_index(&adj[a], b) {
                let mut row = adj[a].clone();
                assert(row@ == g0[a as int]);
                row.push(b);
                adj.set(a, row);
                proof {
                    let g1 = adj_view(adj@);
                    assert forall|x: int| 0 <= x < n && x != a implies g1[x] == g0[x] by {}
                    assert(g1[a as int] == g0[a as int].push(b));
                    assert forall|x: usize| #[trigger] g1[a as int].contains(x) <==> (g0[a as int].contains(x) || x == b) by {
                        lemma_seq_contains_after_push(g0[a as int], b, x);
                    }
                    lemma_pending_finite(g0, Seq::<int>::empty(), b as int);
                    lemma_pending_finite(g1, Seq::<int>::empty(), b as int);
                    assert(pending(g1, Seq::<int>::empty(), b as int) =~= pending(
                        g0,
                        Seq::<int>::empty(),
                        b as int,
                    ).insert(a as int));
                    assert(!pending(g0, Seq::<int>::empty(), b as int).contains(a as int));
                    assert forall|j: int| 0 <= j < n && j != b implies pending(
                        g1,
                        Seq::<int>::empty(),
                        j,
                    ) == pending(g0, Seq::<int>::empty(), j) by {
                        assert(pending(g1, Seq::<int>::empty(), j) =~= pending(
                            g0,
                            Seq::<int>::empty(),
                            j,
                        ));
                    }
                    assert(g1[a as int].no_duplicates());
                    assert forall|k: int| 0 <= k < g0[a as int].len() implies #[trigger] g0[a as int][k] < b by {
                        assert(g0[a as int].contains(g0[a as int][k]));
                    }
                    assert forall|x: int, i: int, j: int|
                        0 <= x < g1.len() && 0 <= i < j < g1[x].len() implies #[trigger] g1[x][i] < #[trigger] g1[x][j] by {
                        if x == a {
                            if j == g0[a as int].len() {
                                assert(g1[x][i] == g0[a as int][i]);
                            } else {
                                assert(g1[x][i] == g0[a as int][i] && g1[x][j] == g0[a as int][j]);
                            }
                        }
                    }
                    assert forall|x: int, k: int| 0 <= x < n && 0 <= k < g1[x].len() implies #[trigger] g1[x][k] <= b by {
                        if x == a && k < g0[a as int].len() {
                            assert(g1[x][k] == g0[a as int][k]);
                        }
                    }
                    assert forall|x: int, c: usize|
                        0 <= x < n && c < n implies (#[trigger] g1[x].contains(c) <==> ((c
                        < b && has_edge(ls, x, c as int)) || (c == b && x != b && ints(
                        srcs@.subrange(0, k + 1),
                    ).contains(x)))) by {
                        if x != a {
                            assert(g1[x] == g0[x]);
                        }
                    }
                }
                let d = indeg[b] + 1;
                indeg.set(b, d);
            } else {
                proof {
                    let g1 = adj_view(adj@);
                    assert forall|x: int, c: usize|
                        0 <= x < n && c < n implies (#[trigger] g1[x].contains(c) <==> ((c
                        < b && has_edge(ls, x, c as int)) || (c == b && x != b && ints(
                        srcs@.subrange(0, k + 1),
                    ).contains(x)))) by {
                        if x == a && c == b && a != b {
                            assert(adj@[a as int]@.contains(b));
                        }
                    }
                }
            }
            k = k + 1;
        }
        proof {
            assert(srcs@.subrange(0, srcs@.len() as int) =~= srcs@);
            assert forall|x: int, c: usize|
                0 <= x < n && c < n implies (#[trigger] adj_view(adj@)[x].contains(c) <==> (c
                < b + 1 && has_edge(ls, x, c as int))) by {
                if c == b {
                    assert(ints(srcs@).contains(x) == leaf_sources(ls, b as int).contains(x));
                }
            }
        }
        b = b + 1;
    }
    (adj, indeg)
}

proof fn lemma_topo_orders_agree(ls: Seq<Step>, g: Seq<Seq<usize>>, o: Seq<int>)
    requires
        g.len() == ls.len(),
        ls.len() <= usize::MAX,
        forall|a: int, c: usize|
            0 <= a < ls.len() && c < ls.len() ==> (#[trigger] g[a].contains(c) <==> has_edge(
                ls,
                a,
                c as int,
            )),
    ensures
        graph_topo(g, o) <==> is_topo_order(ls, o),
{
    if graph_topo(g, o) {
        assert forall|p: int, q: int|
            0 <= p < o.len() && 0 <= q < o.len() && #[trigger] has_edge(ls, o[q], o[p]) implies q
            < p by {
            assert((o[p] as usize) as int == o[p]);
            assert(g[o[q]].contains(o[p] as usize));
        }
    }
    if is_topo_order(ls, o) {
        assert forall|p: int, q: int|
            0 <= p < o.len() && 0 <= q < o.len() && #[trigger] g[o[q]].contains(
                #[trigger] o[p] as usize,
            ) implies q < p by {
            assert((o[p] as usize) as int == o[p]);
            assert(has_edge(ls, o[q], o[p]));
        }
    }
}

/// The leaves in the order Kahn's algorithm lists them by their data and ordering edges,
/// or the error `job DAG has a cycle` exactly when no topological order exists.
pub fn schedule_leaf_order(job: &Job) -> (r: Result<Vec<usize>, JobError>)
    ensures
        match r {
            Ok(order) => is_kahn_order(job_leaves(*job), ints(order@)),
            Err(e) => fault_of(e) == Fault::Usage("job DAG has a cycle"@) && forall|o: Seq<int>|
                !is_topo_order(job_leaves(*job), o),
        },
{
    let leaves = job.leaf_steps();
    let ghost ls = job_leaves(*job);
    let count = leaves.len();
    assert(ls.len() == count);
    let (adj, indeg) = build_graph(&leaves);
    let order = kahn_order(&adj, indeg);
    proof {
        assert forall|o: Seq<int>| graph_topo(adj_view(adj@), o) <==> is_topo_order(ls, o) by {
            lemma_topo_orders_agree(ls, adj_view(adj@), o);
        }
    }
    if order.len() != count {
        return Err(JobError::Usage(owned("job DAG has a cycle")));
    }
    proof {
        let g = adj_view(adj@);
        let o = ints(order@);
        assert(graph_topo(g, o));
        assert forall|p: int| 0 <= p < o.len() implies last_pred(g, o, #[trigger] o[p], o.len() as int)
            == last_source(ls, o, o[p], o.len() as int) by {
            lemma_last_source_agrees(ls, g, o, o[p], o.len() as int);
        }
        assert forall|p: int, q: int|
            #![trigger o[p], o[q]]
            0 <= p < q < o.len() implies lex_before(
            last_source(ls, o, o[p], o.len() as int),
            o[p],
            last_source(ls, o, o[q], o.len() as int),
            o[q],
        ) by {
            assert(last_pred(g, o, o[p], o.len() as int) == last_source(ls, o, o[p], o.len() as int));
            assert(last_pred(g, o, o[q], o.len() as int) == last_source(ls, o, o[q], o.len() as int));
        }
    }
    Ok(order)
}

} // verus!
