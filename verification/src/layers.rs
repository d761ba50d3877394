use vstd::prelude::*;
use crate::bfs::{bfs_from_seeds, is_dist, reachable};
use crate::graph::{edge_at, valid_pos, Graph};
use crate::idmap::IdMap;

verus! {

/// The root set of the graph: every vertex that sources an edge and is never
/// a target.
pub open spec fn root_set(g: Graph) -> Set<usize> {
    Set::new(|v: usize| g.is_root(v))
}

/// `v` occurs as a target at a position strictly before `(i, j)` in the
/// entry-by-entry, edge-by-edge scan of the adjacency.
pub open spec fn target_upto(g: Graph, i: int, j: int, v: usize) -> bool {
    exists|i2: int, j2: int|
        (i2 < i || (i2 == i && j2 < j)) && valid_pos(g, i2, j2) && #[trigger] edge_at(
            g,
            i2,
            j2,
        ).target == v
}

/// The receivers of the graph, as a map whose keys are exactly the vertices
/// that occur as a target.
fn collect_receivers(g: &Graph) -> (r: IdMap)
    requires
        g.wf(),
    ensures
        r.wf(),
        forall|v: usize| r.contains_spec(v) <==> g.is_receiver(v),
{
    let mut receivers = IdMap::new();
    let n = g.adj.len();
    for i in 0..n
        invariant
            n == g.adj@.len(),
            g.wf(),
            receivers.wf(),
            forall|v: usize| receivers.contains_spec(v) <==> target_upto(*g, i as int, 0, v),
    {
        let ne = g.adj[i].1.len();
        for j in 0..ne
            invariant
                n == g.adj@.len(),
                i < n,
                ne == g.entry_edges(i as int).len(),
                g.wf(),
                receivers.wf(),
                forall|v: usize| receivers.contains_spec(v)
                    <==> target_upto(*g, i as int, j as int, v),
        {
            let t = g.adj[i].1[j].target;
            proof {
                assert(edge_at(*g, i as int, j as int) == g.adj@[i as int].1@[j as int]@);
                assert(edge_at(*g, i as int, j as int).target == t);
            }
            receivers.insert(t, 0);
            proof {
                assert forall|v: usize| receivers.contains_spec(v)
                    implies target_upto(*g, i as int, j + 1, v) by {
                    if v == t {
                        assert(valid_pos(*g, i as int, j as int));
                    }
                }
                assert forall|v: usize| target_upto(*g, i as int, j + 1, v)
                    implies receivers.contains_spec(v) by {
                    let (i2, j2) = choose|i2: int, j2: int|
                        (i2 < i as int || (i2 == i as int && j2 < j + 1)) && valid_pos(*g, i2, j2)
                            && #[trigger] edge_at(*g, i2, j2).target == v;
                    if i2 == i as int && j2 == j as int {
                        assert(v == t);
                    } else {
                        assert(target_upto(*g, i as int, j as int, v));
                    }
                }
            }
        }
        proof {
            assert forall|v: usize| target_upto(*g, i + 1, 0, v)
                implies target_upto(*g, i as int, ne as int, v) by {
                let (i2, j2) = choose|i2: int, j2: int|
                    (i2 < i + 1 || (i2 == i + 1 && j2 < 0)) && valid_pos(*g, i2, j2)
                        && #[trigger] edge_at(*g, i2, j2).target == v;
                assert(i2 < i as int || (i2 == i as int && j2 < ne as int));
            }
        }
    }
    proof {
        assert forall|v: usize| receivers.contains_spec(v) implies g.is_receiver(v) by {
            let (i2, j2) = choose|i2: int, j2: int|
                (i2 < n as int || (i2 == n as int && j2 < 0)) && valid_pos(*g, i2, j2)
                    && #[trigger] edge_at(*g, i2, j2).target == v;
            let u = g.adj@[i2].0;
            g.lemma_index_unique(u, i2);
            assert(g.spec_edges(u)[j2].target == v);
            assert(g.has_edge(u, v));
        }
        assert forall|v: usize| g.is_receiver(v) implies receivers.contains_spec(v) by {
            let u = choose|u: usize| g.has_edge(u, v);
            let j2 = choose|j2: int|
                0 <= j2 < g.spec_edges(u).len() && g.spec_edges(u)[j2].target == v;
            assert(g.contains_source(u)) by {
                if !g.contains_source(u) {
                    assert(g.spec_edges(u) == Seq::<crate::graph::EdgeM>::empty());
                }
            }
            let i2 = g.index_of(u);
            assert(valid_pos(*g, i2, j2) && edge_at(*g, i2, j2).target == v);
            assert(target_upto(*g, n as int, 0, v));
        }
    }
    receivers
}

/// `v` is a source among the first `i` adjacency entries and never a target.
pub open spec fn root_upto(g: Graph, i: int, v: usize) -> bool {
    (exists|i2: int| 0 <= i2 < i && g.adj@[i2].0 == v) && !g.is_receiver(v)
}

/// The root vertices, in the order their adjacency entries appear.
fn collect_roots(g: &Graph) -> (r: Vec<usize>)
    requires
        g.wf(),
    ensures
        r@.no_duplicates(),
        forall|v: usize| r@.contains(v) <==> g.is_root(v),
{
    let receivers = collect_receivers(g);
    let mut roots: Vec<usize> = Vec::new();
    let n = g.adj.len();
    for i in 0..n
        invariant
            n == g.adj@.len(),
            g.wf(),
            receivers.wf(),
            forall|v: usize| receivers.contains_spec(v) <==> g.is_receiver(v),
            roots@.no_duplicates(),
            forall|v: usize| roots@.contains(v) <==> root_upto(*g, i as int, v),
    {
        let s = g.adj[i].0;
        if !receivers.contains_key(s) {
            proof {
                assert(!roots@.contains(s)) by {
                    if roots@.contains(s) {
                        assert(root_upto(*g, i as int, s));
                        let i2 = choose|i2: int| 0 <= i2 < i as int && g.adj@[i2].0 == s;
                        assert(g.sources()[i2] == s);
                        assert(g.sources()[i as int] == s);
                    }
                }
            }
            let ghost roots_pre = roots@;
            roots.push(s);
            proof {
                assert forall|v: usize| roots@.contains(v) implies root_upto(*g, i + 1, v) by {
                    let a = choose|a: int| 0 <= a < roots@.len() && roots@[a] == v;
                    if a == roots@.len() - 1 {
                        assert(v == s);
                        assert(g.adj@[i as int].0 == v);
                    } else {
                        assert(roots_pre[a] == v);
                        assert(roots_pre.contains(v));
                        assert(root_upto(*g, i as int, v));
                        let i2 = choose|i2: int| 0 <= i2 < i as int && g.adj@[i2].0 == v;
                        assert(0 <= i2 < i + 1 && g.adj@[i2].0 == v);
                    }
                }
                assert forall|v: usize| root_upto(*g, i + 1, v)
                    implies roots@.contains(v) by {
                    let i2 = choose|i2: int| 0 <= i2 < i + 1 && g.adj@[i2].0 == v;
                    if i2 == i as int {
                        assert(v == s);
                        assert(roots@[roots@.len() - 1] == s);
                    } else {
                        assert(0 <= i2 < i as int && g.adj@[i2].0 == v);
                        assert(root_upto(*g, i as int, v));
                        assert(roots_pre.contains(v));
                        let a = choose|a: int| 0 <= a < roots_pre.len() && roots_pre[a] == v;
                        assert(roots@[a] == v);
                    }
                }
            }
        } else {
            proof {
                assert(g.is_receiver(s));
                assert forall|v: usize| roots@.contains(v) implies root_upto(*g, i + 1, v) by {
                    assert(root_upto(*g, i as int, v));
                    let i2 = choose|i2: int| 0 <= i2 < i as int && g.adj@[i2].0 == v;
                    assert(0 <= i2 < i + 1 && g.adj@[i2].0 == v);
                }
                assert forall|v: usize| root_upto(*g, i + 1, v)
                    implies roots@.contains(v) by {
                    let i2 = choose|i2: int| 0 <= i2 < i + 1 && g.adj@[i2].0 == v;
                    if i2 == i as int {
                        assert(v == s);
                        assert(false);
                    } else {
                        assert(0 <= i2 < i as int && g.adj@[i2].0 == v);
                        assert(root_upto(*g, i as int, v));
                    }
                }
            }
        }
    }
    proof {
        assert forall|v: usize| roots@.contains(v) implies g.is_root(v) by {
            assert(root_upto(*g, n as int, v));
            let i2 = choose|i2: int| 0 <= i2 < n as int && g.adj@[i2].0 == v;
            assert(g.contains_source(v));
        }
        assert forall|v: usize| g.is_root(v) implies roots@.contains(v) by {
            let i2 = g.index_of(v);
            assert(0 <= i2 < n as int && g.adj@[i2].0 == v);
            assert(root_upto(*g, n as int, v));
        }
    }
    roots
}

/// Assign every vertex its layer: the roots — sources that are never
/// targets — lie at layer zero, and every other vertex reachable from them
/// lies at its hop distance from the root set.  Vertices unreachable from
/// every root are absent.
pub fn find_layers(g: &Graph) -> (m: IdMap)
    requires
        g.wf(),
    ensures
        m.wf(),
        forall|v: usize| m.contains_spec(v) <==> reachable(*g, root_set(*g), v),
        forall|v: usize| m.contains_spec(v)
            ==> is_dist(*g, root_set(*g), v, m.value_of(v) as nat),
        // layer zero is exactly the root set
        forall|v: usize| m.contains_spec(v) && m.value_of(v) == 0 <==> g.is_root(v),
        // along any edge inside the map, the layer grows by at most one
        forall|u: usize, v: usize| m.contains_spec(u) && g.has_edge(u, v)
            ==> m.contains_spec(v) && m.value_of(v) <= m.value_of(u) + 1,
{
    let roots = collect_roots(g);
    let m = bfs_from_seeds(g, &roots);
    proof {
        assert(roots@.to_set() =~= root_set(*g)) by {
            assert forall|v: usize| roots@.to_set().contains(v) == root_set(*g).contains(v) by {
                assert(roots@.to_set().contains(v) == roots@.contains(v));
            }
        }
        assert forall|v: usize| m.contains_spec(v) && m.value_of(v) == 0 implies g.is_root(v) by {
            assert(roots@.contains(v));
        }
        assert forall|v: usize| g.is_root(v)
            implies m.contains_spec(v) && m.value_of(v) == 0 by {
            assert(roots@.contains(v));
        }
    }
    m
}

/// The number of entries of `entries` bound to layer `l`.
pub open spec fn layer_count(entries: Seq<(usize, usize)>, l: usize) -> nat
    decreases entries.len(),
{
    if entries.len() == 0 {
        0
    } else {
        layer_count(entries.drop_last(), l) + if entries.last().1 == l {
            1nat
        } else {
            0nat
        }
    }
}

proof fn lemma_layer_count_le(entries: Seq<(usize, usize)>, l: usize)
    ensures
        layer_count(entries, l) <= entries.len(),
    decreases entries.len(),
{
    if entries.len() > 0 {
        lemma_layer_count_le(entries.drop_last(), l);
    }
}

/// The total out-degree of the vertices that `lm` assigns to layer `l`,
/// summed over the adjacency entries `s`.  A vertex without an entry has no
/// out-going edges and adds nothing.
pub open spec fn layer_degree_sum(
    lm: IdMap,
    s: Seq<(usize, Vec<crate::graph::Edge>)>,
    l: usize,
) -> nat
    decreases s.len(),
{
    if s.len() == 0 {
        0
    } else {
        layer_degree_sum(lm, s.drop_last(), l) + if lm.contains_spec(s.last().0)
            && lm.value_of(s.last().0) == l {
            s.last().1@.len()
        } else {
            0
        }
    }
}

proof fn lemma_layer_degree_sum_le(lm: IdMap, s: Seq<(usize, Vec<crate::graph::Edge>)>, l: usize)
    ensures
        layer_degree_sum(lm, s, l) <= crate::graph::sum_edge_lens(s),
    decreases s.len(),
{
    if s.len() > 0 {
        lemma_layer_degree_sum_le(lm, s.drop_last(), l);
    }
}

proof fn lemma_sum_edge_lens_take(s: Seq<(usize, Vec<crate::graph::Edge>)>, i: int)
    requires
        0 <= i <= s.len(),
    ensures
        crate::graph::sum_edge_lens(s.take(i)) <= crate::graph::sum_edge_lens(s),
    decreases s.len() - i,
{
    if i < s.len() {
        assert(s.take(i + 1).drop_last() =~= s.take(i));
        assert(s.take(i + 1).last() == s[i]);
        lemma_sum_edge_lens_take(s, i + 1);
    } else {
        assert(s.take(i) =~= s);
    }
}

/// Count how many vertices of `layer_map` sit in each layer.
fn count_layers(lm: &IdMap) -> (r: IdMap)
    requires
        lm.wf(),
    ensures
        r.wf(),
        forall|l: usize| r.contains_spec(l) <==> layer_count(lm.entries@, l) > 0,
        forall|l: usize| r.contains_spec(l) ==> r.value_of(l) == layer_count(lm.entries@, l),
    {
        let mut r = IdMap::new();
        let n = lm.len();
        for i in 0..n
            invariant
                n == lm.entries@.len(),
                lm.wf(),
                r.wf(),
                forall|l: usize| r.contains_spec(l)
                    <==> layer_count(lm.entries@.take(i as int), l) > 0,
                forall|l: usize| r.contains_spec(l)
                    ==> r.value_of(l) == layer_count(lm.entries@.take(i as int), l),
        {
            let l = lm.entries[i].1;
            let c = match r.get(l) {
                Some(c) => c,
                None => 0,
            };
            proof {
                lemma_layer_count_le(lm.entries@.take(i as int), l);
            }
            r.insert(l, c + 1);
            proof {
                assert forall|l2: usize| true implies layer_count(
                    lm.entries@.take(i + 1),
                    l2,
                ) == layer_count(lm.entries@.take(i as int), l2) + (if l2 == l {
                    1nat
                } else {
                    0nat
                }) by {
                    assert(lm.entries@.take(i + 1).drop_last() =~= lm.entries@.take(i as int));
                    assert(lm.entries@.take(i + 1).last() == lm.entries@[i as int]);
                }
            }
        }
        proof {
            assert(lm.entries@.take(n as int) =~= lm.entries@);
        }
        r
    }

/// How many vertices each layer holds.  Layers are keyed in order of their
/// first vertex in the layer map; a layer occurs exactly when some vertex is
/// assigned to it, with its population as value.
pub fn layer_map_count(layer_map: IdMap) -> (r: IdMap)
    requires
        layer_map.wf(),
    ensures
        r.wf(),
        forall|l: usize| r.contains_spec(l) <==> layer_count(layer_map.entries@, l) > 0,
        forall|l: usize| r.contains_spec(l)
            ==> r.value_of(l) == layer_count(layer_map.entries@, l),
{
    count_layers(&layer_map)
}

/// Sum the out-degrees of the mapped vertices, per layer.
fn sum_degrees(g: &Graph, lm: &IdMap) -> (r: IdMap)
    requires
        g.wf(),
        lm.wf(),
    ensures
        r.wf(),
        forall|l: usize| r.contains_spec(l)
            ==> r.value_of(l) == layer_degree_sum(*lm, g.adj@, l),
        forall|l: usize| !r.contains_spec(l) ==> layer_degree_sum(*lm, g.adj@, l) == 0,
    {
        let mut r = IdMap::new();
        let n = g.adj.len();
        for i in 0..n
            invariant
                n == g.adj@.len(),
                g.wf(),
                lm.wf(),
                r.wf(),
                forall|l: usize| r.contains_spec(l)
                    ==> r.value_of(l) == layer_degree_sum(*lm, g.adj@.take(i as int), l),
                forall|l: usize| !r.contains_spec(l)
                    ==> layer_degree_sum(*lm, g.adj@.take(i as int), l) == 0,
        {
            let s = g.adj[i].0;
            let deg = g.adj[i].1.len();
            let lo = lm.get(s);
            proof {
                assert forall|l2: usize| true implies layer_degree_sum(
                    *lm,
                    g.adj@.take(i + 1),
                    l2,
                ) == layer_degree_sum(*lm, g.adj@.take(i as int), l2) + (if lm.contains_spec(s)
                    && lm.value_of(s) == l2 {
                    g.adj@[i as int].1@.len()
                } else {
                    0nat
                }) by {
                    assert(g.adj@.take(i + 1).drop_last() =~= g.adj@.take(i as int));
                    assert(g.adj@.take(i + 1).last() == g.adj@[i as int]);
                }
            }
            match lo {
                Some(l) => {
                    let cur = match r.get(l) {
                        Some(c) => c,
                        None => 0,
                    };
                    proof {
                        lemma_layer_degree_sum_le(*lm, g.adj@.take(i as int), l);
                        lemma_sum_edge_lens_take(g.adj@, i + 1);
                        assert(g.adj@.take(i + 1).drop_last() =~= g.adj@.take(i as int));
                        assert(g.adj@.take(i + 1).last() == g.adj@[i as int]);
                        assert(crate::graph::sum_edge_lens(g.adj@.take(i + 1))
                            == crate::graph::sum_edge_lens(g.adj@.take(i as int)) + deg);
                        assert(cur + deg <= g.n_edges);
                    }
                    r.insert(l, cur + deg);
                },
                None => {},
            }
        }
        proof {
            assert(g.adj@.take(n as int) =~= g.adj@);
        }
        r
    }

/// The integer mean out-degree of each layer: for every layer that holds at
/// least one vertex, the summed out-degrees of its vertices divided by their
/// number, truncated.  A vertex with no adjacency entry contributes zero to
/// the sum and one to the population.
pub fn average_interactions_per_layer(g: &Graph, layer_map: IdMap) -> (r: IdMap)
    requires
        g.wf(),
        layer_map.wf(),
    ensures
        r.wf(),
        forall|l: usize| r.contains_spec(l) <==> layer_count(layer_map.entries@, l) > 0,
        forall|l: usize| r.contains_spec(l) ==> r.value_of(l) == layer_degree_sum(
            layer_map,
            g.adj@,
            l,
        ) / layer_count(layer_map.entries@, l),
{
    let counts = count_layers(&layer_map);
    let sums = sum_degrees(g, &layer_map);
    let mut r = IdMap::new();
    let n = counts.len();
    for idx in 0..n
        invariant
            n == counts.entries@.len(),
            g.wf(),
            layer_map.wf(),
            counts.wf(),
            sums.wf(),
            r.wf(),
            forall|l: usize| counts.contains_spec(l) <==> layer_count(layer_map.entries@, l) > 0,
            forall|l: usize| counts.contains_spec(l)
                ==> counts.value_of(l) == layer_count(layer_map.entries@, l),
            forall|l: usize| sums.contains_spec(l)
                ==> sums.value_of(l) == layer_degree_sum(layer_map, g.adj@, l),
            forall|l: usize| !sums.contains_spec(l)
                ==> layer_degree_sum(layer_map, g.adj@, l) == 0,
            forall|l: usize| r.contains_spec(l) <==> exists|idx2: int|
                0 <= idx2 < idx && (#[trigger] counts.entries@[idx2]).0 == l,
            forall|l: usize| r.contains_spec(l) ==> r.value_of(l) == layer_degree_sum(
                layer_map,
                g.adj@,
                l,
            ) / layer_count(layer_map.entries@, l),
    {
        let l = counts.entries[idx].0;
        let c = counts.entries[idx].1;
        proof {
            counts.lemma_index_unique(l, idx as int);
            assert(counts.contains_spec(l));
            assert(c == counts.value_of(l));
            assert(layer_count(layer_map.entries@, l) > 0);
        }
        let sm = match sums.get(l) {
            Some(sv) => sv,
            None => 0,
        };
        r.insert(l, sm / c);
        proof {
            assert forall|l2: usize| r.contains_spec(l2) implies exists|idx2: int|
                0 <= idx2 < idx + 1 && (#[trigger] counts.entries@[idx2]).0 == l2 by {
                if l2 == l {
                    assert(counts.entries@[idx as int].0 == l);
                } else {
                    let idx2 = choose|idx2: int|
                        0 <= idx2 < idx as int && (#[trigger] counts.entries@[idx2]).0 == l2;
                    assert(counts.entries@[idx2].0 == l2);
                }
            }
            assert forall|l2: usize|
                (exists|idx2: int| 0 <= idx2 < idx + 1 && (#[trigger] counts.entries@[idx2]).0
                    == l2) implies r.contains_spec(l2) by {
                let idx2 = choose|idx2: int|
                    0 <= idx2 < idx + 1 && (#[trigger] counts.entries@[idx2]).0 == l2;
                if idx2 == idx as int {
                    assert(l2 == l);
                }
            }
        }
    }
    proof {
        assert forall|l: usize| r.contains_spec(l) implies layer_count(
            layer_map.entries@,
            l,
        ) > 0 by {
            let idx2 = choose|idx2: int|
                0 <= idx2 < n as int && (#[trigger] counts.entries@[idx2]).0 == l;
            counts.lemma_index_unique(l, idx2);
        }
        assert forall|l: usize| layer_count(layer_map.entries@, l) > 0
            implies r.contains_spec(l) by {
            assert(counts.contains_spec(l));
            let idx2 = counts.index_of(l);
            assert(counts.entries@[idx2].0 == l);
        }
    }
    r
}

} // verus!
