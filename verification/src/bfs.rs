use vstd::prelude::*;
use vstd::seq_lib::seq_to_set_is_finite;
use vstd::set_lib::{lemma_len_subset, lemma_len_union};
use crate::graph::{all_targets, lemma_all_targets_len, Graph};
use crate::idmap::IdMap;

verus! {

/// Distinct vertices that are each a seed or a target cannot outnumber the
/// seeds and the stored edges together.
pub proof fn lemma_queue_bound(g: Graph, seeds: Seq<usize>, ks: Seq<usize>)
    requires
        g.wf(),
        ks.no_duplicates(),
        forall|idx: int| 0 <= idx < ks.len()
            ==> seeds.contains(#[trigger] ks[idx]) || g.is_receiver(ks[idx]),
    ensures
        ks.len() <= seeds.len() + g.n_edges,
{
    let ts = all_targets(g.adj@);
    ks.unique_seq_to_set();
    seq_to_set_is_finite(ks);
    seq_to_set_is_finite(seeds);
    seq_to_set_is_finite(ts);
    assert(ks.to_set().subset_of(seeds.to_set().union(ts.to_set()))) by {
        assert forall|v: usize| ks.to_set().contains(v)
            implies seeds.to_set().contains(v) || ts.to_set().contains(v) by {
            let idx = choose|idx: int| 0 <= idx < ks.len() && ks[idx] == v;
            assert(seeds.contains(v) || g.is_receiver(v));
            if seeds.contains(v) {
            } else {
                g.lemma_receiver_in_targets(v);
            }
        }
    }
    lemma_len_union(seeds.to_set(), ts.to_set());
    lemma_len_subset(ks.to_set(), seeds.to_set().union(ts.to_set()));
    seeds.lemma_cardinality_of_set();
    ts.lemma_cardinality_of_set();
    lemma_all_targets_len(g.adj@);
}

/// `v` can be reached from some vertex of `seeds` along a directed path of at
/// most `n` edges.
pub open spec fn reaches_in(g: Graph, seeds: Set<usize>, v: usize, n: nat) -> bool
    decreases n,
{
    if n == 0 {
        seeds.contains(v)
    } else {
        reaches_in(g, seeds, v, (n - 1) as nat) || (exists|u: usize|
            reaches_in(g, seeds, u, (n - 1) as nat) && g.has_edge(u, v))
    }
}

/// `v` is reachable from the seed set.
pub open spec fn reachable(g: Graph, seeds: Set<usize>, v: usize) -> bool {
    exists|n: nat| reaches_in(g, seeds, v, n)
}

/// `d` is the hop distance of `v` from the seed set: `v` is reachable within
/// `d` edges and, unless `d` is zero, not within `d - 1`.
pub open spec fn is_dist(g: Graph, seeds: Set<usize>, v: usize, d: nat) -> bool {
    reaches_in(g, seeds, v, d) && (d == 0 || !reaches_in(g, seeds, v, (d - 1) as nat))
}

/// `d` is the eccentricity of the seed set: the largest hop distance of any
/// reachable vertex.
pub open spec fn is_eccentricity(g: Graph, seeds: Set<usize>, d: nat) -> bool {
    (exists|v: usize| is_dist(g, seeds, v, d)) && (forall|v: usize, d2: nat|
        is_dist(g, seeds, v, d2) ==> d2 <= d)
}

/// Reachability within `n` edges is cumulative in `n`.
pub proof fn lemma_reaches_monotone(g: Graph, seeds: Set<usize>, v: usize, n1: nat, n2: nat)
    requires
        reaches_in(g, seeds, v, n1),
        n1 <= n2,
    ensures
        reaches_in(g, seeds, v, n2),
    decreases n2,
{
    if n2 > n1 {
        lemma_reaches_monotone(g, seeds, v, n1, (n2 - 1) as nat);
    }
}

/// Hop distance is unique.
pub proof fn lemma_dist_unique(g: Graph, seeds: Set<usize>, v: usize, d1: nat, d2: nat)
    requires
        is_dist(g, seeds, v, d1),
        is_dist(g, seeds, v, d2),
    ensures
        d1 == d2,
{
    if d1 < d2 {
        lemma_reaches_monotone(g, seeds, v, d1, (d2 - 1) as nat);
    }
    if d2 < d1 {
        lemma_reaches_monotone(g, seeds, v, d2, (d1 - 1) as nat);
    }
}

/// Layer monotonicity: following one edge raises the hop distance by at most
/// one.  For any edge `u -> v` with both endpoints at a distance from the seed
/// set, the distance of `v` is at most one more than the distance of `u`.
pub proof fn lemma_layer_monotonicity(
    g: Graph,
    seeds: Set<usize>,
    u: usize,
    v: usize,
    du: nat,
    dv: nat,
)
    requires
        is_dist(g, seeds, u, du),
        is_dist(g, seeds, v, dv),
        g.has_edge(u, v),
    ensures
        dv <= du + 1,
{
    assert(reaches_in(g, seeds, v, du + 1));
    if dv > du + 1 {
        lemma_reaches_monotone(g, seeds, v, du + 1, (dv - 1) as nat);
    }
}

/// One relaxation step of the search, first half: vertex `t`, newly
/// discovered from the cursor vertex `v_cur` at distance `d`, is appended at
/// distance `d + 1`, and the ordering facts of the traversal survive.
#[verifier::rlimit(100)]
proof fn lemma_insert_step_order(
    m_old: IdMap,
    m: IdMap,
    q_old: Seq<usize>,
    i: int,
    d: usize,
    v_cur: usize,
    t: usize,
)
    requires
        m_old.wf(),
        m.wf(),
        0 <= i < q_old.len(),
        m_old.keys() == q_old,
        q_old[i] == v_cur,
        d == m_old.entries@[i].1,
        d < usize::MAX,
        !m_old.contains_spec(t),
        m.entries@ == m_old.entries@.push((t, (d + 1) as usize)),
        forall|k: int| 0 <= k < q_old.len() ==> #[trigger] m_old.entries@[k].1 <= k,
        forall|k1: int, k2: int| 0 <= k1 <= k2 < q_old.len()
            ==> m_old.entries@[k1].1 <= m_old.entries@[k2].1,
        forall|k: int| i <= k < q_old.len() ==> #[trigger] m_old.entries@[k].1 <= d + 1,
    ensures
        m.keys() == q_old.push(t),
        m.contains_spec(v_cur),
        m.value_of(v_cur) == d,
        d == m.entries@[i].1,
        m.contains_spec(t),
        m.value_of(t) == d + 1,
        forall|v: usize| v != t && m_old.contains_spec(v)
            ==> m.contains_spec(v) && m.value_of(v) == m_old.value_of(v),
        forall|v: usize| m.contains_spec(v) && v != t ==> m_old.contains_spec(v),
        forall|k: int| 0 <= k < m.entries@.len() ==> #[trigger] m.entries@[k].1 <= k,
        forall|k1: int, k2: int| 0 <= k1 <= k2 < m.entries@.len()
            ==> m.entries@[k1].1 <= m.entries@[k2].1,
        forall|k: int| i <= k < m.entries@.len() ==> #[trigger] m.entries@[k].1 <= d + 1,
{
    let qn = q_old.push(t);
    let newpos = qn.len() - 1;
    assert(m.keys() =~= qn);
    assert(m.entries@[newpos].0 == t);
    m.lemma_index_unique(t, newpos);
    assert(m.value_of(t) == d + 1);
    assert forall|k: int| 0 <= k < newpos implies m.entries@[k] == m_old.entries@[k] by {}
    assert(m.contains_spec(v_cur) && m.value_of(v_cur) == d) by {
        assert(m.entries@[i].0 == v_cur);
        m.lemma_index_unique(v_cur, i);
    }
    assert forall|v: usize| v != t && m_old.contains_spec(v)
        implies m.contains_spec(v) && m.value_of(v) == m_old.value_of(v) by {
        let kv = m_old.index_of(v);
        assert(m.entries@[kv].0 == v);
        m.lemma_index_unique(v, kv);
    }
    assert forall|v: usize| m.contains_spec(v) && v != t implies m_old.contains_spec(v) by {
        let kv = m.index_of(v);
        assert(kv < newpos);
        assert(m_old.entries@[kv].0 == v);
    }
    assert forall|k: int| 0 <= k < m.entries@.len() implies #[trigger] m.entries@[k].1 <= k by {
        if k < newpos {
            assert(m_old.entries@[k].1 <= k);
        } else {
            assert(m.entries@[k].1 == d + 1);
            assert(d <= i);
            assert(i < newpos);
        }
    }
    assert forall|k1: int, k2: int| 0 <= k1 <= k2 < m.entries@.len()
        implies m.entries@[k1].1 <= m.entries@[k2].1 by {
        if k2 < newpos {
        } else if k1 < newpos {
            assert(m.entries@[k1].1 <= d + 1) by {
                if k1 < i {
                    assert(m_old.entries@[k1].1 <= m_old.entries@[i].1);
                }
            }
        }
    }
}

/// A well-formed map whose keys are each a seed or a target stays within
/// the seed count plus the edge count.
proof fn lemma_map_size_bound(g: Graph, seeds: Seq<usize>, m: IdMap)
    requires
        g.wf(),
        seeds.no_duplicates(),
        m.wf(),
        forall|v: usize| m.contains_spec(v) ==> seeds.contains(v) || g.is_receiver(v),
    ensures
        m.entries@.len() <= seeds.len() + g.n_edges,
{
    assert forall|idx: int| 0 <= idx < m.keys().len()
        implies seeds.contains(#[trigger] m.keys()[idx]) || g.is_receiver(m.keys()[idx]) by {
        assert(m.entries@[idx].0 == m.keys()[idx]);
        assert(m.contains_spec(m.keys()[idx]));
    }
    lemma_queue_bound(g, seeds, m.keys());
}

/// One relaxation step of the search, relaxation half: edges out of already
/// processed vertices, and the already handled edges of the cursor vertex,
/// stay relaxed after `t` is appended.
#[verifier::rlimit(100)]
proof fn lemma_insert_step_relaxed(
    g: Graph,
    m_old: IdMap,
    m: IdMap,
    q_old: Seq<usize>,
    i: int,
    j: int,
    d: usize,
    v_cur: usize,
    t: usize,
)
    requires
        g.wf(),
        m_old.wf(),
        m_old.keys() == q_old,
        0 <= i < q_old.len(),
        q_old[i] == v_cur,
        m_old.contains_spec(v_cur),
        m_old.value_of(v_cur) == d,
        d < usize::MAX,
        0 <= j < g.spec_edges(v_cur).len(),
        g.spec_edges(v_cur)[j].target == t,
        !m_old.contains_spec(t),
        m.keys() == q_old.push(t),
        m.contains_spec(t),
        m.value_of(t) == d + 1,
        forall|v: usize| v != t && m_old.contains_spec(v)
            ==> m.contains_spec(v) && m.value_of(v) == m_old.value_of(v),
        forall|k: int, v: usize| 0 <= k < i && g.has_edge(q_old[k], v)
            ==> m_old.contains_spec(v) && m_old.value_of(v) <= m_old.value_of(q_old[k]) + 1,
        forall|jj: int| 0 <= jj < j
            ==> m_old.contains_spec(#[trigger] g.spec_edges(v_cur)[jj].target)
                && m_old.value_of(g.spec_edges(v_cur)[jj].target) <= d + 1,
    ensures
        forall|k: int, v: usize| 0 <= k < i && g.has_edge(q_old.push(t)[k], v)
            ==> m.contains_spec(v) && m.value_of(v) <= m.value_of(q_old.push(t)[k]) + 1,
        forall|jj: int| 0 <= jj < j + 1
            ==> m.contains_spec(#[trigger] g.spec_edges(v_cur)[jj].target)
                && m.value_of(g.spec_edges(v_cur)[jj].target) <= d + 1,
{
    let qn = q_old.push(t);
    assert forall|k: int, v: usize| 0 <= k < i && g.has_edge(qn[k], v)
        implies m.contains_spec(v) && m.value_of(v) <= m.value_of(qn[k]) + 1 by {
        assert(qn[k] == q_old[k]);
        assert(m_old.contains_spec(v) && m_old.value_of(v) <= m_old.value_of(q_old[k]) + 1);
        assert(m_old.keys()[k] == q_old[k]);
        assert(m_old.entries@[k].0 == q_old[k]);
        assert(m_old.contains_spec(q_old[k]));
        assert(qn[k] != t);
        if v != t {
            assert(m.value_of(v) == m_old.value_of(v));
        }
    }
    assert forall|jj: int| 0 <= jj < j + 1
        implies m.contains_spec(#[trigger] g.spec_edges(v_cur)[jj].target)
            && m.value_of(g.spec_edges(v_cur)[jj].target) <= d + 1 by {
        let tt = g.spec_edges(v_cur)[jj].target;
        if jj < j {
            assert(m_old.contains_spec(tt) && m_old.value_of(tt) <= d + 1);
            if tt != t {
                assert(m.value_of(tt) == m_old.value_of(tt));
            }
        } else {
            assert(tt == t);
        }
    }
}

/// One relaxation step of the search, second half: the newly appended vertex
/// `t` keeps the seed, parenthood and relaxation facts of the traversal
/// intact, and the map stays within the size bound.
#[verifier::rlimit(100)]
proof fn lemma_insert_step_graph(
    g: Graph,
    seeds: Seq<usize>,
    m_old: IdMap,
    m: IdMap,
    q_old: Seq<usize>,
    i: int,
    j: int,
    d: usize,
    v_cur: usize,
    t: usize,
)
    requires
        g.wf(),
        seeds.no_duplicates(),
        m.wf(),
        0 <= i < q_old.len(),
        q_old[i] == v_cur,
        m_old.contains_spec(v_cur),
        m_old.value_of(v_cur) == d,
        d < usize::MAX,
        0 <= j < g.spec_edges(v_cur).len(),
        g.spec_edges(v_cur)[j].target == t,
        !m_old.contains_spec(t),
        m.keys() == q_old.push(t),
        m.contains_spec(t),
        m.value_of(t) == d + 1,
        forall|v: usize| v != t && m_old.contains_spec(v)
            ==> m.contains_spec(v) && m.value_of(v) == m_old.value_of(v),
        forall|v: usize| m.contains_spec(v) && v != t ==> m_old.contains_spec(v),
        forall|s: usize| seeds.contains(s)
            ==> m_old.contains_spec(s) && m_old.value_of(s) == 0,
        forall|v: usize| m_old.contains_spec(v) && m_old.value_of(v) == 0 ==> seeds.contains(v),
        forall|v: usize| m_old.contains_spec(v) && m_old.value_of(v) > 0 ==> exists|u: usize|
            m_old.contains_spec(u) && m_old.value_of(u) + 1 == m_old.value_of(v) && g.has_edge(
                u,
                v,
            ),
        forall|v: usize| m_old.contains_spec(v) ==> seeds.contains(v) || g.is_receiver(v),
    ensures
        forall|s: usize| seeds.contains(s) ==> m.contains_spec(s) && m.value_of(s) == 0,
        forall|v: usize| m.contains_spec(v) && m.value_of(v) == 0 ==> seeds.contains(v),
        forall|v: usize| m.contains_spec(v) && m.value_of(v) > 0 ==> exists|u: usize|
            m.contains_spec(u) && m.value_of(u) + 1 == m.value_of(v) && g.has_edge(u, v),
        forall|v: usize| m.contains_spec(v) ==> seeds.contains(v) || g.is_receiver(v),
        m.entries@.len() <= seeds.len() + g.n_edges,
{
    assert(g.has_edge(v_cur, t));
    assert(m.contains_spec(v_cur) && m.value_of(v_cur) == d);
    assert forall|v: usize| m.contains_spec(v) && m.value_of(v) > 0 implies exists|u: usize|
        m.contains_spec(u) && m.value_of(u) + 1 == m.value_of(v) && g.has_edge(u, v) by {
        if v == t {
            assert(m.contains_spec(v_cur) && m.value_of(v_cur) + 1 == m.value_of(t)
                && g.has_edge(v_cur, t));
        } else {
            let u = choose|u: usize|
                m_old.contains_spec(u) && m_old.value_of(u) + 1 == m_old.value_of(v)
                    && g.has_edge(u, v);
            assert(u != t);
            assert(m.contains_spec(u) && m.value_of(u) + 1 == m.value_of(v) && g.has_edge(u, v));
        }
    }
    assert forall|v: usize| m.contains_spec(v) implies seeds.contains(v) || g.is_receiver(v) by {
        if v == t {
            assert(g.is_receiver(t));
        }
    }
    lemma_map_size_bound(g, seeds, m);
}

/// The four facts the search establishes about its distance map, relative to
/// the seed sequence it started from: seeds lie at distance zero and only
/// they; every other mapped vertex has a mapped in-neighbour one layer up;
/// and the map is closed under edges, which can raise the value by at most
/// one.
pub open spec fn bfs_post(g: Graph, seeds: Seq<usize>, m: IdMap) -> bool {
    &&& forall|s: usize| seeds.contains(s) ==> m.contains_spec(s) && m.value_of(s) == 0
    &&& forall|v: usize| m.contains_spec(v) && m.value_of(v) == 0 ==> seeds.contains(v)
    &&& forall|v: usize| m.contains_spec(v) && m.value_of(v) > 0 ==> exists|u: usize|
            m.contains_spec(u) && m.value_of(u) + 1 == m.value_of(v) && g.has_edge(u, v)
    &&& forall|u: usize, v: usize| m.contains_spec(u) && g.has_edge(u, v)
            ==> m.contains_spec(v) && m.value_of(v) <= m.value_of(u) + 1
}

/// From `bfs_post`, every mapped vertex is reachable within its mapped value.
proof fn lemma_bfs_sound(g: Graph, seeds: Seq<usize>, m: IdMap, v: usize)
    requires
        bfs_post(g, seeds, m),
        m.contains_spec(v),
    ensures
        reaches_in(g, seeds.to_set(), v, m.value_of(v) as nat),
    decreases m.value_of(v),
{
    if m.value_of(v) == 0 {
        assert(seeds.to_set().contains(v));
    } else {
        let u = choose|u: usize|
            m.contains_spec(u) && m.value_of(u) + 1 == m.value_of(v) && g.has_edge(u, v);
        lemma_bfs_sound(g, seeds, m, u);
        assert(reaches_in(g, seeds.to_set(), v, m.value_of(v) as nat));
    }
}

/// From `bfs_post`, every vertex reachable within `n` edges is mapped, at a
/// value of at most `n`.
proof fn lemma_bfs_complete(g: Graph, seeds: Seq<usize>, m: IdMap, v: usize, n: nat)
    requires
        bfs_post(g, seeds, m),
        reaches_in(g, seeds.to_set(), v, n),
    ensures
        m.contains_spec(v),
        m.value_of(v) <= n,
    decreases n,
{
    if n == 0 {
        assert(seeds.contains(v));
    } else if reaches_in(g, seeds.to_set(), v, (n - 1) as nat) {
        lemma_bfs_complete(g, seeds, m, v, (n - 1) as nat);
    } else {
        let u = choose|u: usize|
            reaches_in(g, seeds.to_set(), u, (n - 1) as nat) && g.has_edge(u, v);
        lemma_bfs_complete(g, seeds, m, u, (n - 1) as nat);
    }
}

/// From `bfs_post`, the map is exactly the reachable set, each vertex at its
/// hop distance.
pub proof fn lemma_bfs_exact(g: Graph, seeds: Seq<usize>, m: IdMap)
    requires
        bfs_post(g, seeds, m),
    ensures
        forall|v: usize| m.contains_spec(v) <==> reachable(g, seeds.to_set(), v),
        forall|v: usize| m.contains_spec(v)
            ==> is_dist(g, seeds.to_set(), v, m.value_of(v) as nat),
{
    assert forall|v: usize| m.contains_spec(v) implies reachable(g, seeds.to_set(), v)
        && is_dist(g, seeds.to_set(), v, m.value_of(v) as nat) by {
        lemma_bfs_sound(g, seeds, m, v);
        let d = m.value_of(v);
        if d > 0 && reaches_in(g, seeds.to_set(), v, (d - 1) as nat) {
            lemma_bfs_complete(g, seeds, m, v, (d - 1) as nat);
        }
    }
    assert forall|v: usize| reachable(g, seeds.to_set(), v) implies m.contains_spec(v) by {
        let n = choose|n: nat| reaches_in(g, seeds.to_set(), v, n);
        lemma_bfs_complete(g, seeds, m, v, n);
    }
}

/// Breadth-first search over the directed graph, seeded with every vertex of
/// `seeds` at distance zero.  Returns a map binding each vertex reachable
/// from the seed set to its hop distance; unreachable vertices are absent.
#[verifier::rlimit(100)]
pub fn bfs_from_seeds(g: &Graph, seeds: &Vec<usize>) -> (m: IdMap)
    requires
        g.wf(),
        seeds@.no_duplicates(),
    ensures
        m.wf(),
        bfs_post(*g, seeds@, m),
        forall|v: usize| m.contains_spec(v) <==> reachable(*g, seeds@.to_set(), v),
        forall|v: usize| m.contains_spec(v)
            ==> is_dist(*g, seeds@.to_set(), v, m.value_of(v) as nat),
        forall|v: usize| m.contains_spec(v) ==> seeds@.contains(v) || g.is_receiver(v),
        m.keys().no_duplicates(),
        forall|k: int| 0 <= k < m.entries@.len() ==> m.entries@[k].1 <= k,
        m.entries@.len() <= seeds@.len() + g.n_edges,
    {
        let mut m = IdMap::new();
        let mut q: Vec<usize> = Vec::new();
        let ns = seeds.len();
        for si in 0..ns
            invariant
                ns == seeds@.len(),
                g.wf(),
                seeds@.no_duplicates(),
                m.wf(),
                m.keys() == q@,
                q@ == seeds@.take(si as int),
                forall|k: int| 0 <= k < q@.len()
                    ==> #[trigger] m.value_of(q@[k]) == 0 && m.contains_spec(q@[k]),
        {
            let s = seeds[si];
            proof {
                assert(!q@.contains(s)) by {
                    if q@.contains(s) {
                        let j = choose|j: int| 0 <= j < q@.len() && q@[j] == s;
                        assert(seeds@[j] == seeds@[si as int]);
                    }
                }
                assert(!m.contains_spec(s)) by {
                    if m.contains_spec(s) {
                        let j = m.index_of(s);
                        assert(m.keys()[j] == s);
                    }
                }
            }
            m.insert(s, 0);
            q.push(s);
            proof {
                assert(q@ =~= seeds@.take(si + 1));
                assert forall|k: int| 0 <= k < q@.len()
                    implies #[trigger] m.value_of(q@[k]) == 0 && m.contains_spec(q@[k]) by {
                    if k < q@.len() - 1 {
                        assert(m.contains_spec(q@[k]));
                    }
                }
            }
        }
        proof {
            assert(q@ == seeds@);
            assert forall|s: usize| seeds@.contains(s)
                implies m.contains_spec(s) && m.value_of(s) == 0 by {
                let j = choose|j: int| 0 <= j < seeds@.len() && seeds@[j] == s;
                assert(m.value_of(q@[j]) == 0);
            }
            assert forall|v: usize| m.contains_spec(v) implies seeds@.contains(v) by {
                let j = m.index_of(v);
                assert(m.keys()[j] == v);
                assert(seeds@[j] == v);
            }
            assert forall|k: int| 0 <= k < q@.len() implies #[trigger] m.entries@[k].1 == 0 by {
                m.lemma_index_unique(m.entries@[k].0, k);
                assert(m.value_of(q@[k]) == 0);
            }
            assert forall|v: usize| m.contains_spec(v)
                implies seeds@.contains(v) || g.is_receiver(v) by {
                let j = m.index_of(v);
                assert(m.keys()[j] == v);
                assert(seeds@[j] == v);
            }
            assert forall|idx: int| 0 <= idx < m.keys().len()
                implies seeds@.contains(#[trigger] m.keys()[idx])
                    || g.is_receiver(m.keys()[idx]) by {
                assert(m.entries@[idx].0 == m.keys()[idx]);
                assert(m.contains_spec(m.keys()[idx]));
            }
            lemma_queue_bound(*g, seeds@, m.keys());
        }
        let mut i: usize = 0;
        while i < q.len()
            invariant
                g.wf(),
                m.wf(),
                seeds@.no_duplicates(),
                i <= q@.len(),
                q@.len() <= seeds@.len() + g.n_edges,
                m.keys() == q@,
                // distances are bounded by queue position
                forall|k: int| 0 <= k < q@.len() ==> #[trigger] m.entries@[k].1 <= k,
                // distances are non-decreasing along the queue
                forall|k1: int, k2: int| 0 <= k1 <= k2 < q@.len()
                    ==> m.entries@[k1].1 <= m.entries@[k2].1,
                // the unprocessed tail lies within one layer of the cursor
                i < q@.len() ==> forall|k: int| i <= k < q@.len()
                    ==> #[trigger] m.entries@[k].1 <= m.entries@[i as int].1 + 1,
                // seeds are mapped to zero, and only seeds are
                forall|s: usize| seeds@.contains(s) ==> m.contains_spec(s) && m.value_of(s) == 0,
                forall|v: usize| m.contains_spec(v) && m.value_of(v) == 0 ==> seeds@.contains(v),
                // every positive value has a mapped in-neighbour one layer up
                forall|v: usize| m.contains_spec(v) && m.value_of(v) > 0 ==> exists|u: usize|
                    m.contains_spec(u) && m.value_of(u) + 1 == m.value_of(v) && g.has_edge(u, v),
                // non-seeds in the map are targets of some edge
                forall|v: usize| m.contains_spec(v) ==> seeds@.contains(v) || g.is_receiver(v),
                // edges out of processed vertices have been relaxed
                forall|k: int, v: usize| 0 <= k < i && g.has_edge(q@[k], v)
                    ==> m.contains_spec(v) && m.value_of(v) <= m.value_of(q@[k]) + 1,
            decreases seeds@.len() + g.n_edges - i,
        {
            let v_cur = q[i];
            proof {
                m.lemma_index_unique(v_cur, i as int);
            }
            let d = match m.get(v_cur) {
                Some(d) => d,
                None => 0,
            };
            proof {
                assert(d == m.entries@[i as int].1);
            }
            match g.edges_of(v_cur) {
                Some(es) => {
                    let ne = es.len();
                    for j in 0..ne
                        invariant
                            g.wf(),
                            m.wf(),
                            i < q@.len(),
                            q@.len() <= seeds@.len() + g.n_edges,
                            seeds@.no_duplicates(),
                            ne == es@.len(),
                            es@.map_values(|e: crate::graph::Edge| e@) == g.spec_edges(v_cur),
                            m.keys() == q@,
                            q@[i as int] == v_cur,
                            m.contains_spec(v_cur),
                            m.value_of(v_cur) == d,
                            d == m.entries@[i as int].1,
                            d < usize::MAX,
                            forall|k: int| 0 <= k < q@.len() ==> #[trigger] m.entries@[k].1 <= k,
                            forall|k1: int, k2: int| 0 <= k1 <= k2 < q@.len()
                                ==> m.entries@[k1].1 <= m.entries@[k2].1,
                            forall|k: int| i <= k < q@.len()
                                ==> #[trigger] m.entries@[k].1 <= d + 1,
                            forall|s: usize| seeds@.contains(s)
                                ==> m.contains_spec(s) && m.value_of(s) == 0,
                            forall|v: usize| m.contains_spec(v) && m.value_of(v) == 0
                                ==> seeds@.contains(v),
                            forall|v: usize| m.contains_spec(v) && m.value_of(v) > 0
                                ==> exists|u: usize| m.contains_spec(u)
                                    && m.value_of(u) + 1 == m.value_of(v) && g.has_edge(u, v),
                            forall|v: usize| m.contains_spec(v)
                                ==> seeds@.contains(v) || g.is_receiver(v),
                            forall|k: int, v: usize| 0 <= k < i && g.has_edge(q@[k], v)
                                ==> m.contains_spec(v) && m.value_of(v) <= m.value_of(q@[k]) + 1,
                            // edges of the current vertex relaxed so far
                            forall|jj: int| 0 <= jj < j
                                ==> m.contains_spec(#[trigger] g.spec_edges(v_cur)[jj].target)
                                    && m.value_of(g.spec_edges(v_cur)[jj].target) <= d + 1,
                    {
                        let t = es[j].target;
                        proof {
                            assert(es@.map_values(|e: crate::graph::Edge| e@)[j as int] == es@[j as int]@);
                            assert(g.spec_edges(v_cur)[j as int].target == t);
                            assert(g.has_edge(v_cur, t));
                        }
                        if !m.contains_key(t) {
                            let ghost m_old = m;
                            let ghost q_old = q@;
                            m.insert(t, d + 1);
                            q.push(t);
                            proof {
                                lemma_insert_step_order(
                                    m_old,
                                    m,
                                    q_old,
                                    i as int,
                                    d,
                                    v_cur,
                                    t,
                                );
                                lemma_insert_step_relaxed(
                                    *g,
                                    m_old,
                                    m,
                                    q_old,
                                    i as int,
                                    j as int,
                                    d,
                                    v_cur,
                                    t,
                                );
                                lemma_insert_step_graph(
                                    *g,
                                    seeds@,
                                    m_old,
                                    m,
                                    q_old,
                                    i as int,
                                    j as int,
                                    d,
                                    v_cur,
                                    t,
                                );
                            }
                        } else {
                            proof {
                                assert(m.value_of(t) <= d + 1) by {
                                    let kt = m.index_of(t);
                                    assert(m.keys()[kt] == t);
                                    if kt < i as int {
                                        assert(m.entries@[kt].1 <= m.entries@[i as int].1);
                                    } else {
                                        assert(m.entries@[kt].1 <= d + 1);
                                    }
                                }
                                assert forall|jj: int| 0 <= jj < j + 1
                                    implies m.contains_spec(#[trigger] g.spec_edges(v_cur)[jj].target)
                                        && m.value_of(g.spec_edges(v_cur)[jj].target) <= d + 1 by {}
                            }
                        }
                    }
                    proof {
                        assert forall|k: int, v: usize| 0 <= k < i + 1 && g.has_edge(q@[k], v)
                            implies m.contains_spec(v) && m.value_of(v) <= m.value_of(q@[k]) + 1 by {
                            if k == i as int {
                                let jj = choose|jj: int| 0 <= jj < g.spec_edges(v_cur).len()
                                    && g.spec_edges(v_cur)[jj].target == v;
                                assert(m.contains_spec(g.spec_edges(v_cur)[jj].target));
                                m.lemma_index_unique(v_cur, i as int);
                            }
                        }
                        assert forall|k: int| i + 1 <= k < q@.len() && i + 1 < q@.len()
                            implies #[trigger] m.entries@[k].1 <= m.entries@[i + 1].1 + 1 by {
                            assert(m.entries@[i as int].1 <= m.entries@[i + 1].1);
                            assert(m.entries@[k].1 <= d + 1);
                            assert(d == m.entries@[i as int].1);
                        }
                    }
                },
                None => {
                    proof {
                        assert forall|k: int, v: usize| 0 <= k < i + 1 && g.has_edge(q@[k], v)
                            implies m.contains_spec(v) && m.value_of(v) <= m.value_of(q@[k]) + 1 by {
                            if k == i as int {
                                assert(g.spec_edges(v_cur).len() == 0);
                            }
                        }
                        assert forall|k: int| i + 1 <= k < q@.len() && i + 1 < q@.len()
                            implies #[trigger] m.entries@[k].1 <= m.entries@[i + 1].1 + 1 by {
                            assert(m.entries@[i as int].1 <= m.entries@[i + 1].1);
                            assert(m.entries@[k].1 <= m.entries@[i as int].1 + 1);
                        }
                    }
                },
            }
            i = i + 1;
        }
        proof {
            assert forall|u: usize, v: usize| m.contains_spec(u) && g.has_edge(u, v)
                implies m.contains_spec(v) && m.value_of(v) <= m.value_of(u) + 1 by {
                let k = m.index_of(u);
                assert(m.keys()[k] == u);
                assert(q@[k] == u);
                m.lemma_index_unique(u, k);
            }
            lemma_bfs_exact(*g, seeds@, m);
        }
        m
    }

/// The seed set of a single-rooted search.
pub open spec fn single_seed(v: usize) -> Set<usize> {
    Set::empty().insert(v)
}

/// Breadth-first search from the one root `start`: the result is a vertex at
/// maximal hop distance from `start` together with that distance, which is
/// the eccentricity of `start` over the vertices reachable from it.  A root
/// with no outgoing edges is at distance zero from itself, giving
/// `(start, 0)`.
pub fn higgs_bfs(g: &Graph, start: usize) -> (r: (usize, u32))
    requires
        g.wf(),
        g.n_edges < u32::MAX,
    ensures
        is_dist(*g, single_seed(start), r.0, r.1 as nat),
        is_eccentricity(*g, single_seed(start), r.1 as nat),
{
    let seeds: Vec<usize> = vec![start];
    let m = bfs_from_seeds(g, &seeds);
    proof {
        assert(seeds@.contains(start));
    }
    let mut max_v: usize = start;
    let mut max_d: usize = 0;
    let n = m.len();
    for idx in 0..n
        invariant
            n == m.entries@.len(),
            m.wf(),
            m.contains_spec(max_v),
            m.value_of(max_v) == max_d,
            forall|kk: int| 0 <= kk < idx ==> #[trigger] m.entries@[kk].1 <= max_d,
    {
        if m.entries[idx].1 > max_d {
            max_d = m.entries[idx].1;
            max_v = m.entries[idx].0;
            proof {
                m.lemma_index_unique(max_v, idx as int);
            }
        }
    }
    proof {
        assert(seeds@.to_set() =~= single_seed(start));
        assert(is_dist(*g, single_seed(start), max_v, max_d as nat));
        assert forall|v: usize, d2: nat|
            is_dist(*g, single_seed(start), v, d2) implies d2 <= max_d as nat by {
            assert(reaches_in(*g, seeds@.to_set(), v, d2));
            assert(reachable(*g, seeds@.to_set(), v));
            assert(m.contains_spec(v));
            lemma_dist_unique(*g, seeds@.to_set(), v, d2, m.value_of(v) as nat);
            let kv = m.index_of(v);
            assert(m.entries@[kv].1 <= max_d);
        }
        // the distance fits the 32-bit report: it is bounded by the queue
        // position of its vertex, which the edge count bounds
        let km = m.index_of(max_v);
        assert(m.entries@[km].1 <= km);
        assert(m.entries@.len() <= seeds@.len() + g.n_edges);
    }
    (max_v, max_d as u32)
}

} // verus!
