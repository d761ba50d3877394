use vstd::prelude::*;
use crate::graph::Graph;

verus! {

/// Every out-degree fits the 32-bit counts the ranking reports.
pub open spec fn degrees_fit_u32(g: Graph) -> bool {
    forall|i: int| 0 <= i < g.adj@.len() ==> #[trigger] g.adj@[i].1@.len() <= u32::MAX
}

/// `(v, d)` is a ranked entry of `g`: `v` is a source and `d` its out-degree.
pub open spec fn is_entry(g: Graph, p: (usize, u32)) -> bool {
    g.contains_source(p.0) && p.1 == g.spec_out_degree(p.0)
}

/// `a` ranks strictly before `b`: larger out-degree first, and on equal
/// degrees the smaller vertex id first.
pub open spec fn rank_before(a: (usize, u32), b: (usize, u32)) -> bool {
    a.1 > b.1 || (a.1 == b.1 && a.0 < b.0)
}

/// `a` ranks no later than `b`.
pub open spec fn rank_le(a: (usize, u32), b: (usize, u32)) -> bool {
    rank_before(a, b) || a == b
}

/// What `top_k` promises of its result: as many entries as asked for and
/// available, each a real source with its out-degree, strictly ordered by
/// descending degree with ascending id as tie-break, without repetition, and
/// ranking no later than every source left out.
pub open spec fn top_k_post(g: Graph, k: usize, r: Seq<(usize, u32)>) -> bool {
    &&& r.len() == if k <= g.adj@.len() { k as int } else { g.adj@.len() as int }
    &&& forall|a: int| 0 <= a < r.len() ==> is_entry(g, #[trigger] r[a])
    &&& forall|a: int, b: int| 0 <= a < b < r.len() ==> rank_before(r[a], r[b])
    &&& forall|a: int, b: int| 0 <= a < r.len() && 0 <= b < r.len() && a != b
            ==> (#[trigger] r[a]).0 != (#[trigger] r[b]).0
    &&& forall|s: usize| g.contains_source(s)
            && !(exists|a: int| 0 <= a < r.len() && (#[trigger] r[a]).0 == s)
            ==> forall|a: int| 0 <= a < r.len()
                ==> rank_before(#[trigger] r[a], (s, g.spec_out_degree(s) as u32))
}

/// The source vertex with the most outgoing edges, and that count; the first
/// source encountered wins a tie.  `(0, 0)` when the graph has no source.
pub fn most_tweets(g: &Graph) -> (r: (usize, u32))
    requires
        g.wf(),
        degrees_fit_u32(*g),
    ensures
        g.adj@.len() == 0 ==> r == (0usize, 0u32),
        g.adj@.len() > 0 ==> exists|i: int| 0 <= i < g.adj@.len()
            && g.adj@[i].0 == r.0 && g.spec_out_degree(g.adj@[i].0) == r.1
            && (forall|k: int| 0 <= k < g.adj@.len() ==> #[trigger] g.adj@[k].1@.len() <= r.1)
            && (forall|k: int| 0 <= k < i ==> #[trigger] g.adj@[k].1@.len() < r.1),
{
    let mut max_key: usize = 0;
    let mut max_value: u32 = 0;
    let ghost mut max_idx: int = 0;
    let n = g.adj.len();
    if n == 0 {
        return (0, 0);
    }
    let mut started = false;
    for i in 0..n
        invariant
            n == g.adj@.len(),
            g.wf(),
            degrees_fit_u32(*g),
            !started ==> i == 0,
            started ==> 0 <= max_idx < i as int
                && g.adj@[max_idx].0 == max_key
                && g.spec_out_degree(max_key) == max_value
                && (forall|k: int| 0 <= k < i ==> #[trigger] g.adj@[k].1@.len() <= max_value)
                && (forall|k: int| 0 <= k < max_idx ==> #[trigger] g.adj@[k].1@.len() < max_value),
    {
        let deg_usize = g.adj[i].1.len();
        let deg = deg_usize as u32;
        proof {
            g.lemma_index_unique(g.adj@[i as int].0, i as int);
        }
        if !started || deg > max_value {
            max_key = g.adj[i].0;
            max_value = deg;
            proof {
                max_idx = i as int;
            }
            started = true;
        }
    }
    (max_key, max_value)
}

/// If `a` does not rank before `b` and they differ in id, then `b` ranks
/// before `a`: the ranking order is total.
proof fn lemma_rank_total(a: (usize, u32), b: (usize, u32))
    requires
        !rank_before(a, b),
        a.0 != b.0,
    ensures
        rank_before(b, a),
{
}

/// The `k` best-ranked source vertices with their out-degrees, by descending
/// out-degree and ascending id on ties; all sources when fewer than `k`
/// exist.  Sources with no outgoing edges never occur in the graph and are
/// therefore not ranked.
pub fn top_k(g: &Graph, k: usize) -> (r: Vec<(usize, u32)>)
    requires
        g.wf(),
        degrees_fit_u32(*g),
    ensures
        top_k_post(*g, k, r@),
{
    let mut src: Vec<(usize, u32)> = Vec::new();
    let n = g.adj.len();
    for i in 0..n
        invariant
            n == g.adj@.len(),
            g.wf(),
            degrees_fit_u32(*g),
            src@.len() == i,
            forall|p: int| 0 <= p < i ==> #[trigger] src@[p] == (g.adj@[p].0, g.adj@[p].1@.len() as u32),
            forall|p: int| 0 <= p < i ==> is_entry(*g, #[trigger] src@[p]),
    {
        let deg = g.adj[i].1.len() as u32;
        proof {
            g.lemma_index_unique(g.adj@[i as int].0, i as int);
        }
        src.push((g.adj[i].0, deg));
    }
    proof {
        assert forall|p: int, p2: int|
            0 <= p < src@.len() && 0 <= p2 < src@.len() && p != p2
            implies (#[trigger] src@[p]).0 != (#[trigger] src@[p2]).0 by {
            assert(g.sources()[p] == src@[p].0);
            assert(g.sources()[p2] == src@[p2].0);
        }
        assert forall|s: usize| g.contains_source(s)
            implies exists|p: int| 0 <= p < src@.len() && (#[trigger] src@[p]).0 == s by {
            let i = g.index_of(s);
            assert(src@[i].0 == s);
        }
    }
    let mut out: Vec<(usize, u32)> = Vec::new();
    while out.len() < k && src.len() > 0
        invariant
            g.wf(),
            out@.len() + src@.len() == g.adj@.len(),
            out@.len() <= k,
            forall|p: int| 0 <= p < src@.len() ==> is_entry(*g, #[trigger] src@[p]),
            forall|a: int| 0 <= a < out@.len() ==> is_entry(*g, #[trigger] out@[a]),
            // ids pairwise distinct across out and src
            forall|p: int, p2: int|
                0 <= p < src@.len() && 0 <= p2 < src@.len() && p != p2
                ==> (#[trigger] src@[p]).0 != (#[trigger] src@[p2]).0,
            forall|a: int, b: int|
                0 <= a < out@.len() && 0 <= b < out@.len() && a != b
                ==> (#[trigger] out@[a]).0 != (#[trigger] out@[b]).0,
            forall|a: int, p: int|
                0 <= a < out@.len() && 0 <= p < src@.len()
                ==> (#[trigger] out@[a]).0 != (#[trigger] src@[p]).0,
            // every source is represented in out or in src
            forall|s: usize| g.contains_source(s)
                ==> (exists|a: int| 0 <= a < out@.len() && (#[trigger] out@[a]).0 == s)
                    || (exists|p: int| 0 <= p < src@.len() && (#[trigger] src@[p]).0 == s),
            // out is strictly sorted and ranks no later than everything in src
            forall|a: int, b: int| 0 <= a < b < out@.len() ==> rank_before(out@[a], out@[b]),
            forall|a: int, p: int|
                0 <= a < out@.len() && 0 <= p < src@.len()
                ==> rank_before(#[trigger] out@[a], #[trigger] src@[p]),
        decreases src@.len(),
    {
        let mut best: usize = 0;
        let m = src.len();
        for p in 1..m
            invariant
                m == src@.len(),
                m > 0,
                best < p,
                forall|p2: int| 0 <= p2 < p ==> rank_le(src@[best as int], #[trigger] src@[p2]),
        {
            if src[p].1 > src[best].1 || (src[p].1 == src[best].1 && src[p].0 < src[best].0) {
                best = p;
            }
        }
        let ghost src_pre = src@;
        let ghost out_pre = out@;
        let chosen = src.remove(best);
        proof {
            assert(src@ == src_pre.remove(best as int));
            assert forall|p: int| 0 <= p < src@.len()
                implies #[trigger] src@[p] == (if p < best as int {
                    src_pre[p]
                } else {
                    src_pre[p + 1]
                }) by {}
            assert forall|p: int| 0 <= p < src@.len()
                implies rank_before(chosen, #[trigger] src@[p]) && chosen.0 != src@[p].0 by {
                let po: int = if p < best as int { p } else { p + 1 };
                assert(src@[p] == src_pre[po]);
                assert(rank_le(chosen, src_pre[po]));
                lemma_rank_total(src@[p], chosen);
            }
        }
        out.push(chosen);
        proof {
            assert forall|s: usize| g.contains_source(s)
                implies (exists|a: int| 0 <= a < out@.len() && (#[trigger] out@[a]).0 == s)
                    || (exists|p: int| 0 <= p < src@.len() && (#[trigger] src@[p]).0 == s) by {
                if exists|a: int| 0 <= a < out_pre.len() && (#[trigger] out_pre[a]).0 == s {
                    let a = choose|a: int| 0 <= a < out_pre.len() && (#[trigger] out_pre[a]).0 == s;
                    assert(out@[a].0 == s);
                } else {
                    let p = choose|p: int| 0 <= p < src_pre.len() && (#[trigger] src_pre[p]).0 == s;
                    if p == best as int {
                        assert(out@[out@.len() - 1].0 == s);
                    } else if p < best as int {
                        assert(src@[p] == src_pre[p]);
                    } else {
                        assert(src@[p - 1] == src_pre[p]);
                    }
                }
            }
        }
    }
    proof {
        if out@.len() < k {
            assert(src@.len() == 0);
        }
        assert forall|s: usize| g.contains_source(s)
            && !(exists|a: int| 0 <= a < out@.len() && (#[trigger] out@[a]).0 == s)
            implies forall|a: int| 0 <= a < out@.len()
                ==> rank_before(#[trigger] out@[a], (s, g.spec_out_degree(s) as u32)) by {
            let p = choose|p: int| 0 <= p < src@.len() && (#[trigger] src@[p]).0 == s;
            assert(is_entry(*g, src@[p]));
            assert(src@[p] == (s, g.spec_out_degree(s) as u32));
        }
    }
    out
}

/// Two rankings that both meet the `top_k` contract agree at any position
/// whose earlier positions already agree.
proof fn lemma_top_k_pos_unique(g: Graph, k: usize, r1: Seq<(usize, u32)>, r2: Seq<(usize, u32)>, a: int)
    requires
        top_k_post(g, k, r1),
        top_k_post(g, k, r2),
        0 <= a < r1.len(),
        forall|b: int| 0 <= b < a ==> r1[b] == r2[b],
    ensures
        r1[a] == r2[a],
{
    let e1 = r1[a];
    let e2 = r2[a];
    if e1 != e2 {
        assert(is_entry(g, e1) && is_entry(g, e2));
        assert(e1.0 != e2.0) by {
            if e1.0 == e2.0 {
                assert(e1.1 == g.spec_out_degree(e1.0) && e2.1 == g.spec_out_degree(e2.0));
            }
        }
        if rank_before(e1, e2) {
            assert(!(exists|b: int| 0 <= b < r2.len() && (#[trigger] r2[b]).0 == e1.0)) by {
                if exists|b: int| 0 <= b < r2.len() && (#[trigger] r2[b]).0 == e1.0 {
                    let b = choose|b: int| 0 <= b < r2.len() && (#[trigger] r2[b]).0 == e1.0;
                    assert(r2[b] == (e1.0, g.spec_out_degree(e1.0) as u32));
                    assert(r2[b] == e1);
                    if b < a {
                        assert(r1[b] == e1);
                        assert(r1[b].0 != r1[a].0);
                    } else if b > a {
                        assert(rank_before(r2[a], r2[b]));
                    }
                }
            }
            assert(rank_before(r2[a], (e1.0, g.spec_out_degree(e1.0) as u32)));
            assert(rank_before(e2, e1));
        } else {
            lemma_rank_total(e1, e2);
            assert(!(exists|b: int| 0 <= b < r1.len() && (#[trigger] r1[b]).0 == e2.0)) by {
                if exists|b: int| 0 <= b < r1.len() && (#[trigger] r1[b]).0 == e2.0 {
                    let b = choose|b: int| 0 <= b < r1.len() && (#[trigger] r1[b]).0 == e2.0;
                    assert(r1[b] == (e2.0, g.spec_out_degree(e2.0) as u32));
                    assert(r1[b] == e2);
                    if b < a {
                        assert(r2[b] == e2);
                        assert(r2[b].0 != r2[a].0);
                    } else if b > a {
                        assert(rank_before(r1[a], r1[b]));
                    }
                }
            }
            assert(rank_before(r1[a], (e2.0, g.spec_out_degree(e2.0) as u32)));
            assert(rank_before(e1, e2));
        }
    }
}

proof fn lemma_top_k_prefix_unique(
    g: Graph,
    k: usize,
    r1: Seq<(usize, u32)>,
    r2: Seq<(usize, u32)>,
    a: int,
)
    requires
        top_k_post(g, k, r1),
        top_k_post(g, k, r2),
        0 <= a <= r1.len(),
    ensures
        forall|b: int| 0 <= b < a ==> r1[b] == r2[b],
    decreases a,
{
    if a > 0 {
        lemma_top_k_prefix_unique(g, k, r1, r2, a - 1);
        lemma_top_k_pos_unique(g, k, r1, r2, a - 1);
    }
}

/// Ranking is deterministic: the `top_k` contract — descending out-degree
/// with ascending vertex id breaking ties — admits exactly one sequence, so
/// two runs over the same graph return the same ranking.
pub proof fn lemma_top_k_deterministic(
    g: Graph,
    k: usize,
    r1: Seq<(usize, u32)>,
    r2: Seq<(usize, u32)>,
)
    requires
        top_k_post(g, k, r1),
        top_k_post(g, k, r2),
    ensures
        r1 == r2,
{
    lemma_top_k_prefix_unique(g, k, r1, r2, r1.len() as int);
    assert(r1 =~= r2);
}

/// The ten best-ranked source vertices, by descending out-degree and
/// ascending id on ties.
pub fn top_ten_influencers(g: &Graph) -> (r: Vec<(usize, u32)>)
    requires
        g.wf(),
        degrees_fit_u32(*g),
    ensures
        top_k_post(*g, 10, r@),
{
    top_k(g, 10)
}

} // verus!
