use vstd::prelude::*;

verus! {

/// A single directed interaction: the target vertex, the time of the
/// interaction in Unix epoch seconds, and its kind tag (`MT`, `RT`, `RE`, or
/// any other token, kept verbatim).
pub struct Edge {
    pub target: usize,
    pub timestamp: u64,
    pub kind: String,
}

/// The mathematical value of an `Edge`: the kind tag is a character sequence.
pub ghost struct EdgeM {
    pub target: usize,
    pub timestamp: u64,
    pub kind: Seq<char>,
}

impl View for Edge {
    type V = EdgeM;

    open spec fn view(&self) -> EdgeM {
        EdgeM { target: self.target, timestamp: self.timestamp, kind: self.kind@ }
    }
}

impl Edge {
    pub fn new(target: usize, timestamp: u64, kind: String) -> (r: Edge)
        ensures
            r@ == (EdgeM { target, timestamp, kind: kind@ }),
    {
        Edge { target, timestamp, kind }
    }
}

/// The number of edges held in a sequence of adjacency entries.
pub open spec fn sum_edge_lens(s: Seq<(usize, Vec<Edge>)>) -> nat
    decreases s.len(),
{
    if s.len() == 0 {
        0
    } else {
        sum_edge_lens(s.drop_last()) + s.last().1@.len()
    }
}

/// The interaction graph: for each source vertex, the edges that originate at
/// it, in input order.  Entries are kept in first-appearance order of their
/// source; `n_edges` counts every stored edge.  Vertices that never act as a
/// source have no entry.
pub struct Graph {
    pub adj: Vec<(usize, Vec<Edge>)>,
    pub n_edges: usize,
}

impl Graph {
    /// The source vertices, in first-appearance order.
    pub open spec fn sources(self) -> Seq<usize> {
        self.adj@.map_values(|p: (usize, Vec<Edge>)| p.0)
    }

    /// Well-formed: each source has exactly one entry, and `n_edges` is the
    /// total number of stored edges.
    pub open spec fn wf(self) -> bool {
        &&& self.sources().no_duplicates()
        &&& self.n_edges == sum_edge_lens(self.adj@)
    }

    pub open spec fn contains_source(self, s: usize) -> bool {
        exists|i: int| 0 <= i < self.adj@.len() && self.adj@[i].0 == s
    }

    /// The index of the adjacency entry of `s` (meaningful when
    /// `contains_source(s)`; unique when `wf()`).
    pub open spec fn index_of(self, s: usize) -> int {
        choose|i: int| 0 <= i < self.adj@.len() && self.adj@[i].0 == s
    }

    /// The edges of entry `i`, as mathematical values.
    pub open spec fn entry_edges(self, i: int) -> Seq<EdgeM> {
        self.adj@[i].1@.map_values(|e: Edge| e@)
    }

    /// The adjacency of `s`: its outgoing edges in input order, empty when `s`
    /// has no entry.
    pub open spec fn spec_edges(self, s: usize) -> Seq<EdgeM> {
        if self.contains_source(s) {
            self.entry_edges(self.index_of(s))
        } else {
            Seq::empty()
        }
    }

    /// The out-degree of `s`: the number of edges whose source is `s`.
    pub open spec fn spec_out_degree(self, s: usize) -> nat {
        self.spec_edges(s).len()
    }

    /// There is an edge from `u` to `v`.
    pub open spec fn has_edge(self, u: usize, v: usize) -> bool {
        exists|j: int| 0 <= j < self.spec_edges(u).len() && self.spec_edges(u)[j].target == v
    }

    /// `v` appears as the target of at least one edge.
    pub open spec fn is_receiver(self, v: usize) -> bool {
        exists|u: usize| self.has_edge(u, v)
    }

    /// `v` is a root: it sources at least one edge and is never a target.
    pub open spec fn is_root(self, v: usize) -> bool {
        self.contains_source(v) && !self.is_receiver(v)
    }

    /// With distinct sources, any index holding `s` is `index_of(s)`.
    pub proof fn lemma_index_unique(self, s: usize, i: int)
        requires
            self.sources().no_duplicates(),
            0 <= i < self.adj@.len(),
            self.adj@[i].0 == s,
        ensures
            self.contains_source(s),
            self.index_of(s) == i,
            self.spec_edges(s) == self.entry_edges(i),
    {
        let j = self.index_of(s);
        assert(self.sources()[i] == s);
        if j != i {
            assert(self.sources()[j] == s);
        }
    }

    pub fn new() -> (r: Graph)
        ensures
            r.wf(),
            r.adj@.len() == 0,
            r.n_edges == 0,
            forall|s: usize| !r.contains_source(s),
            forall|s: usize| r.spec_edges(s) == Seq::<EdgeM>::empty(),
    {
        Graph { adj: Vec::new(), n_edges: 0 }
    }

    pub fn num_edges(&self) -> (r: usize)
        ensures
            r == self.n_edges,
    {
        self.n_edges
    }

    /// The position of the adjacency entry of `s`, if `s` is a source.
    fn find_entry(&self, s: usize) -> (r: Option<usize>)
        requires
            self.wf(),
        ensures
            match r {
                Some(i) => i < self.adj@.len() && self.adj@[i as int].0 == s
                    && self.contains_source(s) && self.index_of(s) == i,
                None => !self.contains_source(s),
            },
    {
        let n = self.adj.len();
        for i in 0..n
            invariant
                n == self.adj@.len(),
                self.wf(),
                forall|j: int| 0 <= j < i ==> self.adj@[j].0 != s,
        {
            if self.adj[i].0 == s {
                proof {
                    self.lemma_index_unique(s, i as int);
                }
                return Some(i);
            }
        }
        None
    }

    /// The outgoing adjacency list of `s`, if `s` is a source.
    pub fn edges_of(&self, s: usize) -> (r: Option<&Vec<Edge>>)
        requires
            self.wf(),
        ensures
            match r {
                Some(es) => self.contains_source(s)
                    && es@.map_values(|e: Edge| e@) == self.spec_edges(s),
                None => !self.contains_source(s) && self.spec_edges(s) == Seq::<EdgeM>::empty(),
            },
    {
        match self.find_entry(s) {
            Some(i) => Some(&self.adj[i].1),
            None => None,
        }
    }

    /// The out-degree of `s`; zero when `s` has no entry.
    pub fn out_degree(&self, s: usize) -> (r: usize)
        requires
            self.wf(),
        ensures
            r == self.spec_out_degree(s),
    {
        match self.edges_of(s) {
            Some(es) => es.len(),
            None => 0,
        }
    }

    /// Append one edge to the adjacency of `source`, creating the entry if
    /// `source` is new.  Input order inside the adjacency list is preserved.
    pub fn add_edge(&mut self, source: usize, e: Edge)
        requires
            old(self).wf(),
            old(self).n_edges < usize::MAX,
        ensures
            final(self).wf(),
            final(self).n_edges == old(self).n_edges + 1,
            final(self).contains_source(source),
            final(self).spec_edges(source) == old(self).spec_edges(source).push(e@),
            forall|s2: usize| s2 != source
                ==> final(self).contains_source(s2) == old(self).contains_source(s2),
            forall|s2: usize| s2 != source
                ==> final(self).spec_edges(s2) == old(self).spec_edges(s2),
            old(self).contains_source(source) ==> final(self).sources() == old(self).sources(),
            !old(self).contains_source(source)
                ==> final(self).sources() == old(self).sources().push(source),
    {
        let ghost old_self = *self;
        match self.find_entry(source) {
            Some(i) => {
                self.adj[i].1.push(e);
                self.n_edges = self.n_edges + 1;
                proof {
                    assert(self.adj@ =~= old_self.adj@.update(
                        i as int,
                        (source, self.adj@[i as int].1),
                    ));
                    lemma_sum_edge_lens_update(old_self.adj@, i as int, self.adj@[i as int]);
                    assert(self.sources() =~= old_self.sources());
                    self.lemma_index_unique(source, i as int);
                    assert(self.spec_edges(source) =~= old_self.spec_edges(source).push(e@));
                    assert forall|s2: usize| s2 != source implies
                        self.contains_source(s2) == old_self.contains_source(s2)
                        && self.spec_edges(s2) == old_self.spec_edges(s2) by {
                        if old_self.contains_source(s2) {
                            let j = old_self.index_of(s2);
                            assert(self.adj@[j].0 == s2);
                            self.lemma_index_unique(s2, j);
                            assert(self.spec_edges(s2) =~= old_self.spec_edges(s2));
                        } else if self.contains_source(s2) {
                            let j = self.index_of(s2);
                            assert(old_self.adj@[j].0 == s2);
                        }
                    }
                }
            },
            None => {
                let mut es: Vec<Edge> = Vec::new();
                es.push(e);
                self.adj.push((source, es));
                self.n_edges = self.n_edges + 1;
                proof {
                    let n = old_self.adj@.len();
                    assert(self.adj@.drop_last() =~= old_self.adj@);
                    assert(self.sources() =~= old_self.sources().push(source));
                    self.lemma_index_unique(source, n as int);
                    assert(self.entry_edges(n as int) =~= Seq::<EdgeM>::empty().push(e@));
                    assert(old_self.spec_edges(source) == Seq::<EdgeM>::empty());
                    assert forall|s2: usize| s2 != source implies
                        self.contains_source(s2) == old_self.contains_source(s2)
                        && self.spec_edges(s2) == old_self.spec_edges(s2) by {
                        if old_self.contains_source(s2) {
                            let j = old_self.index_of(s2);
                            assert(self.adj@[j].0 == s2);
                            self.lemma_index_unique(s2, j);
                            assert(self.spec_edges(s2) =~= old_self.spec_edges(s2));
                        } else if self.contains_source(s2) {
                            let j = self.index_of(s2);
                            assert(j < n);
                            assert(old_self.adj@[j].0 == s2);
                        }
                    }
                }
            },
        }
    }
}

/// Position `(i, j)` names edge `j` of adjacency entry `i`.
pub open spec fn valid_pos(g: Graph, i: int, j: int) -> bool {
    0 <= i < g.adj@.len() && 0 <= j < g.entry_edges(i).len()
}

/// The edge at position `(i, j)`.
pub open spec fn edge_at(g: Graph, i: int, j: int) -> EdgeM {
    g.entry_edges(i)[j]
}

/// The targets of every edge of every adjacency entry, one per stored edge.
pub open spec fn all_targets(s: Seq<(usize, Vec<Edge>)>) -> Seq<usize>
    decreases s.len(),
{
    if s.len() == 0 {
        Seq::empty()
    } else {
        all_targets(s.drop_last()) + s.last().1@.map_values(|e: Edge| e.target)
    }
}

pub proof fn lemma_all_targets_len(s: Seq<(usize, Vec<Edge>)>)
    ensures
        all_targets(s).len() == sum_edge_lens(s),
    decreases s.len(),
{
    if s.len() > 0 {
        lemma_all_targets_len(s.drop_last());
    }
}

pub proof fn lemma_all_targets_contains(s: Seq<(usize, Vec<Edge>)>, i: int, j: int)
    requires
        0 <= i < s.len(),
        0 <= j < s[i].1@.len(),
    ensures
        all_targets(s).contains(s[i].1@[j].target),
    decreases s.len(),
{
    if i == s.len() - 1 {
        let mapped = s.last().1@.map_values(|e: Edge| e.target);
        assert(mapped[j] == s[i].1@[j].target);
        assert(all_targets(s)[all_targets(s.drop_last()).len() + j] == mapped[j]);
    } else {
        lemma_all_targets_contains(s.drop_last(), i, j);
        let tgt = s[i].1@[j].target;
        let k = choose|k: int|
            0 <= k < all_targets(s.drop_last()).len() && all_targets(s.drop_last())[k] == tgt;
        assert(all_targets(s)[k] == s[i].1@[j].target);
    }
}

impl Graph {
    /// Every receiver occurs among the stored targets.
    pub proof fn lemma_receiver_in_targets(self, v: usize)
        requires
            self.wf(),
            self.is_receiver(v),
        ensures
            all_targets(self.adj@).contains(v),
    {
        let u = choose|u: usize| self.has_edge(u, v);
        let j = choose|j: int|
            0 <= j < self.spec_edges(u).len() && self.spec_edges(u)[j].target == v;
        assert(self.contains_source(u)) by {
            if !self.contains_source(u) {
                assert(self.spec_edges(u) == Seq::<EdgeM>::empty());
            }
        }
        let i = self.index_of(u);
        assert(self.spec_edges(u) == self.entry_edges(i));
        assert(self.adj@[i].1@.map_values(|e: Edge| e@)[j].target == v);
        assert(self.adj@[i].1@[j]@.target == v);
        lemma_all_targets_contains(self.adj@, i, j);
    }
}

/// Replacing entry `i` changes the edge total by the change at that entry.
pub proof fn lemma_sum_edge_lens_update(s: Seq<(usize, Vec<Edge>)>, i: int, p: (usize, Vec<Edge>))
    requires
        0 <= i < s.len(),
    ensures
        sum_edge_lens(s.update(i, p)) + s[i].1@.len() == sum_edge_lens(s) + p.1@.len(),
    decreases s.len(),
{
    let t = s.update(i, p);
    if i == s.len() - 1 {
        assert(t.drop_last() =~= s.drop_last());
    } else {
        assert(t.drop_last() =~= s.drop_last().update(i, p));
        lemma_sum_edge_lens_update(s.drop_last(), i, p);
    }
}

} // verus!
