//! Graphs made from other graphs: with every edge doubled in the other direction, restricted to
//! some of the nodes, or restricted to some of the edges.

use vstd::prelude::*;

use crate::graph::{valid_graph, Graph};

verus! {

/// The entries of `s` whose flag in `mask` is set, in order.
pub open spec fn masked(s: Seq<usize>, mask: Seq<bool>) -> Seq<usize>
    decreases s.len(),
{
    if s.len() == 0 {
        Seq::empty()
    } else {
        let r = masked(s.drop_last(), mask);
        if mask[s.len() - 1] {
            r.push(s.last())
        } else {
            r
        }
    }
}

/// The entries `v` of `s` that `keep` keeps, each replaced by `index[v]`, in order.
pub open spec fn renumbered(s: Seq<usize>, keep: Seq<bool>, index: Seq<usize>) -> Seq<usize>
    decreases s.len(),
{
    if s.len() == 0 {
        Seq::empty()
    } else {
        let r = renumbered(s.drop_last(), keep, index);
        if keep[s.last() as int] {
            r.push(index[s.last() as int])
        } else {
            r
        }
    }
}

/// Every entry of `renumbered(s, keep, index)` is `index[v]` for some kept entry `v` of `s`.
proof fn lemma_renumbered_from(s: Seq<usize>, keep: Seq<bool>, index: Seq<usize>, k: int)
    requires
        0 <= k < renumbered(s, keep, index).len(),
    ensures
        exists|i: int| 0 <= i < s.len() && keep[s[i] as int] && #[trigger] index[s[i] as int] == renumbered(s, keep, index)[k],
    decreases s.len(),
{
    let r = renumbered(s.drop_last(), keep, index);
    if k < r.len() {
        lemma_renumbered_from(s.drop_last(), keep, index, k);
        let i = choose|i: int| 0 <= i < s.drop_last().len() && keep[s.drop_last()[i] as int]
            && #[trigger] index[s.drop_last()[i] as int] == r[k];
        assert(s[i] == s.drop_last()[i]);
    } else {
        assert(index[s[s.len() - 1] as int] == renumbered(s, keep, index)[k]);
    }
}

/// The graph with an edge in each direction for every edge of `graph`: the out-edges and the
/// in-edges of a node are both its out-edges followed by its in-edges in `graph`.
pub struct Doubled<'a, G: Graph> {
    graph: &'a G,
}

impl<'a, G: Graph> Doubled<'a, G> {
    /// The graph whose edges are doubled.
    pub closed spec fn spec_graph(&self) -> &'a G {
        self.graph
    }

    /// Doubles the edges of `graph`.
    pub fn new(graph: &'a G) -> (r: Doubled<'a, G>)
        ensures
            r.spec_graph() == graph,
    {
        Doubled { graph }
    }
}

impl<'a, G: Graph> Graph for Doubled<'a, G> {
    open spec fn spec_num_nodes(&self) -> nat {
        self.spec_graph().spec_num_nodes()
    }

    open spec fn spec_out(&self, u: int) -> Seq<usize> {
        self.spec_graph().spec_out(u) + self.spec_graph().spec_in(u)
    }

    open spec fn spec_in(&self, u: int) -> Seq<usize> {
        self.spec_graph().spec_out(u) + self.spec_graph().spec_in(u)
    }

    fn num_nodes(&self) -> (r: usize) {
        self.graph.num_nodes()
    }

    fn out_edges(&self, u: usize) -> (r: Vec<usize>) {
        let mut r = self.graph.out_edges(u);
        let mut i = self.graph.in_edges(u);
        r.append(&mut i);
        r
    }

    fn in_edges(&self, u: usize) -> (r: Vec<usize>) {
        self.out_edges(u)
    }
}

/// Doubling the edges of a graph keeps them pointing to nodes.
pub proof fn lemma_doubled_valid<G: Graph>(d: &Doubled<G>)
    requires
        valid_graph(d.spec_graph()),
    ensures
        valid_graph(d),
{
    let g = d.spec_graph();
    assert forall|u: int, k: int| 0 <= u < d.spec_num_nodes() && 0 <= k < d.spec_out(u).len() implies
        #[trigger] d.spec_out(u)[k] < d.spec_num_nodes() by {
        if k < g.spec_out(u).len() {
            assert(d.spec_out(u)[k] == g.spec_out(u)[k]);
        } else {
            assert(d.spec_out(u)[k] == g.spec_in(u)[k - g.spec_out(u).len()]);
        }
    }
    assert forall|u: int, k: int| 0 <= u < d.spec_num_nodes() && 0 <= k < d.spec_in(u).len() implies
        #[trigger] d.spec_in(u)[k] < d.spec_num_nodes() by {
        if k < g.spec_out(u).len() {
            assert(d.spec_in(u)[k] == g.spec_out(u)[k]);
        } else {
            assert(d.spec_in(u)[k] == g.spec_in(u)[k - g.spec_out(u).len()]);
        }
    }
}

/// The subgraph of `graph` induced by the nodes that `keep` keeps. Its nodes are numbered
/// anew: node `i` of the subgraph is the `i`-th kept node of `graph`.
pub struct NodeFiltered<'a, G: Graph> {
    graph: &'a G,
    keep: Vec<bool>,
    kept: Vec<usize>,
    index: Vec<usize>,
}

impl<'a, G: Graph> NodeFiltered<'a, G> {
    /// The graph that is filtered.
    pub closed spec fn spec_graph(&self) -> &'a G {
        self.graph
    }

    /// Which nodes of the graph are kept.
    pub closed spec fn spec_keep(&self) -> Seq<bool> {
        self.keep@
    }

    /// The kept nodes, in increasing order: node `i` of the subgraph is `spec_kept()[i]`.
    pub closed spec fn spec_kept(&self) -> Seq<usize> {
        self.kept@
    }

    /// The number in the subgraph of each kept node of the graph.
    pub closed spec fn spec_index(&self) -> Seq<usize> {
        self.index@
    }

    #[verifier::type_invariant]
    closed spec fn inv(&self) -> bool {
        let n = self.graph.spec_num_nodes();
        &&& valid_graph(self.graph)
        &&& self.keep@.len() == n
        &&& self.index@.len() == n
        &&& forall|i: int| 0 <= i < self.kept@.len() ==> #[trigger] self.kept@[i] < n && self.keep@[self.kept@[i] as int]
            && self.index@[self.kept@[i] as int] == i
        &&& forall|i: int, j: int| 0 <= i < j < self.kept@.len() ==> self.kept@[i] < self.kept@[j]
        &&& forall|u: int| 0 <= u < n && #[trigger] self.keep@[u] ==> self.index@[u] < self.kept@.len()
            && self.kept@[self.index@[u] as int] == u
    }

    /// The subgraph of `graph` induced by the nodes `u` for which `keep[u]` holds.
    pub fn new(graph: &'a G, keep: Vec<bool>) -> (r: NodeFiltered<'a, G>)
        requires
            valid_graph(graph),
            keep@.len() == graph.spec_num_nodes(),
        ensures
            r.spec_graph() == graph,
            r.spec_keep() == keep@,
            valid_graph(&r),
            forall|u: int| 0 <= u < keep@.len() ==> (#[trigger] keep@[u] <==> r.spec_kept().contains(u as usize)),
            forall|i: int, j: int| 0 <= i < j < r.spec_kept().len() ==> r.spec_kept()[i] < r.spec_kept()[j],
    {
        let n = graph.num_nodes();
        let mut kept: Vec<usize> = Vec::new();
        let mut index: Vec<usize> = Vec::new();
        let mut u: usize = 0;
        while u < n
            invariant
                n == graph.spec_num_nodes(),
                keep@.len() == n,
                u <= n,
                index@.len() == u,
                forall|i: int| 0 <= i < kept@.len() ==> #[trigger] kept@[i] < u && keep@[kept@[i] as int]
                    && index@[kept@[i] as int] == i,
                forall|i: int, j: int| 0 <= i < j < kept@.len() ==> kept@[i] < kept@[j],
                forall|x: int| 0 <= x < u && #[trigger] keep@[x] ==> index@[x] < kept@.len() && kept@[index@[x] as int] == x,
            decreases n - u,
        {
            if keep[u] {
                index.push(kept.len());
                kept.push(u);
            } else {
                index.push(0);
            }
            u = u + 1;
        }
        let r = NodeFiltered { graph, keep, kept, index };
        proof {
            assert forall|x: int| 0 <= x < r.keep@.len() implies (#[trigger] r.keep@[x] <==> r.kept@.contains(x as usize)) by {
                if r.keep@[x] {
                    assert(r.kept@[r.index@[x] as int] == x);
                }
            }
            assert(r.inv());
            r.lemma_valid();
        }
        r
    }

    /// The entries `v` of `s` that are kept, each replaced by its number in the subgraph.
    fn renumber(&self, s: Vec<usize>) -> (r: Vec<usize>)
        requires
            forall|k: int| 0 <= k < s@.len() ==> #[trigger] s@[k] < self.spec_keep().len(),
        ensures
            r@ == renumbered(s@, self.spec_keep(), self.spec_index()),
    {
        proof {
            use_type_invariant(self);
        }
        let mut r: Vec<usize> = Vec::new();
        let mut k: usize = 0;
        while k < s.len()
            invariant
                forall|k2: int| 0 <= k2 < s@.len() ==> #[trigger] s@[k2] < self.keep@.len(),
                self.keep@.len() == self.index@.len(),
                k <= s@.len(),
                r@ == renumbered(s@.take(k as int), self.keep@, self.index@),
            decreases s@.len() - k,
        {
            let v = s[k];
            proof {
                assert(s@.take(k + 1).drop_last() =~= s@.take(k as int));
                assert(s@.take(k + 1).last() == v);
            }
            if self.keep[v] {
                r.push(self.index[v]);
            }
            k = k + 1;
        }
        proof {
            assert(s@.take(s@.len() as int) =~= s@);
        }
        r
    }
}

impl<'a, G: Graph> Graph for NodeFiltered<'a, G> {
    open spec fn spec_num_nodes(&self) -> nat {
        self.spec_kept().len()
    }

    open spec fn spec_out(&self, u: int) -> Seq<usize> {
        renumbered(self.spec_graph().spec_out(self.spec_kept()[u] as int), self.spec_keep(), self.spec_index())
    }

    open spec fn spec_in(&self, u: int) -> Seq<usize> {
        renumbered(self.spec_graph().spec_in(self.spec_kept()[u] as int), self.spec_keep(), self.spec_index())
    }

    fn num_nodes(&self) -> (r: usize) {
        self.kept.len()
    }

    fn out_edges(&self, u: usize) -> (r: Vec<usize>) {
        proof {
            use_type_invariant(self);
        }
        let w = self.kept[u];
        let s = self.graph.out_edges(w);
        proof {
            assert forall|k: int| 0 <= k < s@.len() implies #[trigger] s@[k] < self.keep@.len() by {
                assert(self.graph.spec_out(w as int)[k] < self.graph.spec_num_nodes());
            }
        }
        self.renumber(s)
    }

    fn in_edges(&self, u: usize) -> (r: Vec<usize>) {
        proof {
            use_type_invariant(self);
        }
        let w = self.kept[u];
        let s = self.graph.in_edges(w);
        proof {
            assert forall|k: int| 0 <= k < s@.len() implies #[trigger] s@[k] < self.keep@.len() by {
                assert(self.graph.spec_in(w as int)[k] < self.graph.spec_num_nodes());
            }
        }
        self.renumber(s)
    }
}

impl<'a, G: Graph> NodeFiltered<'a, G> {
    /// The subgraph's edges point to its nodes.
    proof fn lemma_valid(&self)
        requires
            self.inv(),
        ensures
            valid_graph(self),
    {
        let g = self.graph;
        assert(self.kept@.no_duplicates()) by {
            assert forall|i: int, j: int| 0 <= i < self.kept@.len() && 0 <= j < self.kept@.len() && i != j
                implies self.kept@[i] != self.kept@[j] by {
                if i < j {
                    assert(self.kept@[i] < self.kept@[j]);
                } else {
                    assert(self.kept@[j] < self.kept@[i]);
                }
            }
        }
        crate::reach::lemma_distinct_below(self.kept@, g.spec_num_nodes());
        assert forall|u: int, k: int| 0 <= u < self.spec_num_nodes() && 0 <= k < self.spec_out(u).len() implies
            #[trigger] self.spec_out(u)[k] < self.spec_num_nodes() by {
            let s = g.spec_out(self.kept@[u] as int);
            lemma_renumbered_from(s, self.keep@, self.index@, k);
            let i = choose|i: int| 0 <= i < s.len() && self.keep@[s[i] as int] && #[trigger] self.index@[s[i] as int] == self.spec_out(u)[k];
            assert(s[i] < g.spec_num_nodes());
        }
        assert forall|u: int, k: int| 0 <= u < self.spec_num_nodes() && 0 <= k < self.spec_in(u).len() implies
            #[trigger] self.spec_in(u)[k] < self.spec_num_nodes() by {
            let s = g.spec_in(self.kept@[u] as int);
            lemma_renumbered_from(s, self.keep@, self.index@, k);
            let i = choose|i: int| 0 <= i < s.len() && self.keep@[s[i] as int] && #[trigger] self.index@[s[i] as int] == self.spec_in(u)[k];
            assert(s[i] < g.spec_num_nodes());
        }
    }
}

/// The graph `graph` with only some of its edges: of the out-edges of each node, those whose
/// flag in `keep_out` is set, and of its in-edges, those whose flag in `keep_in` is set.
pub struct EdgeFiltered<'a, G: Graph> {
    graph: &'a G,
    keep_out: Vec<Vec<bool>>,
    keep_in: Vec<Vec<bool>>,
}

impl<'a, G: Graph> EdgeFiltered<'a, G> {
    /// The graph that is filtered.
    pub closed spec fn spec_graph(&self) -> &'a G {
        self.graph
    }

    /// For each node, which of its out-edges are kept.
    pub closed spec fn spec_keep_out(&self, u: int) -> Seq<bool> {
        self.keep_out@[u]@
    }

    /// For each node, which of its in-edges are kept.
    pub closed spec fn spec_keep_in(&self, u: int) -> Seq<bool> {
        self.keep_in@[u]@
    }

    #[verifier::type_invariant]
    closed spec fn inv(&self) -> bool {
        let n = self.graph.spec_num_nodes();
        &&& self.keep_out@.len() == n
        &&& self.keep_in@.len() == n
        &&& forall|u: int| 0 <= u < n ==> (#[trigger] self.keep_out@[u])@.len() == self.graph.spec_out(u).len()
        &&& forall|u: int| 0 <= u < n ==> (#[trigger] self.keep_in@[u])@.len() == self.graph.spec_in(u).len()
    }

    /// The graph `graph` with only the out-edges and in-edges whose flags are set.
    pub fn new(graph: &'a G, keep_out: Vec<Vec<bool>>, keep_in: Vec<Vec<bool>>) -> (r: EdgeFiltered<'a, G>)
        requires
            keep_out@.len() == graph.spec_num_nodes(),
            keep_in@.len() == graph.spec_num_nodes(),
            forall|u: int| 0 <= u < graph.spec_num_nodes() ==> (#[trigger] keep_out@[u])@.len() == graph.spec_out(u).len(),
            forall|u: int| 0 <= u < graph.spec_num_nodes() ==> (#[trigger] keep_in@[u])@.len() == graph.spec_in(u).len(),
        ensures
            r.spec_graph() == graph,
            forall|u: int| 0 <= u < graph.spec_num_nodes() ==> #[trigger] r.spec_keep_out(u) == keep_out@[u]@,
            forall|u: int| 0 <= u < graph.spec_num_nodes() ==> #[trigger] r.spec_keep_in(u) == keep_in@[u]@,
    {
        EdgeFiltered { graph, keep_out, keep_in }
    }
}

/// The entries of `s` whose flag in `mask` is set.
fn select(s: &Vec<usize>, mask: &Vec<bool>) -> (r: Vec<usize>)
    requires
        s@.len() == mask@.len(),
    ensures
        r@ == masked(s@, mask@),
{
    let mut r: Vec<usize> = Vec::new();
    let mut k: usize = 0;
    while k < s.len()
        invariant
            s@.len() == mask@.len(),
            k <= s@.len(),
            r@ == masked(s@.take(k as int), mask@),
        decreases s@.len() - k,
    {
        proof {
            assert(s@.take(k + 1).drop_last() =~= s@.take(k as int));
        }
        if mask[k] {
            r.push(s[k]);
        }
        k = k + 1;
    }
    proof {
        assert(s@.take(s@.len() as int) =~= s@);
    }
    r
}

impl<'a, G: Graph> Graph for EdgeFiltered<'a, G> {
    open spec fn spec_num_nodes(&self) -> nat {
        self.spec_graph().spec_num_nodes()
    }

    open spec fn spec_out(&self, u: int) -> Seq<usize> {
        masked(self.spec_graph().spec_out(u), self.spec_keep_out(u))
    }

    open spec fn spec_in(&self, u: int) -> Seq<usize> {
        masked(self.spec_graph().spec_in(u), self.spec_keep_in(u))
    }

    fn num_nodes(&self) -> (r: usize) {
        self.graph.num_nodes()
    }

    fn out_edges(&self, u: usize) -> (r: Vec<usize>) {
        proof {
            use_type_invariant(self);
        }
        let s = self.graph.out_edges(u);
        select(&s, &self.keep_out[u])
    }

    fn in_edges(&self, u: usize) -> (r: Vec<usize>) {
        proof {
            use_type_invariant(self);
        }
        let s = self.graph.in_edges(u);
        select(&s, &self.keep_in[u])
    }
}

/// `v` is an out-neighbor or an in-neighbor of some node of `set`.
pub open spec fn in_neighborhood<G: Graph>(g: &G, set: Seq<usize>, v: usize) -> bool {
    exists|i: int| 0 <= i < set.len() && (g.spec_out(#[trigger] set[i] as int).contains(v) || g.spec_in(set[i] as int).contains(v))
}

/// The nodes that are adjacent (an in-neighbor or an out-neighbor) to some node of `set`, as a
/// flag for each node of the graph.
pub fn neighbor_set<G: Graph>(g: &G, set: &Vec<usize>) -> (r: Vec<bool>)
    requires
        valid_graph(g),
        forall|i: int| 0 <= i < set@.len() ==> #[trigger] set@[i] < g.spec_num_nodes(),
    ensures
        r@.len() == g.spec_num_nodes(),
        forall|v: int| 0 <= v < g.spec_num_nodes() ==> (#[trigger] r@[v] <==> in_neighborhood(g, set@, v as usize)),
{
    let n = g.num_nodes();
    let mut r: Vec<bool> = Vec::new();
    let mut v: usize = 0;
    while v < n
        invariant
            v <= n,
            r@.len() == v,
            forall|x: int| 0 <= x < v ==> !#[trigger] r@[x],
        decreases n - v,
    {
        r.push(false);
        v = v + 1;
    }
    let mut i: usize = 0;
    while i < set.len()
        invariant
            valid_graph(g),
            n == g.spec_num_nodes(),
            forall|i2: int| 0 <= i2 < set@.len() ==> #[trigger] set@[i2] < n,
            i <= set@.len(),
            r@.len() == n,
            forall|x: int| 0 <= x < n ==> (#[trigger] r@[x] <==> in_neighborhood(g, set@.take(i as int), x as usize)),
        decreases set@.len() - i,
    {
        let u = set[i];
        let outs = g.out_edges(u);
        let ins = g.in_edges(u);
        let ghost r0 = r@;
        let mut k: usize = 0;
        while k < outs.len()
            invariant
                valid_graph(g),
                n == g.spec_num_nodes(),
                u < n,
                outs@ == g.spec_out(u as int),
                k <= outs@.len(),
                r@.len() == n,
                forall|x: int| 0 <= x < n ==> (#[trigger] r@[x] <==> (r0[x] || outs@.take(k as int).contains(x as usize))),
            decreases outs@.len() - k,
        {
            proof {
                assert(g.spec_out(u as int)[k as int] < n);
            }
            let ghost rk = r@;
            r.set(outs[k], true);
            proof {
                assert forall|x: int| 0 <= x < n implies (#[trigger] r@[x] <==> (r0[x] || outs@.take(k + 1).contains(x as usize))) by {
                    assert(outs@.take(k + 1) =~= outs@.take(k as int).push(outs@[k as int]));
                    assert(rk[x] <==> (r0[x] || outs@.take(k as int).contains(x as usize)));
                    let t0 = outs@.take(k as int);
                    let t1 = outs@.take(k + 1);
                    if t1.contains(x as usize) {
                        let m = choose|m: int| 0 <= m < t1.len() && t1[m] == x as usize;
                        if m < k {
                            assert(t0[m] == x);
                        }
                    }
                    if t0.contains(x as usize) {
                        let m = choose|m: int| 0 <= m < t0.len() && t0[m] == x as usize;
                        assert(t1[m] == x);
                    }
                    if x == outs@[k as int] {
                        assert(t1[k as int] == x);
                    }
                }
            }
            k = k + 1;
        }
        let ghost r1 = r@;
        let mut k: usize = 0;
        while k < ins.len()
            invariant
                valid_graph(g),
                n == g.spec_num_nodes(),
                u < n,
                ins@ == g.spec_in(u as int),
                k <= ins@.len(),
                r@.len() == n,
                forall|x: int| 0 <= x < n ==> (#[trigger] r@[x] <==> (r1[x] || ins@.take(k as int).contains(x as usize))),
            decreases ins@.len() - k,
        {
            proof {
                assert(g.spec_in(u as int)[k as int] < n);
            }
            let ghost rk = r@;
            r.set(ins[k], true);
            proof {
                assert forall|x: int| 0 <= x < n implies (#[trigger] r@[x] <==> (r1[x] || ins@.take(k + 1).contains(x as usize))) by {
                    assert(ins@.take(k + 1) =~= ins@.take(k as int).push(ins@[k as int]));
                    assert(rk[x] <==> (r1[x] || ins@.take(k as int).contains(x as usize)));
                    let t0 = ins@.take(k as int);
                    let t1 = ins@.take(k + 1);
                    if t1.contains(x as usize) {
                        let m = choose|m: int| 0 <= m < t1.len() && t1[m] == x as usize;
                        if m < k {
                            assert(t0[m] == x);
                        }
                    }
                    if t0.contains(x as usize) {
                        let m = choose|m: int| 0 <= m < t0.len() && t0[m] == x as usize;
                        assert(t1[m] == x);
                    }
                    if x == ins@[k as int] {
                        assert(t1[k as int] == x);
                    }
                }
            }
            k = k + 1;
        }
        proof {
            assert(outs@.take(outs@.len() as int) =~= outs@);
            assert(ins@.take(ins@.len() as int) =~= ins@);
            let s0 = set@.take(i as int);
            let s1 = set@.take(i + 1);
            assert forall|x: int| 0 <= x < n implies (#[trigger] r@[x] <==> in_neighborhood(g, s1, x as usize)) by {
                if in_neighborhood(g, s1, x as usize) {
                    let j = choose|j: int| 0 <= j < s1.len() && (g.spec_out(#[trigger] s1[j] as int).contains(x as usize)
                        || g.spec_in(s1[j] as int).contains(x as usize));
                    if j < i {
                        assert(s0[j] == s1[j]);
                        assert(in_neighborhood(g, s0, x as usize));
                    } else {
                        assert(s1[j] == u);
                    }
                }
                if in_neighborhood(g, s0, x as usize) {
                    let j = choose|j: int| 0 <= j < s0.len() && (g.spec_out(#[trigger] s0[j] as int).contains(x as usize)
                        || g.spec_in(s0[j] as int).contains(x as usize));
                    assert(s1[j] == s0[j]);
                    assert(in_neighborhood(g, s1, x as usize));
                }
                if outs@.contains(x as usize) || ins@.contains(x as usize) {
                    assert(s1[i as int] == u);
                    assert(in_neighborhood(g, s1, x as usize));
                }
            }
        }
        i = i + 1;
    }
    proof {
        assert(set@.take(set@.len() as int) =~= set@);
    }
    r
}

} // verus!
