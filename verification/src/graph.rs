//! Directed graphs whose nodes are numbered `0..n`, and the algorithms that `ojo` runs on them.

use vstd::prelude::*;

verus! {

/// An edge of a graph, which knows the node that it points to.
pub trait Edge {
    /// The node that this edge points to.
    spec fn spec_target(&self) -> usize;

    /// The node that this edge points to.
    fn target(&self) -> (r: usize)
        ensures
            r == self.spec_target(),
    ;
}

impl Edge for usize {
    open spec fn spec_target(&self) -> usize {
        *self
    }

    fn target(&self) -> (r: usize) {
        *self
    }
}

/// A directed graph whose nodes are `0..n`. Every node has a list of out-edges and a list of
/// in-edges; each is given by the node at its other end.
pub trait Graph: Sized {
    /// The number of nodes.
    spec fn spec_num_nodes(&self) -> nat;

    /// The targets of the out-edges of `u`, in order.
    spec fn spec_out(&self, u: int) -> Seq<usize>;

    /// The sources of the in-edges of `u`, in order.
    spec fn spec_in(&self, u: int) -> Seq<usize>;

    /// The number of nodes.
    fn num_nodes(&self) -> (r: usize)
        ensures
            r == self.spec_num_nodes(),
    ;

    /// The targets of the out-edges of `u`.
    fn out_edges(&self, u: usize) -> (r: Vec<usize>)
        requires
            u < self.spec_num_nodes(),
        ensures
            r@ == self.spec_out(u as int),
    ;

    /// The sources of the in-edges of `u`.
    fn in_edges(&self, u: usize) -> (r: Vec<usize>)
        requires
            u < self.spec_num_nodes(),
        ensures
            r@ == self.spec_in(u as int),
    ;
}

/// The numbers `0..n`.
pub open spec fn node_range(n: nat) -> Seq<usize> {
    Seq::new(n, |i: int| i as usize)
}

/// Every edge points to a node of the graph.
pub open spec fn valid_graph<G: Graph>(g: &G) -> bool {
    &&& g.spec_num_nodes() <= usize::MAX
    &&& forall|u: int, k: int|
        0 <= u < g.spec_num_nodes() && 0 <= k < g.spec_out(u).len() ==> #[trigger] g.spec_out(
            u,
        )[k] < g.spec_num_nodes()
    &&& forall|u: int, k: int|
        0 <= u < g.spec_num_nodes() && 0 <= k < g.spec_in(u).len() ==> #[trigger] g.spec_in(
            u,
        )[k] < g.spec_num_nodes()
}

/// There is an edge from `u` to `v`.
pub open spec fn has_edge<G: Graph>(g: &G, u: int, v: int) -> bool {
    &&& 0 <= u < g.spec_num_nodes()
    &&& exists|k: int| 0 <= k < g.spec_out(u).len() && g.spec_out(u)[k] == v
}

/// `p` is a walk through the graph: consecutive nodes are joined by edges.
pub open spec fn is_path<G: Graph>(g: &G, p: Seq<usize>) -> bool {
    &&& p.len() >= 1
    &&& forall|i: int| 0 <= i < p.len() ==> #[trigger] p[i] < g.spec_num_nodes()
    &&& forall|i: int| 0 <= i < p.len() - 1 ==> has_edge(g, #[trigger] p[i] as int, p[i + 1] as int)
}

/// The graph has a cycle: a walk of at least one edge that ends where it started.
pub open spec fn has_cycle<G: Graph>(g: &G) -> bool {
    exists|p: Seq<usize>| is_path(g, p) && p.len() >= 2 && p[0] == p.last()
}

/// A graph given by its adjacency lists.
#[derive(Clone, Debug)]
pub struct AdjGraph {
    out: Vec<Vec<usize>>,
    inn: Vec<Vec<usize>>,
}

/// Copies a vector of numbers.
pub fn copy_usizes(v: &Vec<usize>) -> (r: Vec<usize>)
    ensures
        r@ == v@,
{
    let mut r: Vec<usize> = Vec::new();
    let mut i: usize = 0;
    while i < v.len()
        invariant
            i <= v.len(),
            r@ == v@.take(i as int),
        decreases v.len() - i,
    {
        r.push(v[i]);
        i = i + 1;
        assert(r@ =~= v@.take(i as int));
    }
    assert(v@.take(v.len() as int) =~= v@);
    r
}

impl AdjGraph {
    /// The graph is well formed: in- and out-lists exist for every node and point to nodes.
    pub closed spec fn wf(&self) -> bool {
        &&& self.out@.len() == self.inn@.len()
        &&& valid_graph(self)
    }

    /// A well-formed graph is a valid graph.
    pub proof fn lemma_wf(&self)
        requires
            self.wf(),
        ensures
            valid_graph(self),
    {
    }

    /// Creates a graph with nodes `0..n` and no edges.
    pub fn new(n: usize) -> (r: AdjGraph)
        ensures
            r.wf(),
            r.spec_num_nodes() == n,
            forall|u: int| 0 <= u < n ==> r.spec_out(u).len() == 0 && r.spec_in(u).len() == 0,
    {
        let mut out: Vec<Vec<usize>> = Vec::new();
        let mut inn: Vec<Vec<usize>> = Vec::new();
        let mut i: usize = 0;
        while i < n
            invariant
                i <= n,
                out@.len() == i,
                inn@.len() == i,
                forall|u: int| 0 <= u < i ==> (#[trigger] out@[u])@.len() == 0 && inn@[u]@.len() == 0,
            decreases n - i,
        {
            out.push(Vec::new());
            inn.push(Vec::new());
            i = i + 1;
        }
        let r = AdjGraph { out, inn };
        assert forall|u: int, k: int|
            0 <= u < r.spec_num_nodes() && 0 <= k < r.spec_out(u).len() implies #[trigger] r.spec_out(
            u,
        )[k] < r.spec_num_nodes() by {
            assert(r.out@[u]@.len() == 0);
        }
        assert forall|u: int, k: int|
            0 <= u < r.spec_num_nodes() && 0 <= k < r.spec_in(u).len() implies #[trigger] r.spec_in(
            u,
        )[k] < r.spec_num_nodes() by {
            assert(r.out@[u]@.len() == 0);
            assert(r.inn@[u]@.len() == 0);
        }
        r
    }

    /// Adds an edge from `u` to `v`.
    pub fn add_edge(&mut self, u: usize, v: usize)
        requires
            old(self).wf(),
            u < old(self).spec_num_nodes(),
            v < old(self).spec_num_nodes(),
        ensures
            final(self).wf(),
            final(self).spec_num_nodes() == old(self).spec_num_nodes(),
            forall|w: int|
                0 <= w < final(self).spec_num_nodes() ==> #[trigger] final(self).spec_out(w) == if w
                    == u {
                    old(self).spec_out(w).push(v)
                } else {
                    old(self).spec_out(w)
                },
            forall|w: int|
                0 <= w < final(self).spec_num_nodes() ==> #[trigger] final(self).spec_in(w) == if w
                    == v {
                    old(self).spec_in(w).push(u)
                } else {
                    old(self).spec_in(w)
                },
    {
        let mut ou = copy_usizes(&self.out[u]);
        ou.push(v);
        self.out.set(u, ou);
        let mut iv = copy_usizes(&self.inn[v]);
        iv.push(u);
        self.inn.set(v, iv);
        proof {
            let n = self.spec_num_nodes();
            assert forall|w: int, k: int|
                0 <= w < n && 0 <= k < self.spec_out(w).len() implies #[trigger] self.spec_out(
                w,
            )[k] < n by {
                if w == u && k == old(self).spec_out(w).len() {
                } else {
                    assert(self.spec_out(w)[k] == old(self).spec_out(w)[k]);
                }
            }
            assert forall|w: int, k: int|
                0 <= w < n && 0 <= k < self.spec_in(w).len() implies #[trigger] self.spec_in(
                w,
            )[k] < n by {
                if w == v && k == old(self).spec_in(w).len() {
                } else {
                    assert(self.spec_in(w)[k] == old(self).spec_in(w)[k]);
                }
            }
        }
    }
}

impl Graph for AdjGraph {
    closed spec fn spec_num_nodes(&self) -> nat {
        self.out@.len()
    }

    closed spec fn spec_out(&self, u: int) -> Seq<usize> {
        self.out@[u]@
    }

    closed spec fn spec_in(&self, u: int) -> Seq<usize> {
        if 0 <= u < self.inn@.len() {
            self.inn@[u]@
        } else {
            Seq::empty()
        }
    }

    fn num_nodes(&self) -> (r: usize) {
        self.out.len()
    }

    fn out_edges(&self, u: usize) -> (r: Vec<usize>) {
        copy_usizes(&self.out[u])
    }

    fn in_edges(&self, u: usize) -> (r: Vec<usize>) {
        if u < self.inn.len() {
            copy_usizes(&self.inn[u])
        } else {
            Vec::new()
        }
    }
}

} // verus!
