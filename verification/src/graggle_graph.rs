//! Graggles seen as graphs, for the graph algorithms: their nodes are numbered, and each
//! number stands for a `NodeId`.

use vstd::prelude::*;

use crate::components::{has_in_edge, mirrored};
use crate::graggle::{Edge, EdgeKind, Graggle};
use crate::graph::{has_edge, valid_graph, AdjGraph, Graph};
use crate::ids::NodeId;

verus! {

/// A graph whose nodes stand for the `NodeId`s of a graggle.
#[derive(Clone, Debug)]
pub struct IdGraph {
    ids: Vec<NodeId>,
    graph: AdjGraph,
}

/// The live part of a graggle, as a graph: its nodes are the live nodes, and its edges are the
/// live edges and the pseudo-edges.
pub type LiveGraph = IdGraph;

/// A whole graggle, as a graph: its nodes are the live and the deleted nodes, and its edges
/// are all the edges, pseudo-edges included.
pub type FullGraph = IdGraph;

impl IdGraph {
    /// The `NodeId` that each node stands for.
    pub closed spec fn spec_ids(&self) -> Seq<NodeId> {
        self.ids@
    }

    /// Each node stands for its own `NodeId`, and the graph is well formed.
    pub closed spec fn wf(&self) -> bool {
        &&& self.graph.wf()
        &&& self.ids@.len() == self.graph.spec_num_nodes()
        &&& self.ids@.no_duplicates()
        &&& mirrored(&self.graph)
    }

    /// What a well-formed graph of ids promises.
    pub proof fn lemma_wf(&self)
        requires
            self.wf(),
        ensures
            valid_graph(self),
            mirrored(self),
            self.spec_ids().len() == self.spec_num_nodes(),
            self.spec_ids().no_duplicates(),
    {
        self.graph.lemma_wf();
        assert forall|u: int, v: int| #[trigger] has_edge(self, u, v) <==> #[trigger] has_in_edge(self, v, u) by {
            assert(self.spec_num_nodes() == self.graph.spec_num_nodes());
            assert(self.spec_out(u) == self.graph.spec_out(u));
            assert(self.spec_in(v) == self.graph.spec_in(v));
            assert(has_edge(self, u, v) == has_edge(&self.graph, u, v));
            assert(has_in_edge(self, v, u) == has_in_edge(&self.graph, v, u));
        }
    }

    /// The `NodeId`s that the nodes stand for.
    pub fn ids(&self) -> (r: &Vec<NodeId>)
        ensures
            r@ == self.spec_ids(),
    {
        &self.ids
    }

    /// The node that stands for `id`, if there is one.
    pub fn index_of(&self, id: &NodeId) -> (r: Option<usize>)
        ensures
            match r {
                Some(i) => i < self.spec_ids().len() && self.spec_ids()[i as int] == *id,
                None => !self.spec_ids().contains(*id),
            },
    {
        position(&self.ids, id)
    }
}

impl Graph for IdGraph {
    closed spec fn spec_num_nodes(&self) -> nat {
        self.graph.spec_num_nodes()
    }

    closed spec fn spec_out(&self, u: int) -> Seq<usize> {
        self.graph.spec_out(u)
    }

    closed spec fn spec_in(&self, u: int) -> Seq<usize> {
        self.graph.spec_in(u)
    }

    fn num_nodes(&self) -> (r: usize) {
        self.graph.num_nodes()
    }

    fn out_edges(&self, u: usize) -> (r: Vec<usize>) {
        self.graph.out_edges(u)
    }

    fn in_edges(&self, u: usize) -> (r: Vec<usize>) {
        self.graph.in_edges(u)
    }
}

/// Adding an edge to a graph whose in-edges mirror its out-edges keeps them mirrored.
pub proof fn lemma_add_edge_mirrored(before: AdjGraph, graph: AdjGraph, i: usize, j: usize)
    requires
        mirrored(&before),
        0 <= i < before.spec_num_nodes(),
        0 <= j < before.spec_num_nodes(),
        graph.spec_num_nodes() == before.spec_num_nodes(),
        forall|w: int| 0 <= w < graph.spec_num_nodes() ==> #[trigger] graph.spec_out(w) == if w == i {
            before.spec_out(w).push(j)
        } else {
            before.spec_out(w)
        },
        forall|w: int| 0 <= w < graph.spec_num_nodes() ==> #[trigger] graph.spec_in(w) == if w == j {
            before.spec_in(w).push(i)
        } else {
            before.spec_in(w)
        },
    ensures
        mirrored(&graph),
{
    assert forall|u: int, v: int| #[trigger] has_edge(&graph, u, v) <==> #[trigger] has_in_edge(&graph, v, u) by {
        if has_edge(&graph, u, v) {
            let m = choose|m: int| 0 <= m < graph.spec_out(u).len() && graph.spec_out(u)[m] == v;
            if u == i && m == before.spec_out(u).len() {
                assert(graph.spec_out(u) == before.spec_out(u).push(j));
                assert(v == j);
                assert(graph.spec_in(v) == before.spec_in(v).push(i));
                assert(graph.spec_in(v)[before.spec_in(v).len() as int] == u);
            } else {
                assert(before.spec_out(u)[m] == v);
                assert(has_edge(&before, u, v));
                assert(has_in_edge(&before, v, u));
                let q = choose|q: int| 0 <= q < before.spec_in(v).len() && before.spec_in(v)[q] == u;
                assert(graph.spec_in(v)[q] == u);
            }
        }
        if has_in_edge(&graph, v, u) {
            let m = choose|m: int| 0 <= m < graph.spec_in(v).len() && graph.spec_in(v)[m] == u;
            if v == j && m == before.spec_in(v).len() {
                assert(graph.spec_in(v) == before.spec_in(v).push(i));
                assert(u == i);
                assert(graph.spec_out(u) == before.spec_out(u).push(j));
                assert(graph.spec_out(u)[before.spec_out(u).len() as int] == v);
            } else {
                assert(before.spec_in(v)[m] == u);
                assert(has_in_edge(&before, v, u));
                assert(has_edge(&before, u, v));
                let q = choose|q: int| 0 <= q < before.spec_out(u).len() && before.spec_out(u)[q] == v;
                assert(graph.spec_out(u)[q] == v);
            }
        }
    }
}

/// The position of `id` in `v`, if it occurs there.
fn position(v: &Vec<NodeId>, id: &NodeId) -> (r: Option<usize>)
    ensures
        match r {
            Some(i) => i < v@.len() && v@[i as int] == *id,
            None => !v@.contains(*id),
        },
{
    let mut i: usize = 0;
    while i < v.len()
        invariant
            i <= v.len(),
            forall|j: int| 0 <= j < i ==> v@[j] != *id,
        decreases v.len() - i,
    {
        if v[i] == *id {
            return Some(i);
        }
        i = i + 1;
    }
    None
}

/// The elements of `v`, each once.
fn distinct(v: &Vec<NodeId>) -> (r: Vec<NodeId>)
    ensures
        r@.no_duplicates(),
        r@.to_set() == v@.to_set(),
{
    let mut r: Vec<NodeId> = Vec::new();
    let mut i: usize = 0;
    while i < v.len()
        invariant
            i <= v.len(),
            r@.no_duplicates(),
            forall|x: NodeId| r@.contains(x) <==> exists|j: int| 0 <= j < i && v@[j] == x,
        decreases v.len() - i,
    {
        let x = v[i];
        let ghost r0 = r@;
        if position(&r, &x).is_none() {
            r.push(x);
            proof {
                assert forall|y: NodeId| r@.contains(y) <==> (r0.contains(y) || y == x) by {
                    if r@.contains(y) {
                        let k = choose|k: int| 0 <= k < r@.len() && r@[k] == y;
                        if k < r0.len() {
                            assert(r0[k] == y);
                        }
                    }
                    if r0.contains(y) {
                        let k = choose|k: int| 0 <= k < r0.len() && r0[k] == y;
                        assert(r@[k] == y);
                    }
                    if y == x {
                        assert(r@[r0.len() as int] == x);
                    }
                }
                assert forall|a: int, b: int| 0 <= a < b < r@.len() implies r@[a] != r@[b] by {
                    if b == r0.len() {
                        assert(r0.contains(r0[a]));
                    }
                }
            }
        }
        proof {
            assert forall|y: NodeId| r@.contains(y) <==> exists|j: int| 0 <= j < i + 1 && v@[j] == y by {
                if exists|j: int| 0 <= j < i + 1 && v@[j] == y {
                    let j = choose|j: int| 0 <= j < i + 1 && v@[j] == y;
                    if j < i {
                        assert(r0.contains(y));
                    }
                }
                if r0.contains(y) {
                    assert(exists|j: int| 0 <= j < i && v@[j] == y);
                }
            }
        }
        i = i + 1;
    }
    proof {
        assert forall|y: NodeId| v@.contains(y) implies r@.contains(y) by {
            let j = choose|j: int| 0 <= j < v@.len() && v@[j] == y;
        }
        assert(r@.to_set() =~= v@.to_set());
    }
    r
}

/// Builds the graph on the nodes `ids` of a graggle whose edges are those of the graggle that
/// leave a node of `ids` (only the ones not pointing to deleted nodes, unless `all`).
fn id_graph(g: &Graggle, ids: Vec<NodeId>, all: bool) -> (r: IdGraph)
    requires
        g@.shape_ok(),
        ids@.no_duplicates(),
        forall|x: NodeId| #[trigger] ids@.contains(x) ==> g@.has(x),
        all ==> forall|x: NodeId| g@.has(x) ==> #[trigger] ids@.contains(x),
        !all ==> forall|x: NodeId| g@.live.contains(x) ==> #[trigger] ids@.contains(x),
        !all ==> forall|x: NodeId| #[trigger] ids@.contains(x) ==> g@.live.contains(x),
    ensures
        r.wf(),
        r.spec_ids() == ids@,
        forall|i: int, j: int| 0 <= i < ids@.len() && 0 <= j < ids@.len() ==>
            (#[trigger] has_edge(&r, i, j) <==> exists|e: Edge| #[trigger] g@.edges.contains((ids@[i], e))
                && (all || !(e.kind is Deleted)) && e.dest == ids@[j]),
{
    let n = ids.len();
    let mut graph = AdjGraph::new(n);
    proof {
        assert forall|u: int, v: int| #[trigger] has_edge(&graph, u, v) <==> #[trigger] has_in_edge(&graph, v, u) by {
        }
    }
    let mut i: usize = 0;
    while i < n
        invariant
            g@.shape_ok(),
            ids@.no_duplicates(),
            n == ids@.len(),
            forall|x: NodeId| #[trigger] ids@.contains(x) ==> g@.has(x),
            all ==> forall|x: NodeId| g@.has(x) ==> #[trigger] ids@.contains(x),
            !all ==> forall|x: NodeId| g@.live.contains(x) ==> #[trigger] ids@.contains(x),
            !all ==> forall|x: NodeId| #[trigger] ids@.contains(x) ==> g@.live.contains(x),
            i <= n,
            graph.wf(),
            graph.spec_num_nodes() == n,
            mirrored(&graph),
            forall|a: int, b: int| 0 <= a < n && 0 <= b < n ==>
                (#[trigger] has_edge(&graph, a, b) <==> a < i && exists|e: Edge| #[trigger] g@.edges.contains((ids@[a], e))
                    && (all || !(e.kind is Deleted)) && e.dest == ids@[b]),
        decreases n - i,
    {
        let es = if all {
            g.all_out_edges(&ids[i])
        } else {
            g.out_edges(&ids[i])
        };
        let mut k: usize = 0;
        while k < es.len()
            invariant
                g@.shape_ok(),
                ids@.no_duplicates(),
                n == ids@.len(),
                forall|x: NodeId| #[trigger] ids@.contains(x) ==> g@.has(x),
                all ==> forall|x: NodeId| g@.has(x) ==> #[trigger] ids@.contains(x),
                !all ==> forall|x: NodeId| g@.live.contains(x) ==> #[trigger] ids@.contains(x),
                !all ==> forall|x: NodeId| #[trigger] ids@.contains(x) ==> g@.live.contains(x),
                i < n,
                forall|e: Edge| #[trigger] es@.contains(e) <==> (g@.edges.contains((ids@[i as int], e)) && (all || !(e.kind is Deleted))),
                k <= es.len(),
                graph.wf(),
                graph.spec_num_nodes() == n,
                mirrored(&graph),
                forall|a: int, b: int| 0 <= a < n && 0 <= b < n ==>
                    (#[trigger] has_edge(&graph, a, b) <==> (a < i && exists|e: Edge| #[trigger] g@.edges.contains((ids@[a], e))
                        && (all || !(e.kind is Deleted)) && e.dest == ids@[b])
                        || (a == i && exists|l: int| 0 <= l < k && es@[l].dest == ids@[b])),
            decreases es.len() - k,
        {
            let e = es[k];
            proof {
                assert(es@.contains(e));
                assert(g@.edges.contains((ids@[i as int], e)));
                assert(g@.edge_ok(ids@[i as int], e));
                assert(ids@.contains(e.dest)) by {
                    if !all {
                        assert(ids@.contains(ids@[i as int]));
                        if e.kind is Pseudo {
                        } else {
                            assert(e.kind is Live);
                        }
                    }
                }
            }
            let j = match position(&ids, &e.dest) {
                Some(j) => j,
                None => {
                    proof {
                        assert(false);
                    }
                    0
                },
            };
            let ghost before = graph;
            graph.add_edge(i, j);
            proof {
                lemma_add_edge_mirrored(before, graph, i, j);
                assert forall|a: int, b: int| 0 <= a < n && 0 <= b < n implies
                    (#[trigger] has_edge(&graph, a, b) <==> (a < i && exists|e2: Edge| #[trigger] g@.edges.contains((ids@[a], e2))
                        && (all || !(e2.kind is Deleted)) && e2.dest == ids@[b])
                        || (a == i && exists|l: int| 0 <= l < k + 1 && es@[l].dest == ids@[b])) by {
                    if has_edge(&before, a, b) {
                        let m = choose|m: int| 0 <= m < before.spec_out(a).len() && before.spec_out(a)[m] == b;
                        assert(graph.spec_out(a)[m] == b);
                    }
                    if has_edge(&graph, a, b) && !has_edge(&before, a, b) {
                        let m = choose|m: int| 0 <= m < graph.spec_out(a).len() && graph.spec_out(a)[m] == b;
                        if m < before.spec_out(a).len() {
                            assert(before.spec_out(a)[m] == b);
                        }
                        assert(es@[k as int].dest == ids@[b]);
                    }
                    if a == i && exists|l: int| 0 <= l < k + 1 && es@[l].dest == ids@[b] {
                        let l = choose|l: int| 0 <= l < k + 1 && es@[l].dest == ids@[b];
                        if l == k {
                            assert(ids@[j as int] == ids@[b]);
                            assert(graph.spec_out(a)[graph.spec_out(a).len() - 1] == b);
                        }
                    }
                }
            }
            k = k + 1;
        }
        proof {
            assert forall|a: int, b: int| 0 <= a < n && 0 <= b < n implies
                (#[trigger] has_edge(&graph, a, b) <==> a < i + 1 && exists|e: Edge| #[trigger] g@.edges.contains((ids@[a], e))
                    && (all || !(e.kind is Deleted)) && e.dest == ids@[b]) by {
                if a == i && exists|l: int| 0 <= l < es@.len() && es@[l].dest == ids@[b] {
                    let l = choose|l: int| 0 <= l < es@.len() && es@[l].dest == ids@[b];
                    assert(es@.contains(es@[l]));
                }
                if a == i && exists|e: Edge| #[trigger] g@.edges.contains((ids@[a], e)) && (all || !(e.kind is Deleted)) && e.dest == ids@[b] {
                    let e = choose|e: Edge| #[trigger] g@.edges.contains((ids@[a], e)) && (all || !(e.kind is Deleted)) && e.dest == ids@[b];
                    assert(es@.contains(e));
                    let l = choose|l: int| 0 <= l < es@.len() && es@[l] == e;
                }
            }
        }
        i = i + 1;
    }
    let r = IdGraph { ids, graph };
    proof {
        assert forall|a: int, b: int| 0 <= a < r.ids@.len() && 0 <= b < r.ids@.len() implies
            #[trigger] has_edge(&r, a, b) == has_edge(&r.graph, a, b) by {
            assert(r.spec_num_nodes() == r.graph.spec_num_nodes());
            assert(r.spec_out(a) == r.graph.spec_out(a));
        }
    }
    r
}

impl<'a> Graggle<'a> {
    /// The live part of this graggle, as a graph: its nodes stand for the live nodes, and its
    /// edges are the edges (real or pseudo) between them.
    pub fn as_live_graph(&self) -> (r: LiveGraph)
        requires
            self@.shape_ok(),
        ensures
            r.wf(),
            r.spec_ids().to_set() == self@.live,
            forall|i: int, j: int| 0 <= i < r.spec_ids().len() && 0 <= j < r.spec_ids().len() ==>
                (#[trigger] has_edge(&r, i, j) <==> exists|e: Edge| #[trigger] self@.edges.contains((r.spec_ids()[i], e))
                    && !(e.kind is Deleted) && e.dest == r.spec_ids()[j]),
    {
        let ids = distinct(&self.nodes());
        proof {
            assert forall|x: NodeId| #[trigger] ids@.contains(x) implies self@.has(x) by {
                assert(ids@.to_set().contains(x));
            }
            assert forall|x: NodeId| self@.live.contains(x) implies #[trigger] ids@.contains(x) by {
                assert(ids@.to_set().contains(x));
            }
            assert forall|x: NodeId| #[trigger] ids@.contains(x) implies self@.live.contains(x) by {
                assert(ids@.to_set().contains(x));
            }
        }
        id_graph(self, ids, false)
    }

    /// The whole graggle, as a graph: its nodes stand for the live and the deleted nodes, and
    /// its edges are all the edges, pseudo-edges included.
    pub fn as_full_graph(&self) -> (r: FullGraph)
        requires
            self@.shape_ok(),
        ensures
            r.wf(),
            r.spec_ids().to_set() == self@.live.union(self@.dead),
            forall|i: int, j: int| 0 <= i < r.spec_ids().len() && 0 <= j < r.spec_ids().len() ==>
                (#[trigger] has_edge(&r, i, j) <==> exists|e: Edge| #[trigger] self@.edges.contains((r.spec_ids()[i], e))
                    && e.dest == r.spec_ids()[j]),
    {
        let mut all = self.nodes();
        let dead = self.deleted_nodes();
        let mut k: usize = 0;
        let ghost live = all@;
        while k < dead.len()
            invariant
                k <= dead.len(),
                all@ == live + dead@.take(k as int),
            decreases dead.len() - k,
        {
            all.push(dead[k]);
            proof {
                assert(all@ =~= live + dead@.take(k + 1));
            }
            k = k + 1;
        }
        proof {
            assert(dead@.take(dead@.len() as int) =~= dead@);
        }
        let ids = distinct(&all);
        proof {
            assert forall|x: NodeId| ids@.contains(x) <==> self@.has(x) by {
                assert(ids@.to_set().contains(x) == all@.to_set().contains(x));
                if all@.contains(x) {
                    let j = choose|j: int| 0 <= j < all@.len() && all@[j] == x;
                    if j < live.len() {
                        assert(live.contains(x));
                        assert(live.to_set().contains(x));
                    } else {
                        assert(dead@[j - live.len()] == x);
                        assert(dead@.to_set().contains(x));
                    }
                }
                if self@.live.contains(x) {
                    assert(live.to_set().contains(x));
                    let j = choose|j: int| 0 <= j < live.len() && live[j] == x;
                    assert(all@[j] == x);
                }
                if self@.dead.contains(x) {
                    assert(dead@.to_set().contains(x));
                    let j = choose|j: int| 0 <= j < dead@.len() && dead@[j] == x;
                    assert(all@[live.len() + j] == x);
                }
            }
            assert(ids@.to_set() =~= self@.live.union(self@.dead));
        }
        id_graph(self, ids, true)
    }
}

} // verus!
