//! Partitions of the nodes of a graph, and the graph that they induce on their parts.

use vstd::prelude::*;

use crate::components::{has_in_edge, mirrored};
use crate::graph::{copy_usizes, has_edge, valid_graph, AdjGraph, Graph};

verus! {

/// `sets` is a partition of the nodes `0..n`: every node lies in exactly one set, and no set
/// holds a node twice or a number that is not a node.
pub open spec fn is_partition(sets: Seq<Seq<usize>>, n: nat) -> bool {
    &&& forall|i: int, k: int| 0 <= i < sets.len() && 0 <= k < sets[i].len() ==> #[trigger] sets[i][k] < n
    &&& forall|i: int| 0 <= i < sets.len() ==> (#[trigger] sets[i]).no_duplicates()
    &&& forall|u: usize| u < n ==> #[trigger] covered(sets, u)
    &&& forall|i: int, j: int, u: usize|
        0 <= i < sets.len() && 0 <= j < sets.len() && #[trigger] sets[i].contains(u) && #[trigger] sets[j].contains(u) ==> i == j
}

/// Some set of `sets` holds `u`.
pub open spec fn covered(sets: Seq<Seq<usize>>, u: usize) -> bool {
    exists|i: int| 0 <= i < sets.len() && #[trigger] sets[i].contains(u)
}

/// The views of a list of lists.
pub open spec fn views(v: Seq<Vec<usize>>) -> Seq<Seq<usize>> {
    v.map_values(|s: Vec<usize>| s@)
}

/// A partition of the nodes of a graph, which is itself a graph: its nodes are the parts, and
/// there is an edge from one part to another when the graph has an edge from a node of the
/// first to a node of the second.
#[derive(Clone, Debug)]
pub struct Partition {
    sets: Vec<Vec<usize>>,
    node_map: Vec<usize>,
    graph: AdjGraph,
}

impl Partition {
    /// The parts.
    pub closed spec fn spec_parts(&self) -> Seq<Seq<usize>> {
        views(self.sets@)
    }

    /// The number of nodes that are partitioned.
    pub closed spec fn spec_size(&self) -> nat {
        self.node_map@.len()
    }

    /// The index of the part that holds `u`.
    pub closed spec fn spec_index_of(&self, u: int) -> int {
        self.node_map@[u] as int
    }

    /// The parts partition the nodes, and each node's index is that of its part.
    pub closed spec fn wf(&self) -> bool {
        &&& is_partition(self.spec_parts(), self.spec_size())
        &&& self.graph.wf()
        &&& mirrored(&self.graph)
        &&& self.graph.spec_num_nodes() == self.sets@.len()
        &&& forall|u: int| 0 <= u < self.spec_size() ==> 0 <= #[trigger] self.spec_index_of(u) < self.sets@.len()
            && self.spec_parts()[self.spec_index_of(u)].contains(u as usize)
    }

    /// What a well-formed partition promises: its parts partition the nodes, it has a node
    /// for each part, and each node lies in the part that its index names.
    pub proof fn lemma_wf(&self)
        requires
            self.wf(),
        ensures
            is_partition(self.spec_parts(), self.spec_size()),
            self.spec_num_nodes() == self.spec_parts().len(),
            self.spec_parts().len() <= usize::MAX,
            valid_graph(self),
            mirrored(self),
            forall|u: int| 0 <= u < self.spec_size() ==> 0 <= #[trigger] self.spec_index_of(u) < self.spec_parts().len()
                && self.spec_parts()[self.spec_index_of(u)].contains(u as usize),
    {
        self.graph.lemma_wf();
        assert(self.sets@.len() == self.sets.len());
        assert forall|u: int, v: int| #[trigger] has_edge(self, u, v) <==> #[trigger] has_in_edge(self, v, u) by {
            assert(self.spec_num_nodes() == self.graph.spec_num_nodes());
            assert(self.spec_out(u) == self.graph.spec_out(u));
            assert(self.spec_in(v) == self.graph.spec_in(v));
            assert(has_edge(self, u, v) == has_edge(&self.graph, u, v));
            assert(has_in_edge(self, v, u) == has_in_edge(&self.graph, v, u));
        }
        assert forall|u: int, k: int|
            0 <= u < self.spec_num_nodes() && 0 <= k < self.spec_out(u).len() implies #[trigger] self.spec_out(u)[k] < self.spec_num_nodes() by {
            assert(self.graph.spec_out(u)[k] < self.graph.spec_num_nodes());
        }
        assert forall|u: int, k: int|
            0 <= u < self.spec_num_nodes() && 0 <= k < self.spec_in(u).len() implies #[trigger] self.spec_in(u)[k] < self.spec_num_nodes() by {
            assert(self.graph.spec_in(u)[k] < self.graph.spec_num_nodes());
        }
    }

    /// Partitions the nodes of `g` into `sets`, and computes the edges between the parts.
    pub fn new<G: Graph>(g: &G, sets: Vec<Vec<usize>>) -> (r: Partition)
        requires
            valid_graph(g),
            is_partition(views(sets@), g.spec_num_nodes()),
        ensures
            r.wf(),
            r.spec_parts() == views(sets@),
            r.spec_size() == g.spec_num_nodes(),
            forall|i: int, j: int| 0 <= i < sets@.len() && 0 <= j < sets@.len() ==>
                (#[trigger] has_edge(&r, i, j) <==> i != j && exists|u: int, v: int|
                    #[trigger] has_edge(g, u, v) && r.spec_index_of(u) == i && r.spec_index_of(v) == j),
    {
        let n = g.num_nodes();
        let ghost parts = views(sets@);
        let mut node_map: Vec<usize> = Vec::new();
        let mut i: usize = 0;
        while i < n
            invariant
                i <= n,
                node_map@.len() == i,
                forall|u: int| 0 <= u < i ==> node_map@[u] == 0,
            decreases n - i,
        {
            node_map.push(0);
            i = i + 1;
        }
        let mut i: usize = 0;
        while i < sets.len()
            invariant
                parts == views(sets@),
                is_partition(parts, n as nat),
                n == g.spec_num_nodes(),
                i <= sets.len(),
                node_map@.len() == n,
                forall|u: int| 0 <= u < n && (exists|j: int| 0 <= j < i && #[trigger] parts[j].contains(u as usize))
                    ==> parts[node_map@[u] as int].contains(u as usize) && node_map@[u] < i,
            decreases sets.len() - i,
        {
            let mut k: usize = 0;
            while k < sets[i].len()
                invariant
                    parts == views(sets@),
                    is_partition(parts, n as nat),
                    n == g.spec_num_nodes(),
                    i < sets.len(),
                    k <= sets@[i as int]@.len(),
                    node_map@.len() == n,
                    forall|u: int| 0 <= u < n && (exists|j: int| 0 <= j < i && #[trigger] parts[j].contains(u as usize))
                        ==> parts[node_map@[u] as int].contains(u as usize) && node_map@[u] < i,
                    forall|l: int| 0 <= l < k ==> node_map@[#[trigger] parts[i as int][l] as int] == i,
                decreases sets@[i as int]@.len() - k,
            {
                let u = sets[i][k];
                assert(parts[i as int][k as int] == u);
                let ghost m0 = node_map@;
                node_map.set(u, i);
                proof {
                    assert forall|w: int| 0 <= w < n && (exists|j: int| 0 <= j < i && #[trigger] parts[j].contains(w as usize))
                        implies parts[node_map@[w] as int].contains(w as usize) && node_map@[w] < i by {
                        if w == u {
                            let j = choose|j: int| 0 <= j < i && #[trigger] parts[j].contains(w as usize);
                            assert(parts[i as int].contains(u));
                            assert(j == i);
                        } else {
                            assert(node_map@[w] == m0[w]);
                        }
                    }
                    assert forall|l: int| 0 <= l < k + 1 implies node_map@[#[trigger] parts[i as int][l] as int] == i by {
                        if l < k {
                            assert(m0[parts[i as int][l] as int] == i);
                            assert(parts[i as int][l] != u) by {
                                assert(parts[i as int].no_duplicates());
                            }
                        }
                    }
                }
                k = k + 1;
            }
            proof {
                assert forall|u: int| 0 <= u < n && (exists|j: int| 0 <= j < i + 1 && #[trigger] parts[j].contains(u as usize))
                    implies parts[node_map@[u] as int].contains(u as usize) && node_map@[u] < i + 1 by {
                    let j = choose|j: int| 0 <= j < i + 1 && #[trigger] parts[j].contains(u as usize);
                    if j == i {
                        let l = choose|l: int| 0 <= l < parts[i as int].len() && parts[i as int][l] == u as usize;
                        assert(node_map@[parts[i as int][l] as int] == i);
                    }
                }
            }
            i = i + 1;
        }
        proof {
            assert forall|w: int| 0 <= w < n implies parts[#[trigger] node_map@[w] as int].contains(w as usize)
                && node_map@[w] < sets@.len() by {
                assert(covered(parts, w as usize));
            }
        }
        let mut graph = AdjGraph::new(sets.len());
        proof {
            assert forall|a: int, b: int| #[trigger] has_edge(&graph, a, b) <==> #[trigger] has_in_edge(&graph, b, a) by {}
        }
        let mut u: usize = 0;
        while u < n
            invariant
                parts == views(sets@),
                is_partition(parts, n as nat),
                valid_graph(g),
                n == g.spec_num_nodes(),
                u <= n,
                node_map@.len() == n,
                forall|w: int| 0 <= w < n ==> parts[#[trigger] node_map@[w] as int].contains(w as usize) && node_map@[w] < sets@.len(),
                graph.wf(),
                mirrored(&graph),
                graph.spec_num_nodes() == sets@.len(),
                forall|i: int, j: int| 0 <= i < sets@.len() && 0 <= j < sets@.len() ==>
                    (#[trigger] has_edge(&graph, i, j) <==> i != j && exists|a: int, b: int|
                        #[trigger] has_edge(g, a, b) && a < u && node_map@[a] == i && node_map@[b] == j),
            decreases n - u,
        {
            let out = g.out_edges(u);
            let iu = node_map[u];
            let mut k: usize = 0;
            while k < out.len()
                invariant
                    parts == views(sets@),
                    valid_graph(g),
                    n == g.spec_num_nodes(),
                    u < n,
                    out@ == g.spec_out(u as int),
                    iu == node_map@[u as int],
                    k <= out.len(),
                    node_map@.len() == n,
                    forall|w: int| 0 <= w < n ==> parts[#[trigger] node_map@[w] as int].contains(w as usize) && node_map@[w] < sets@.len(),
                    graph.wf(),
                    mirrored(&graph),
                    graph.spec_num_nodes() == sets@.len(),
                    forall|i: int, j: int| 0 <= i < sets@.len() && 0 <= j < sets@.len() ==>
                        (#[trigger] has_edge(&graph, i, j) <==> i != j && ((exists|a: int, b: int|
                            #[trigger] has_edge(g, a, b) && a < u && node_map@[a] == i && node_map@[b] == j)
                            || (i == iu && exists|l: int| 0 <= l < k && node_map@[#[trigger] out@[l] as int] == j))),
                decreases out.len() - k,
            {
                let v = out[k];
                assert(g.spec_out(u as int)[k as int] == v);
                let iv = node_map[v];
                let ghost before = graph;
                if iu != iv {
                    graph.add_edge(iu, iv);
                    proof {
                        crate::graggle_graph::lemma_add_edge_mirrored(before, graph, iu, iv);
                    }
                }
                proof {
                    assert forall|i: int, j: int| 0 <= i < sets@.len() && 0 <= j < sets@.len() implies
                        (#[trigger] has_edge(&graph, i, j) <==> i != j && ((exists|a: int, b: int|
                            #[trigger] has_edge(g, a, b) && a < u && node_map@[a] == i && node_map@[b] == j)
                            || (i == iu && exists|l: int| 0 <= l < k + 1 && node_map@[#[trigger] out@[l] as int] == j))) by {
                        if has_edge(&before, i, j) {
                            let m = choose|m: int| 0 <= m < before.spec_out(i).len() && before.spec_out(i)[m] == j;
                            assert(graph.spec_out(i)[m] == j);
                        }
                        if has_edge(&graph, i, j) && !has_edge(&before, i, j) {
                            let m = choose|m: int| 0 <= m < graph.spec_out(i).len() && graph.spec_out(i)[m] == j;
                            if m < before.spec_out(i).len() {
                                assert(before.spec_out(i)[m] == j);
                            }
                        }
                        if i == iu && i != j && (exists|l: int| 0 <= l < k + 1 && node_map@[#[trigger] out@[l] as int] == j) {
                            let l = choose|l: int| 0 <= l < k + 1 && node_map@[#[trigger] out@[l] as int] == j;
                            if l == k {
                                assert(graph.spec_out(i)[graph.spec_out(i).len() - 1] == j);
                            }
                        }
                    }
                }
                k = k + 1;
            }
            proof {
                assert forall|i: int, j: int| 0 <= i < sets@.len() && 0 <= j < sets@.len() implies
                    (#[trigger] has_edge(&graph, i, j) <==> i != j && exists|a: int, b: int|
                        #[trigger] has_edge(g, a, b) && a < u + 1 && node_map@[a] == i && node_map@[b] == j) by {
                    if i == iu && i != j && (exists|l: int| 0 <= l < out@.len() && node_map@[#[trigger] out@[l] as int] == j) {
                        let l = choose|l: int| 0 <= l < out@.len() && node_map@[#[trigger] out@[l] as int] == j;
                        assert(has_edge(g, u as int, out@[l] as int));
                    }
                    if i != j && exists|a: int, b: int| #[trigger] has_edge(g, a, b) && a < u + 1 && node_map@[a] == i && node_map@[b] == j {
                        let (a, b) = choose|a: int, b: int| #[trigger] has_edge(g, a, b) && a < u + 1 && node_map@[a] == i && node_map@[b] == j;
                        if a == u {
                            let l = choose|l: int| 0 <= l < g.spec_out(a).len() && g.spec_out(a)[l] == b;
                            assert(node_map@[out@[l] as int] == j);
                        }
                    }
                }
            }
            u = u + 1;
        }
        let r = Partition { sets, node_map, graph };
        proof {
            assert forall|u: int| 0 <= u < r.spec_size() implies 0 <= #[trigger] r.spec_index_of(u) < r.sets@.len()
                && r.spec_parts()[r.spec_index_of(u)].contains(u as usize) by {
                assert(parts[r.node_map@[u] as int].contains(u as usize));
            }
            assert forall|i: int, j: int| 0 <= i < r.sets@.len() && 0 <= j < r.sets@.len() implies
                (#[trigger] has_edge(&r, i, j) <==> i != j && exists|u: int, v: int|
                    #[trigger] has_edge(g, u, v) && r.spec_index_of(u) == i && r.spec_index_of(v) == j) by {
                assert(r.spec_num_nodes() == r.graph.spec_num_nodes());
                assert(r.spec_out(i) == r.graph.spec_out(i));
                assert(has_edge(&r, i, j) == has_edge(&r.graph, i, j));
                if i != j && exists|u: int, v: int| #[trigger] has_edge(g, u, v) && r.spec_index_of(u) == i && r.spec_index_of(v) == j {
                    let (a, b) = choose|a: int, b: int| #[trigger] has_edge(g, a, b) && r.spec_index_of(a) == i && r.spec_index_of(b) == j;
                    assert(a < n);
                }
            }
        }
        r
    }

    /// The number of parts.
    pub fn num_components(&self) -> (r: usize)
        ensures
            r == self.spec_parts().len(),
    {
        self.sets.len()
    }

    /// All the parts.
    pub fn parts(&self) -> (r: &Vec<Vec<usize>>)
        ensures
            views(r@) == self.spec_parts(),
    {
        &self.sets
    }

    /// The part with index `i`.
    pub fn part(&self, i: usize) -> (r: &Vec<usize>)
        requires
            i < self.spec_parts().len(),
        ensures
            r@ == self.spec_parts()[i as int],
    {
        &self.sets[i]
    }

    /// The index of the part that holds the node `u`.
    pub fn index_of(&self, u: usize) -> (r: usize)
        requires
            self.wf(),
            u < self.spec_size(),
        ensures
            r == self.spec_index_of(u as int),
            self.spec_parts()[r as int].contains(u),
    {
        proof {
            assert(0 <= self.spec_index_of(u as int) < self.sets@.len());
        }
        self.node_map[u]
    }

    /// The parts, given up by the partition.
    pub fn into_parts(self) -> (r: Vec<Vec<usize>>)
        ensures
            views(r@) == self.spec_parts(),
    {
        self.sets
    }
}

impl Graph for Partition {
    closed spec fn spec_num_nodes(&self) -> nat {
        self.graph.spec_num_nodes()
    }

    closed spec fn spec_out(&self, u: int) -> Seq<usize> {
        self.graph.spec_out(u)
    }

    closed spec fn spec_in(&self, u: int) -> Seq<usize> {
        self.graph.spec_in(u)
    }

    fn num_nodes(&self) -> (r: usize) {
        self.graph.num_nodes()
    }

    fn out_edges(&self, u: usize) -> (r: Vec<usize>) {
        self.graph.out_edges(u)
    }

    fn in_edges(&self, u: usize) -> (r: Vec<usize>) {
        self.graph.in_edges(u)
    }
}

} // verus!
