//! Graggles decomposed into chains, for example for prettier rendering.
//!
//! Most graggles seen in practice are not general directed graphs: they are made of long
//! "chains", runs of nodes each of which has exactly one in-neighbor (the one before it) and
//! one out-neighbor (the one after it). A totally ordered graggle (a file) is one long chain.
//! A `ChainGraggle` is the same graph with every chain collapsed into one node.

use vstd::prelude::*;

use crate::components::{has_in_edge, mirrored, strongly_connected, tarjan};
use crate::graggle_graph::IdGraph;
use crate::graph::{has_edge, is_path, valid_graph, Graph};
use crate::ids::NodeId;
use crate::multimap::MMap;
use crate::partition::{is_partition, views, Partition};
use crate::reach::{lemma_distinct_below, reaches};

verus! {

broadcast use vstd::laws_cmp::group_laws_cmp;

/// `u` has at most one out-edge and at most one in-edge, so that it may lie inside a chain.
pub open spec fn on_chain<G: Graph>(g: &G, u: int) -> bool {
    g.spec_out(u).len() <= 1 && g.spec_in(u).len() <= 1
}

/// No node but `u` itself is strongly connected to `u`: its strongly connected component has
/// only the one node.
pub open spec fn alone<G: Graph>(g: &G, u: int) -> bool {
    forall|v: int| 0 <= v < g.spec_num_nodes() && #[trigger] strongly_connected(g, u, v) ==> v == u
}

/// `v` follows `u` on a chain: both lie on no cycle through another node, both have at most
/// one edge in and one edge out, and the one edge out of `u` leads to `v`.
pub open spec fn link<G: Graph>(g: &G, u: int, v: int) -> bool {
    &&& 0 <= u < g.spec_num_nodes()
    &&& 0 <= v < g.spec_num_nodes()
    &&& u != v
    &&& alone(g, u)
    &&& alone(g, v)
    &&& on_chain(g, u)
    &&& on_chain(g, v)
    &&& g.spec_out(u).len() == 1
    &&& g.spec_out(u)[0] == v
}

/// Some node is followed on a chain by `v`.
pub open spec fn has_link_into<G: Graph>(g: &G, v: int) -> bool {
    exists|u: int| #[trigger] link(g, u, v)
}

/// `cs` is the decomposition of `g` into chains, and `part[u]` is the index of the chain of
/// the node `u`: the chains partition the nodes, consecutive nodes of a chain are linked,
/// every link joins consecutive nodes of a chain, and a node that lies on a cycle through
/// another node is a chain of its own.
pub open spec fn is_decomposition<G: Graph>(g: &G, cs: Seq<Seq<usize>>, part: Seq<usize>) -> bool {
    let n = g.spec_num_nodes();
    &&& is_partition(cs, n)
    &&& part.len() == n
    &&& forall|u: int| 0 <= u < n ==> #[trigger] part[u] < cs.len() && cs[part[u] as int].contains(u as usize)
    &&& forall|c: int| 0 <= c < cs.len() ==> (#[trigger] cs[c]).len() >= 1
    &&& forall|c: int, i: int|
        0 <= c < cs.len() && 0 <= i < cs[c].len() - 1 ==> link(g, #[trigger] cs[c][i] as int, cs[c][i + 1] as int)
    &&& forall|c: int, i: int|
        0 <= c < cs.len() && 0 <= i < cs[c].len() && !alone(g, #[trigger] cs[c][i] as int) ==> cs[c].len() == 1
    &&& forall|u: int, v: int| #[trigger] link(g, u, v) ==> exists|i: int| #![trigger cs[part[u] as int][i]]
        0 <= i < cs[part[u] as int].len() - 1 && cs[part[u] as int][i] == u && cs[part[u] as int][i + 1] == v
}

/// `sccs` are the strongly connected components of `g`.
pub open spec fn components_of<G: Graph>(g: &G, sccs: &Partition) -> bool {
    &&& sccs.wf()
    &&& sccs.spec_size() == g.spec_num_nodes()
    &&& forall|x: int, y: int| 0 <= x < g.spec_num_nodes() && 0 <= y < g.spec_num_nodes() ==>
        (sccs.spec_index_of(x) == sccs.spec_index_of(y) <==> strongly_connected(g, x, y))
}

/// `next` is what follows `u` on its chain: the node that it links to, or nothing.
pub open spec fn next_ok<G: Graph>(g: &G, u: int, next: Option<usize>) -> bool {
    match next {
        Some(v) => link(g, u, v as int),
        None => forall|v: int| !#[trigger] link(g, u, v),
    }
}

/// The chains built so far, with the chain of each marked node.
spec fn chains_ok<G: Graph>(g: &G, cs: Seq<Seq<usize>>, part: Seq<usize>, marked: Seq<bool>) -> bool {
    let n = g.spec_num_nodes();
    &&& part.len() == n
    &&& marked.len() == n
    &&& forall|c: int, t: int| 0 <= c < cs.len() && 0 <= t < cs[c].len() ==>
        #[trigger] cs[c][t] < n && marked[cs[c][t] as int] && part[cs[c][t] as int] == c
    &&& forall|c: int| 0 <= c < cs.len() ==> (#[trigger] cs[c]).len() >= 1 && cs[c].no_duplicates()
    &&& forall|y: int| 0 <= y < n && #[trigger] marked[y] ==> part[y] < cs.len() && cs[part[y] as int].contains(y as usize)
    &&& forall|c: int, t: int| 0 <= c < cs.len() && 0 <= t < cs[c].len() - 1 ==>
        link(g, #[trigger] cs[c][t] as int, cs[c][t + 1] as int)
    &&& forall|c: int| 0 <= c < cs.len() ==> !alone(g, #[trigger] cs[c][0] as int) || !has_link_into(g, cs[c][0] as int)
    &&& forall|c: int, t: int| 0 <= c < cs.len() && 0 <= t < cs[c].len() && !alone(g, #[trigger] cs[c][t] as int) ==> cs[c].len() == 1
}

/// Marks are passed on along links.
spec fn closed_under_links<G: Graph>(g: &G, marked: Seq<bool>) -> bool {
    forall|a: int, b: int| #[trigger] link(g, a, b) && marked[a] ==> marked[b]
}

/// Does `u` have at most one edge in and one edge out?
fn is_on_chain<G: Graph>(g: &G, u: usize) -> (r: bool)
    requires
        u < g.spec_num_nodes(),
    ensures
        r == on_chain(g, u as int),
{
    g.out_edges(u).len() <= 1 && g.in_edges(u).len() <= 1
}

/// Is `u` alone in its strongly connected component?
fn is_alone<G: Graph>(g: &G, sccs: &Partition, u: usize) -> (r: bool)
    requires
        valid_graph(g),
        components_of(g, sccs),
        u < g.spec_num_nodes(),
    ensures
        r == alone(g, u as int),
{
    proof {
        sccs.lemma_wf();
        lemma_alone_part(g, sccs, u as int);
    }
    let i = sccs.index_of(u);
    sccs.part(i).len() == 1
}

/// The node that follows `u` on its chain, if there is one.
fn next_on_chain<G: Graph>(g: &G, sccs: &Partition, u: usize) -> (r: Option<usize>)
    requires
        valid_graph(g),
        components_of(g, sccs),
        u < g.spec_num_nodes(),
    ensures
        next_ok(g, u as int, r),
{
    if !is_alone(g, sccs, u) || !is_on_chain(g, u) {
        return None;
    }
    let outs = g.out_edges(u);
    if outs.len() != 1 {
        return None;
    }
    let v = outs[0];
    proof {
        assert(g.spec_out(u as int)[0] < g.spec_num_nodes());
    }
    if v != u && is_alone(g, sccs, v) && is_on_chain(g, v) {
        Some(v)
    } else {
        None
    }
}

/// A link is an edge.
proof fn lemma_link_edge<G: Graph>(g: &G, u: int, v: int)
    requires
        link(g, u, v),
    ensures
        has_edge(g, u, v),
{
    assert(0 <= 0 < g.spec_out(u).len() && g.spec_out(u)[0] == v);
}

/// At most one node is followed on a chain by `v`.
proof fn lemma_link_pred_unique<G: Graph>(g: &G, a: int, b: int, v: int)
    requires
        mirrored(g),
        link(g, a, v),
        link(g, b, v),
    ensures
        a == b,
{
    lemma_link_edge(g, a, v);
    lemma_link_edge(g, b, v);
    assert(has_in_edge(g, v, a));
    assert(has_in_edge(g, v, b));
    let ka = choose|k: int| 0 <= k < g.spec_in(v).len() && g.spec_in(v)[k] == a;
    let kb = choose|k: int| 0 <= k < g.spec_in(v).len() && g.spec_in(v)[k] == b;
}

/// A node is alone exactly when its strongly connected component has one node.
proof fn lemma_alone_part<G: Graph>(g: &G, sccs: &Partition, u: int)
    requires
        valid_graph(g),
        sccs.wf(),
        sccs.spec_size() == g.spec_num_nodes(),
        forall|x: int, y: int| 0 <= x < g.spec_num_nodes() && 0 <= y < g.spec_num_nodes() ==>
            (sccs.spec_index_of(x) == sccs.spec_index_of(y) <==> strongly_connected(g, x, y)),
        0 <= u < g.spec_num_nodes(),
    ensures
        alone(g, u) <==> sccs.spec_parts()[sccs.spec_index_of(u)].len() == 1,
{
    sccs.lemma_wf();
    let n = g.spec_num_nodes();
    let i = sccs.spec_index_of(u);
    let p = sccs.spec_parts()[i];
    assert(p.contains(u as usize));
    if alone(g, u) {
        if p.len() != 1 {
            let m = choose|m: int| 0 <= m < p.len() && p[m] == u as usize;
            let m2 = if m == 0 { 1int } else { 0int };
            let w = p[m2];
            assert(p.no_duplicates());
            assert(w != u);
            assert(w < n);
            assert(sccs.spec_parts()[sccs.spec_index_of(w as int)].contains(w));
            assert(p.contains(w));
            assert(sccs.spec_index_of(w as int) == i);
            assert(strongly_connected(g, u, w as int));
        }
    } else {
        let v = choose|v: int| 0 <= v < n && #[trigger] strongly_connected(g, u, v) && v != u;
        assert(sccs.spec_index_of(v) == i);
        assert(sccs.spec_parts()[sccs.spec_index_of(v)].contains(v as usize));
        if p.len() == 1 {
            let m = choose|m: int| 0 <= m < p.len() && p[m] == u as usize;
            let m2 = choose|m: int| 0 <= m < p.len() && p[m] == v as usize;
        }
    }
}

/// A walk backwards along links through nodes that are not marked: each node is followed on
/// a chain by the one before it in the walk.
proof fn lemma_back_walk<G: Graph>(g: &G, marked: Seq<bool>, x: int, k: nat) -> (w: Seq<usize>)
    requires
        marked.len() == g.spec_num_nodes(),
        0 <= x < g.spec_num_nodes(),
        !marked[x],
        forall|y: int| 0 <= y < g.spec_num_nodes() && !alone(g, y) ==> #[trigger] marked[y],
        forall|y: int| 0 <= y < g.spec_num_nodes() && !has_link_into(g, y) ==> #[trigger] marked[y],
        forall|a: int, b: int| #[trigger] link(g, a, b) && marked[a] ==> marked[b],
    ensures
        w.len() == k + 1,
        w[0] == x,
        forall|i: int| 0 <= i < w.len() ==> #[trigger] w[i] < g.spec_num_nodes() && !marked[w[i] as int],
        forall|i: int| 0 <= i < k ==> #[trigger] link(g, w[i + 1] as int, w[i] as int),
    decreases k,
{
    if k == 0 {
        seq![x as usize]
    } else {
        let w0 = lemma_back_walk(g, marked, x, (k - 1) as nat);
        let y = w0.last() as int;
        assert(w0[k - 1] == y);
        assert(!marked[y]);
        assert(has_link_into(g, y));
        let p = choose|p: int| #[trigger] link(g, p, y);
        assert(!marked[p]);
        let w = w0.push(p as usize);
        assert forall|i: int| 0 <= i < k implies #[trigger] link(g, w[i + 1] as int, w[i] as int) by {
            if i < k - 1 {
                assert(w[i + 1] == w0[i + 1]);
                assert(w[i] == w0[i]);
            } else {
                assert(w[i + 1] == p);
                assert(w[i] == y);
            }
        }
        assert forall|i: int| 0 <= i < w.len() implies #[trigger] w[i] < g.spec_num_nodes() && !marked[w[i] as int] by {
            if i < w0.len() {
                assert(w[i] == w0[i]);
            }
        }
        w
    }
}

/// Once the nodes on cycles and the nodes that nothing links into are marked, and marks are
/// passed on along links, every node is marked: links never form a cycle.
#[verifier::spinoff_prover]
#[verifier::rlimit(40)]
proof fn lemma_all_marked<G: Graph>(g: &G, marked: Seq<bool>)
    requires
        valid_graph(g),
        marked.len() == g.spec_num_nodes(),
        forall|y: int| 0 <= y < g.spec_num_nodes() && !alone(g, y) ==> #[trigger] marked[y],
        forall|y: int| 0 <= y < g.spec_num_nodes() && !has_link_into(g, y) ==> #[trigger] marked[y],
        forall|a: int, b: int| #[trigger] link(g, a, b) && marked[a] ==> marked[b],
    ensures
        forall|y: int| 0 <= y < g.spec_num_nodes() ==> #[trigger] marked[y],
{
    let n = g.spec_num_nodes();
    assert forall|x: int| 0 <= x < n implies #[trigger] marked[x] by {
        if !marked[x] {
            let w = lemma_back_walk(g, marked, x, n);
            if w.no_duplicates() {
                lemma_distinct_below(w, n);
            }
            let (i, j) = choose|i: int, j: int| 0 <= i < w.len() && 0 <= j < w.len() && i != j && w[i] == w[j];
            let (a, b) = if i < j { (i, j) } else { (j, i) };
            // Following the walk forwards from `w[b]`, which is `w[a]`, leads back to `w[a + 1]`.
            assert(link(g, w[a + 1] as int, w[a] as int));
            assert(b != a + 1);
            let back = Seq::new((b - a) as nat, |t: int| w[b - t]);
            assert(back.len() >= 2);
            assert forall|t: int| 0 <= t < back.len() implies #[trigger] back[t] < n by {
                assert(w[b - t] < n);
            }
            assert forall|t: int| 0 <= t < back.len() - 1 implies has_edge(g, #[trigger] back[t] as int, back[t + 1] as int) by {
                assert(link(g, w[(b - t - 1) + 1] as int, w[b - t - 1] as int));
                lemma_link_edge(g, w[b - t] as int, w[b - t - 1] as int);
            }
            assert(is_path(g, back));
            assert(back[0] == w[a]);
            assert(back.last() == w[a + 1]);
            assert(reaches(g, w[a] as int, w[a + 1] as int));
            let fwd = seq![w[a + 1], w[a]];
            lemma_link_edge(g, w[a + 1] as int, w[a] as int);
            assert(is_path(g, fwd));
            assert(reaches(g, w[a + 1] as int, w[a] as int));
            assert(strongly_connected(g, w[a] as int, w[a + 1] as int));
            assert(alone(g, w[a] as int));
        }
    }
}

/// Decomposes `g` into chains: returns the chains, as lists of nodes, and the index of the
/// chain of each node. The nodes that lie on a cycle through another node come first, each a
/// chain of its own, in the order of their strongly connected components.
pub fn decompose<G: Graph>(g: &G, sccs: &Partition) -> (r: (Vec<Vec<usize>>, Vec<usize>))
    requires
        valid_graph(g),
        mirrored(g),
        components_of(g, sccs),
    ensures
        is_decomposition(g, views(r.0@), r.1@),
{
    let n = g.num_nodes();
    proof {
        sccs.lemma_wf();
    }
    let mut succ: Vec<Option<usize>> = Vec::new();
    let mut has_pred: Vec<bool> = Vec::new();
    let mut part: Vec<usize> = Vec::new();
    let mut marked: Vec<bool> = Vec::new();
    let mut u: usize = 0;
    while u < n
        invariant
            valid_graph(g),
            components_of(g, sccs),
            n == g.spec_num_nodes(),
            u <= n,
            succ@.len() == u,
            has_pred@.len() == u,
            part@.len() == u,
            marked@.len() == u,
            forall|x: int| 0 <= x < u ==> next_ok(g, x, #[trigger] succ@[x]),
            forall|x: int| 0 <= x < u ==> !#[trigger] has_pred@[x],
            forall|x: int| 0 <= x < u ==> !#[trigger] marked@[x],
        decreases n - u,
    {
        succ.push(next_on_chain(g, sccs, u));
        has_pred.push(false);
        part.push(0);
        marked.push(false);
        u = u + 1;
    }
    let mut u: usize = 0;
    while u < n
        invariant
            valid_graph(g),
            n == g.spec_num_nodes(),
            u <= n,
            succ@.len() == n,
            has_pred@.len() == n,
            forall|x: int| 0 <= x < n ==> next_ok(g, x, #[trigger] succ@[x]),
            forall|y: int| 0 <= y < n ==> (#[trigger] has_pred@[y] <==> exists|x: int| 0 <= x < u && #[trigger] link(g, x, y)),
            part@.len() == n,
            marked@.len() == n,
            forall|x: int| 0 <= x < n ==> !#[trigger] marked@[x],
        decreases n - u,
    {
        match succ[u] {
            Some(v) => {
                has_pred.set(v, true);
                proof {
                    assert forall|y: int| 0 <= y < n implies (#[trigger] has_pred@[y] <==> exists|x: int| 0 <= x < u + 1 && #[trigger] link(g, x, y)) by {
                        if exists|x: int| 0 <= x < u + 1 && #[trigger] link(g, x, y) {
                            let x = choose|x: int| 0 <= x < u + 1 && #[trigger] link(g, x, y);
                            if x == u {
                                assert(y == v);
                            }
                        }
                    }
                }
            },
            None => {
                proof {
                    assert forall|y: int| 0 <= y < n implies (#[trigger] has_pred@[y] <==> exists|x: int| 0 <= x < u + 1 && #[trigger] link(g, x, y)) by {
                        if exists|x: int| 0 <= x < u + 1 && #[trigger] link(g, x, y) {
                            let x = choose|x: int| 0 <= x < u + 1 && #[trigger] link(g, x, y);
                            assert(x != u);
                        }
                    }
                }
            },
        }
        u = u + 1;
    }
    proof {
        assert forall|y: int| 0 <= y < n implies (#[trigger] has_pred@[y] <==> has_link_into(g, y)) by {
            if has_link_into(g, y) {
                let x = choose|x: int| #[trigger] link(g, x, y);
                assert(0 <= x < n);
            }
        }
    }
    // The nodes of the strongly connected components with more than one node.
    let mut chains: Vec<Vec<usize>> = Vec::new();
    let parts = sccs.parts();
    let mut i: usize = 0;
    while i < parts.len()
        invariant
            valid_graph(g),
            components_of(g, sccs),
            is_partition(sccs.spec_parts(), n as nat),
            n == g.spec_num_nodes(),
            views(parts@) == sccs.spec_parts(),
            forall|y: int| 0 <= y < n ==> 0 <= #[trigger] sccs.spec_index_of(y) < sccs.spec_parts().len()
                && sccs.spec_parts()[sccs.spec_index_of(y)].contains(y as usize),
            i <= parts.len(),
            chains_ok(g, views(chains@), part@, marked@),
            closed_under_links(g, marked@),
            forall|y: int| 0 <= y < n ==> (#[trigger] marked@[y] <==> (sccs.spec_index_of(y) < i
                && sccs.spec_parts()[sccs.spec_index_of(y)].len() > 1)),
        decreases parts.len() - i,
    {
        let p = &parts[i];
        proof {
            assert(p@ == sccs.spec_parts()[i as int]);
        }
        if p.len() > 1 {
            let mut k: usize = 0;
            while k < p.len()
                invariant
                    valid_graph(g),
                    components_of(g, sccs),
                    is_partition(sccs.spec_parts(), n as nat),
                    n == g.spec_num_nodes(),
                    forall|y: int| 0 <= y < n ==> 0 <= #[trigger] sccs.spec_index_of(y) < sccs.spec_parts().len()
                        && sccs.spec_parts()[sccs.spec_index_of(y)].contains(y as usize),
                    i < sccs.spec_parts().len(),
                    p@ == sccs.spec_parts()[i as int],
                    p@.len() > 1,
                    k <= p@.len(),
                    chains_ok(g, views(chains@), part@, marked@),
                    closed_under_links(g, marked@),
                    forall|y: int| 0 <= y < n ==> (#[trigger] marked@[y] <==> ((sccs.spec_index_of(y) < i
                        && sccs.spec_parts()[sccs.spec_index_of(y)].len() > 1) || (sccs.spec_index_of(y) == i
                        && p@.take(k as int).contains(y as usize)))),
                decreases p@.len() - k,
            {
                let x = p[k];
                proof {
                    assert(x < n);
                    assert(sccs.spec_parts()[sccs.spec_index_of(x as int)].contains(x));
                    assert(p@.contains(x));
                    assert(sccs.spec_index_of(x as int) == i);
                    assert(!p@.take(k as int).contains(x)) by {
                        if p@.take(k as int).contains(x) {
                            let m = choose|m: int| 0 <= m < k && p@.take(k as int)[m] == x;
                            assert(p@[m] == p@[k as int]);
                        }
                    }
                    assert(!marked@[x as int]);
                    lemma_alone_part(g, sccs, x as int);
                    assert(!alone(g, x as int));
                }
                let ghost cs0 = views(chains@);
                let ghost m0 = marked@;
                let ghost p0 = part@;
                let c = chains.len();
                let mut one: Vec<usize> = Vec::new();
                one.push(x);
                chains.push(one);
                part.set(x, c);
                marked.set(x, true);
                proof {
                    let cs = views(chains@);
                    assert(cs =~= cs0.push(seq![x]));
                    assert forall|c2: int, t: int| 0 <= c2 < cs.len() && 0 <= t < cs[c2].len() implies
                        #[trigger] cs[c2][t] < n && marked@[cs[c2][t] as int] && part@[cs[c2][t] as int] == c2 by {
                        if c2 < cs0.len() {
                            assert(cs[c2] == cs0[c2]);
                            assert(m0[cs0[c2][t] as int]);
                        }
                    }
                    assert forall|y: int| 0 <= y < n && #[trigger] marked@[y] implies part@[y] < cs.len()
                        && cs[part@[y] as int].contains(y as usize) by {
                        if y != x {
                            assert(m0[y]);
                            assert(cs[p0[y] as int] == cs0[p0[y] as int]);
                        } else {
                            assert(cs[c as int][0] == x);
                        }
                    }
                    assert forall|c2: int| 0 <= c2 < cs.len() implies !alone(g, #[trigger] cs[c2][0] as int)
                        || !has_link_into(g, cs[c2][0] as int) by {
                        if c2 < cs0.len() {
                            assert(cs[c2] == cs0[c2]);
                        }
                    }
                    assert forall|c2: int, t: int| 0 <= c2 < cs.len() && 0 <= t < cs[c2].len() - 1 implies
                        link(g, #[trigger] cs[c2][t] as int, cs[c2][t + 1] as int) by {
                        assert(cs[c2] == cs0[c2]);
                    }
                    assert forall|c2: int, t: int| 0 <= c2 < cs.len() && 0 <= t < cs[c2].len()
                        && !alone(g, #[trigger] cs[c2][t] as int) implies cs[c2].len() == 1 by {
                        if c2 < cs0.len() {
                            assert(cs[c2] == cs0[c2]);
                        }
                    }
                    assert forall|c2: int| 0 <= c2 < cs.len() implies (#[trigger] cs[c2]).len() >= 1 && cs[c2].no_duplicates() by {
                        if c2 < cs0.len() {
                            assert(cs[c2] == cs0[c2]);
                        }
                    }
                    assert(chains_ok(g, cs, part@, marked@));
                    assert forall|a: int, b: int| #[trigger] link(g, a, b) && marked@[a] implies marked@[b] by {
                        if a == x {
                            assert(!alone(g, a));
                        } else {
                            assert(m0[a]);
                            lemma_alone_part(g, sccs, a);
                        }
                    }
                    assert(p@.take(k + 1) =~= p@.take(k as int).push(x));
                    assert forall|y: int| 0 <= y < n implies (#[trigger] marked@[y] <==> ((sccs.spec_index_of(y) < i
                        && sccs.spec_parts()[sccs.spec_index_of(y)].len() > 1) || (sccs.spec_index_of(y) == i
                        && p@.take(k + 1).contains(y as usize)))) by {
                        if y == x {
                            assert(p@.take(k + 1)[k as int] == x);
                        } else {
                            assert(marked@[y] == m0[y]);
                            if p@.take(k + 1).contains(y as usize) {
                                let pk = p@.take(k + 1);
                                let m = choose|m: int| 0 <= m < pk.len() && pk[m] == y as usize;
                                assert(m != k);
                                assert(p@.take(k as int)[m] == y);
                            }
                            if p@.take(k as int).contains(y as usize) {
                                let pk = p@.take(k as int);
                                let m = choose|m: int| 0 <= m < pk.len() && pk[m] == y as usize;
                                assert(p@.take(k + 1)[m] == y);
                            }
                        }
                    }
                }
                k = k + 1;
            }
            proof {
                assert(p@.take(p@.len() as int) =~= p@);
            }
        }
        i = i + 1;
    }
    proof {
        assert forall|y: int| 0 <= y < n && !alone(g, y) implies #[trigger] marked@[y] by {
            lemma_alone_part(g, sccs, y);
            assert(sccs.spec_parts()[sccs.spec_index_of(y)].contains(y as usize));
        }
    }
    // The chains of the other nodes, each from a node that nothing links into.
    let mut u: usize = 0;
    while u < n
        invariant
            valid_graph(g),
            mirrored(g),
            n == g.spec_num_nodes(),
            u <= n,
            succ@.len() == n,
            has_pred@.len() == n,
            forall|x: int| 0 <= x < n ==> next_ok(g, x, #[trigger] succ@[x]),
            forall|y: int| 0 <= y < n ==> (#[trigger] has_pred@[y] <==> has_link_into(g, y)),
            chains_ok(g, views(chains@), part@, marked@),
            closed_under_links(g, marked@),
            forall|y: int| 0 <= y < n && !alone(g, y) ==> #[trigger] marked@[y],
            forall|y: int| 0 <= y < u && !has_link_into(g, y) ==> #[trigger] marked@[y],
        decreases n - u,
    {
        if !marked[u] && !has_pred[u] {
            let ghost cs0 = views(chains@);
            let ghost m0 = marked@;
            let c = chains.len();
            let mut chain: Vec<usize> = Vec::new();
            chain.push(u);
            part.set(u, c);
            marked.set(u, true);
            let mut cur = u;
            let mut go = true;
            proof {
                let cs = cs0.push(chain@);
                assert forall|c2: int, t: int| 0 <= c2 < cs.len() && 0 <= t < cs[c2].len() implies
                    #[trigger] cs[c2][t] < n && marked@[cs[c2][t] as int] && part@[cs[c2][t] as int] == c2 by {
                    if c2 < cs0.len() {
                        assert(m0[cs0[c2][t] as int]);
                    }
                }
                assert forall|y: int| 0 <= y < n && #[trigger] marked@[y] implies part@[y] < cs.len()
                    && cs[part@[y] as int].contains(y as usize) by {
                    if y != u {
                        assert(m0[y]);
                    } else {
                        assert(cs[c as int][0] == u);
                    }
                }
                assert(chains_ok(g, cs, part@, marked@));
            }
            while go
                invariant
                    valid_graph(g),
                    mirrored(g),
                    n == g.spec_num_nodes(),
                    u < n,
                    c == cs0.len(),
                    cs0 == views(chains@),
                    succ@.len() == n,
                    forall|x: int| 0 <= x < n ==> next_ok(g, x, #[trigger] succ@[x]),
                    chain@.len() >= 1,
                    chain@[0] == u,
                    cur == chain@.last(),
                    cur < n,
                    chain@.len() <= n,
                    chains_ok(g, cs0.push(chain@), part@, marked@),
                    forall|a: int, b: int| #[trigger] link(g, a, b) && marked@[a] && a != cur ==> marked@[b],
                    !go ==> (succ@[cur as int] matches Some(v) ==> marked@[v as int]),
                    forall|y: int| 0 <= y < n && #[trigger] m0[y] ==> marked@[y],
                    m0.len() == n,
                decreases (n - chain@.len()) * 2 + (if go { 1int } else { 0int }),
            {
                match succ[cur] {
                    Some(v) => {
                        if !marked[v] {
                            let ghost ch0 = chain@;
                            let ghost mm = marked@;
                            let ghost pp = part@;
                            proof {
                                assert(link(g, cur as int, v as int));
                                assert(v < n);
                                assert(!ch0.contains(v)) by {
                                    if ch0.contains(v) {
                                        let t = choose|t: int| 0 <= t < ch0.len() && ch0[t] == v;
                                        assert(cs0.push(ch0)[c as int][t] == v);
                                    }
                                }
                            }
                            chain.push(v);
                            part.set(v, c);
                            marked.set(v, true);
                            cur = v;
                            proof {
                                let cs = cs0.push(chain@);
                                let csp = cs0.push(ch0);
                                assert forall|c2: int, t: int| 0 <= c2 < cs.len() && 0 <= t < cs[c2].len() implies
                                    #[trigger] cs[c2][t] < n && marked@[cs[c2][t] as int] && part@[cs[c2][t] as int] == c2 by {
                                    if c2 < cs0.len() {
                                        assert(cs[c2] == csp[c2]);
                                        assert(mm[csp[c2][t] as int]);
                                    } else if t < ch0.len() {
                                        assert(cs[c2][t] == csp[c2][t]);
                                        assert(mm[csp[c2][t] as int]);
                                    }
                                }
                                assert forall|y: int| 0 <= y < n && #[trigger] marked@[y] implies part@[y] < cs.len()
                                    && cs[part@[y] as int].contains(y as usize) by {
                                    if y != v {
                                        assert(mm[y]);
                                        assert(csp[pp[y] as int].contains(y as usize));
                                        let t = choose|t: int| 0 <= t < csp[pp[y] as int].len() && csp[pp[y] as int][t] == y as usize;
                                        assert(cs[pp[y] as int][t] == y);
                                    } else {
                                        assert(cs[c as int][ch0.len() as int] == v);
                                    }
                                }
                                assert forall|c2: int, t: int| 0 <= c2 < cs.len() && 0 <= t < cs[c2].len() - 1 implies
                                    link(g, #[trigger] cs[c2][t] as int, cs[c2][t + 1] as int) by {
                                    if c2 < cs0.len() {
                                        assert(cs[c2] == csp[c2]);
                                    } else if t < ch0.len() - 1 {
                                        assert(cs[c2][t] == csp[c2][t]);
                                        assert(cs[c2][t + 1] == csp[c2][t + 1]);
                                    } else {
                                        assert(cs[c2][t] == ch0.last());
                                    }
                                }
                                assert forall|c2: int| 0 <= c2 < cs.len() implies !alone(g, #[trigger] cs[c2][0] as int)
                                    || !has_link_into(g, cs[c2][0] as int) by {
                                    assert(cs[c2][0] == csp[c2][0]);
                                }
                                assert forall|c2: int, t: int| 0 <= c2 < cs.len() && 0 <= t < cs[c2].len()
                                    && !alone(g, #[trigger] cs[c2][t] as int) implies cs[c2].len() == 1 by {
                                    if c2 < cs0.len() {
                                        assert(cs[c2] == csp[c2]);
                                    } else if t < ch0.len() {
                                        assert(cs[c2][t] == csp[c2][t]);
                                    }
                                }
                                assert forall|c2: int| 0 <= c2 < cs.len() implies (#[trigger] cs[c2]).len() >= 1
                                    && cs[c2].no_duplicates() by {
                                    if c2 < cs0.len() {
                                        assert(cs[c2] == csp[c2]);
                                    } else {
                                        assert(csp[c2] == ch0);
                                        assert forall|a: int, b: int| 0 <= a < chain@.len() && 0 <= b < chain@.len() && a != b
                                            implies chain@[a] != chain@[b] by {
                                            if a < ch0.len() && b < ch0.len() {
                                                assert(chain@[a] == ch0[a]);
                                                assert(chain@[b] == ch0[b]);
                                            } else if a < ch0.len() {
                                                assert(chain@[a] == ch0[a]);
                                                assert(ch0.contains(ch0[a]));
                                            } else {
                                                assert(chain@[b] == ch0[b]);
                                                assert(ch0.contains(ch0[b]));
                                            }
                                        }
                                    }
                                }
                                assert(chains_ok(g, cs, part@, marked@));
                                assert forall|a: int, b: int| #[trigger] link(g, a, b) && marked@[a] && a != cur implies marked@[b] by {
                                    if a == ch0.last() {
                                        assert(b == v);
                                    } else if a != v {
                                        assert(mm[a]);
                                    }
                                }
                                assert forall|t: int| 0 <= t < chain@.len() implies #[trigger] chain@[t] < n by {
                                    assert(cs[c as int][t] == chain@[t]);
                                }
                                assert(chain@.no_duplicates()) by {
                                    assert(cs[c as int] == chain@);
                                }
                                lemma_distinct_below(chain@, n as nat);
                            }
                        } else {
                            go = false;
                        }
                    },
                    None => {
                        go = false;
                    },
                }
            }
            let ghost ch = chain@;
            chains.push(chain);
            proof {
                assert(views(chains@) =~= cs0.push(ch));
                assert forall|a: int, b: int| #[trigger] link(g, a, b) && marked@[a] implies marked@[b] by {
                    if a == cur {
                        assert(succ@[cur as int] is Some);
                    }
                }
                assert forall|y: int| 0 <= y < n && !alone(g, y) implies #[trigger] marked@[y] by {
                    assert(m0[y]);
                }
                assert forall|y: int| 0 <= y < u + 1 && !has_link_into(g, y) implies #[trigger] marked@[y] by {
                    if y < u {
                        assert(m0[y]);
                    } else {
                        assert(ch[0] == u);
                        assert(views(chains@)[c as int][0] == u);
                    }
                }
            }
        }
        u = u + 1;
    }
    proof {
        lemma_all_marked(g, marked@);
    }
    let ghost cs = views(chains@);
    proof {
        assert(is_partition(cs, n as nat)) by {
            assert forall|y: usize| y < n implies #[trigger] crate::partition::covered(cs, y) by {
                assert(marked@[y as int]);
                assert(cs[part@[y as int] as int].contains(y));
            }
            assert forall|i1: int, j1: int, y: usize| 0 <= i1 < cs.len() && 0 <= j1 < cs.len()
                && #[trigger] cs[i1].contains(y) && #[trigger] cs[j1].contains(y) implies i1 == j1 by {
                let t1 = choose|t: int| 0 <= t < cs[i1].len() && cs[i1][t] == y;
                let t2 = choose|t: int| 0 <= t < cs[j1].len() && cs[j1][t] == y;
                assert(part@[cs[i1][t1] as int] == i1);
                assert(part@[cs[j1][t2] as int] == j1);
            }
        }
        assert forall|a: int, b: int| #[trigger] link(g, a, b) implies exists|t: int| #![trigger cs[part@[a] as int][t]]
            0 <= t < cs[part@[a] as int].len() - 1 && cs[part@[a] as int][t] == a && cs[part@[a] as int][t + 1] == b by {
            assert(marked@[b]);
            let c = part@[b] as int;
            let t = choose|t: int| 0 <= t < cs[c].len() && cs[c][t] == b as usize;
            if t == 0 {
                assert(!alone(g, cs[c][0] as int) || !has_link_into(g, cs[c][0] as int));
            }
            assert(link(g, cs[c][t - 1] as int, cs[c][(t - 1) + 1] as int));
            lemma_link_pred_unique(g, a, cs[c][t - 1] as int, b);
            assert(part@[cs[c][t - 1] as int] == c);
            assert(cs[part@[a] as int][t - 1] == a);
        }
        assert forall|y: int| 0 <= y < n implies #[trigger] part@[y] < cs.len() && cs[part@[y] as int].contains(y as usize) by {
            assert(marked@[y]);
        }
        assert forall|c: int| 0 <= c < cs.len() implies (#[trigger] cs[c]).len() >= 1 by {}
        assert forall|c: int, t: int| 0 <= c < cs.len() && 0 <= t < cs[c].len() - 1 implies
            link(g, #[trigger] cs[c][t] as int, cs[c][t + 1] as int) by {}
        assert forall|c: int, t: int| 0 <= c < cs.len() && 0 <= t < cs[c].len() && !alone(g, #[trigger] cs[c][t] as int)
            implies cs[c].len() == 1 by {}
    }
    (chains, part)
}

/// There is an edge from a node of the chain `a` to a node of another chain `b`.
pub open spec fn chain_edge<G: Graph>(g: &G, part: Seq<usize>, a: usize, b: usize) -> bool {
    &&& a != b
    &&& exists|u: int, v: int| #[trigger] has_edge(g, u, v) && part[u] == a && part[v] == b
}

/// The same, counting only the edges out of the nodes before `u` and the first `j` edges out
/// of `u`.
spec fn chain_edge_upto<G: Graph>(g: &G, part: Seq<usize>, a: usize, b: usize, u: int, j: int) -> bool {
    &&& a != b
    &&& exists|x: int, k: int| 0 <= x < g.spec_num_nodes() && 0 <= k < g.spec_out(x).len()
        && (x < u || (x == u && k < j)) && part[x] == a && part[#[trigger] g.spec_out(x)[k] as int] == b
}

/// The edges between the chains: for each edge of `g` between two chains, the index of the
/// second is associated with the index of the first.
fn chain_edges<G: Graph>(g: &G, part: &Vec<usize>) -> (r: MMap<usize, usize>)
    requires
        valid_graph(g),
        part@.len() == g.spec_num_nodes(),
    ensures
        forall|a: usize| #[trigger] r.values(a) == Set::new(|b: usize| chain_edge(g, part@, a, b)),
{
    let n = g.num_nodes();
    let mut edges: MMap<usize, usize> = MMap::new();
    let mut u: usize = 0;
    while u < n
        invariant
            valid_graph(g),
            n == g.spec_num_nodes(),
            part@.len() == n,
            u <= n,
            forall|a: usize| #[trigger] edges.values(a) == Set::new(|b: usize| chain_edge_upto(g, part@, a, b, u as int, 0)),
        decreases n - u,
    {
        let outs = g.out_edges(u);
        let mut j: usize = 0;
        while j < outs.len()
            invariant
                valid_graph(g),
                n == g.spec_num_nodes(),
                part@.len() == n,
                u < n,
                j <= outs@.len(),
                outs@ == g.spec_out(u as int),
                forall|a: usize| #[trigger] edges.values(a) == Set::new(|b: usize| chain_edge_upto(g, part@, a, b, u as int, j as int)),
            decreases outs@.len() - j,
        {
            let v = outs[j];
            proof {
                assert(g.spec_out(u as int)[j as int] < n);
            }
            let a = part[u];
            let b = part[v];
            let ghost e0 = edges;
            if a != b {
                edges.insert(a, b);
            }
            proof {
                assert forall|a2: usize| #[trigger] edges.values(a2) == Set::new(|b2: usize| chain_edge_upto(g, part@, a2, b2, u as int, j + 1)) by {
                    assert forall|b2: usize| #[trigger] edges.values(a2).contains(b2) <==> chain_edge_upto(g, part@, a2, b2, u as int, j + 1) by {
                        if chain_edge_upto(g, part@, a2, b2, u as int, j + 1) {
                            let (x, k) = choose|x: int, k: int| 0 <= x < g.spec_num_nodes() && 0 <= k < g.spec_out(x).len()
                                && (x < u || (x == u && k < j + 1)) && part@[x] == a2 && part@[#[trigger] g.spec_out(x)[k] as int] == b2;
                            if !(x == u && k == j) {
                                assert(chain_edge_upto(g, part@, a2, b2, u as int, j as int));
                            }
                        }
                        if e0.values(a2).contains(b2) {
                            assert(chain_edge_upto(g, part@, a2, b2, u as int, j as int));
                            let (x, k) = choose|x: int, k: int| 0 <= x < g.spec_num_nodes() && 0 <= k < g.spec_out(x).len()
                                && (x < u || (x == u && k < j)) && part@[x] == a2 && part@[#[trigger] g.spec_out(x)[k] as int] == b2;
                            assert(chain_edge_upto(g, part@, a2, b2, u as int, j + 1));
                        }
                        if a != b && a2 == a && b2 == b {
                            assert(part@[g.spec_out(u as int)[j as int] as int] == b);
                            assert(chain_edge_upto(g, part@, a2, b2, u as int, j + 1));
                        }
                    }
                    assert(edges.values(a2) =~= Set::new(|b2: usize| chain_edge_upto(g, part@, a2, b2, u as int, j + 1)));
                }
            }
            j = j + 1;
        }
        proof {
            assert forall|a2: usize| #[trigger] edges.values(a2) == Set::new(|b2: usize| chain_edge_upto(g, part@, a2, b2, u + 1, 0)) by {
                assert forall|b2: usize| chain_edge_upto(g, part@, a2, b2, u as int, outs@.len() as int)
                    == chain_edge_upto(g, part@, a2, b2, u + 1, 0) by {
                    if chain_edge_upto(g, part@, a2, b2, u + 1, 0) {
                        let (x, k) = choose|x: int, k: int| 0 <= x < g.spec_num_nodes() && 0 <= k < g.spec_out(x).len()
                            && (x < u + 1 || (x == u + 1 && k < 0)) && part@[x] == a2 && part@[#[trigger] g.spec_out(x)[k] as int] == b2;
                    }
                }
                assert(Set::new(|b2: usize| chain_edge_upto(g, part@, a2, b2, u as int, outs@.len() as int))
                    =~= Set::new(|b2: usize| chain_edge_upto(g, part@, a2, b2, u + 1, 0)));
            }
        }
        u = u + 1;
    }
    proof {
        assert forall|a: usize| #[trigger] edges.values(a) == Set::new(|b: usize| chain_edge(g, part@, a, b)) by {
            assert forall|b: usize| chain_edge_upto(g, part@, a, b, n as int, 0) == chain_edge(g, part@, a, b) by {
                if chain_edge_upto(g, part@, a, b, n as int, 0) {
                    let (x, k) = choose|x: int, k: int| 0 <= x < g.spec_num_nodes() && 0 <= k < g.spec_out(x).len()
                        && (x < n || (x == n && k < 0)) && part@[x] == a && part@[#[trigger] g.spec_out(x)[k] as int] == b;
                    assert(has_edge(g, x, g.spec_out(x)[k] as int));
                }
                if chain_edge(g, part@, a, b) {
                    let (x, y) = choose|x: int, y: int| #[trigger] has_edge(g, x, y) && part@[x] == a && part@[y] == b;
                    let k = choose|k: int| 0 <= k < g.spec_out(x).len() && g.spec_out(x)[k] == y;
                    assert(part@[g.spec_out(x)[k] as int] == b);
                }
            }
            assert(Set::new(|b: usize| chain_edge_upto(g, part@, a, b, n as int, 0)) =~= Set::new(|b: usize| chain_edge(g, part@, a, b)));
        }
    }
    edges
}

/// `cl` are the clusters of the decomposition: for each strongly connected component with
/// more than one node, the (one-node) chains of its nodes, and nothing else.
pub open spec fn is_clustering<G: Graph>(g: &G, cs: Seq<Seq<usize>>, part: Seq<usize>, cl: Seq<Seq<usize>>) -> bool {
    let n = g.spec_num_nodes();
    &&& forall|k: int| 0 <= k < cl.len() ==> (#[trigger] cl[k]).len() >= 2 && cl[k].no_duplicates()
    &&& forall|k: int, i: int| 0 <= k < cl.len() && 0 <= i < cl[k].len() ==> #[trigger] cl[k][i] < cs.len()
    &&& forall|k: int, i: int, j: int| 0 <= k < cl.len() && 0 <= i < cl[k].len() && 0 <= j < cl[k].len() ==>
        strongly_connected(g, cs[#[trigger] cl[k][i] as int][0] as int, cs[#[trigger] cl[k][j] as int][0] as int)
    &&& forall|k: int, i: int, w: int| 0 <= k < cl.len() && 0 <= i < cl[k].len() && 0 <= w < n
        && #[trigger] strongly_connected(g, cs[#[trigger] cl[k][i] as int][0] as int, w) ==> cl[k].contains(part[w])
    &&& forall|u: int| 0 <= u < n && !alone(g, u) ==> exists|k: int| 0 <= k < cl.len() && #[trigger] cl[k].contains(part[u])
    &&& forall|k1: int, k2: int, c: usize| 0 <= k1 < cl.len() && 0 <= k2 < cl.len()
        && #[trigger] cl[k1].contains(c) && #[trigger] cl[k2].contains(c) ==> k1 == k2
}

/// The chains of the nodes of `p`.
fn chains_of(p: &Vec<usize>, part: &Vec<usize>) -> (r: Vec<usize>)
    requires
        forall|t: int| 0 <= t < p@.len() ==> #[trigger] p@[t] < part@.len(),
    ensures
        r@.len() == p@.len(),
        forall|t: int| 0 <= t < p@.len() ==> #[trigger] r@[t] == part@[p@[t] as int],
{
    let mut r: Vec<usize> = Vec::new();
    let mut t: usize = 0;
    while t < p.len()
        invariant
            t <= p@.len(),
            forall|t2: int| 0 <= t2 < p@.len() ==> #[trigger] p@[t2] < part@.len(),
            r@.len() == t,
            forall|t2: int| 0 <= t2 < t ==> #[trigger] r@[t2] == part@[p@[t2] as int],
        decreases p@.len() - t,
    {
        r.push(part[p[t]]);
        t = t + 1;
    }
    r
}

/// The clusters of a decomposition: one for each strongly connected component with more than
/// one node, in the order of the components.
fn chain_clusters<G: Graph>(g: &G, sccs: &Partition, part: &Vec<usize>, Ghost(cs): Ghost<Seq<Seq<usize>>>) -> (r: Vec<Vec<usize>>)
    requires
        valid_graph(g),
        components_of(g, sccs),
        is_decomposition(g, cs, part@),
    ensures
        is_clustering(g, cs, part@, views(r@)),
{
    let n = g.num_nodes();
    proof {
        sccs.lemma_wf();
    }
    let parts = sccs.parts();
    let mut r: Vec<Vec<usize>> = Vec::new();
    let ghost mut src: Seq<int> = Seq::empty();
    let mut i: usize = 0;
    while i < parts.len()
        invariant
            valid_graph(g),
            components_of(g, sccs),
            is_decomposition(g, cs, part@),
            is_partition(sccs.spec_parts(), n as nat),
            n == g.spec_num_nodes(),
            views(parts@) == sccs.spec_parts(),
            forall|y: int| 0 <= y < n ==> 0 <= #[trigger] sccs.spec_index_of(y) < sccs.spec_parts().len()
                && sccs.spec_parts()[sccs.spec_index_of(y)].contains(y as usize),
            i <= parts@.len(),
            src.len() == r@.len(),
            forall|k: int| 0 <= k < src.len() ==> 0 <= #[trigger] src[k] < i && sccs.spec_parts()[src[k]].len() > 1
                && r@[k]@.len() == sccs.spec_parts()[src[k]].len()
                && forall|t: int| 0 <= t < r@[k]@.len() ==> #[trigger] r@[k]@[t] == part@[sccs.spec_parts()[src[k]][t] as int],
            forall|k1: int, k2: int| 0 <= k1 < k2 < src.len() ==> src[k1] < src[k2],
            forall|i2: int| 0 <= i2 < i && (#[trigger] sccs.spec_parts()[i2]).len() > 1 ==> exists|k: int| 0 <= k < src.len() && src[k] == i2,
        decreases parts@.len() - i,
    {
        let p = &parts[i];
        proof {
            assert(p@ == sccs.spec_parts()[i as int]);
            assert forall|t: int| 0 <= t < p@.len() implies #[trigger] p@[t] < part@.len() by {
                assert(sccs.spec_parts()[i as int][t] < n);
            }
        }
        if p.len() > 1 {
            let c = chains_of(p, part);
            r.push(c);
            proof {
                let s_old = src;
                src = src.push(i as int);
                assert forall|i2: int| 0 <= i2 < i + 1 && (#[trigger] sccs.spec_parts()[i2]).len() > 1 implies
                    exists|k: int| 0 <= k < src.len() && src[k] == i2 by {
                    if i2 == i {
                        assert(src[src.len() - 1] == i2);
                    } else {
                        let k = choose|k: int| 0 <= k < s_old.len() && s_old[k] == i2;
                        assert(src[k] == i2);
                    }
                }
            }
        }
        i = i + 1;
    }
    proof {
        let cl = views(r@);
        let ps = sccs.spec_parts();
        // The nodes of a component with more than one node are chains of their own.
        assert forall|k: int, t: int| 0 <= k < cl.len() && 0 <= t < cl[k].len() implies
            cl[k][t] < cs.len() && cs[#[trigger] cl[k][t] as int] == seq![ps[src[k]][t]]
            && sccs.spec_index_of(ps[src[k]][t] as int) == src[k] by {
            let x = ps[src[k]][t];
            assert(x < n);
            assert(ps[sccs.spec_index_of(x as int)].contains(x));
            assert(ps[src[k]].contains(x));
            assert(sccs.spec_index_of(x as int) == src[k]);
            lemma_alone_part(g, sccs, x as int);
            assert(cl[k][t] == part@[x as int]);
            let c = part@[x as int] as int;
            assert(cs[c].contains(x));
            let m = choose|m: int| 0 <= m < cs[c].len() && cs[c][m] == x;
            assert(cs[c].len() == 1);
            assert(cs[c] =~= seq![x]);
        }
        assert forall|k: int| 0 <= k < cl.len() implies (#[trigger] cl[k]).len() >= 2 && cl[k].no_duplicates() by {
            assert forall|a: int, b: int| 0 <= a < cl[k].len() && 0 <= b < cl[k].len() && a != b implies cl[k][a] != cl[k][b] by {
                assert(cs[cl[k][a] as int] == seq![ps[src[k]][a]]);
                assert(cs[cl[k][b] as int] == seq![ps[src[k]][b]]);
                assert(ps[src[k]].no_duplicates());
            }
        }
        assert forall|k: int, i1: int, j1: int| 0 <= k < cl.len() && 0 <= i1 < cl[k].len() && 0 <= j1 < cl[k].len() implies
            strongly_connected(g, cs[#[trigger] cl[k][i1] as int][0] as int, cs[#[trigger] cl[k][j1] as int][0] as int) by {
            assert(cs[cl[k][i1] as int] == seq![ps[src[k]][i1]]);
            assert(cs[cl[k][j1] as int] == seq![ps[src[k]][j1]]);
            assert(ps[src[k]][i1] < n);
            assert(ps[src[k]][j1] < n);
        }
        assert forall|k: int, i1: int, w: int| 0 <= k < cl.len() && 0 <= i1 < cl[k].len() && 0 <= w < n
            && #[trigger] strongly_connected(g, cs[#[trigger] cl[k][i1] as int][0] as int, w) implies cl[k].contains(part@[w]) by {
            let x = ps[src[k]][i1];
            assert(cs[cl[k][i1] as int] == seq![x]);
            assert(x < n);
            assert(sccs.spec_index_of(w) == src[k]);
            assert(ps[src[k]].contains(w as usize));
            let m = choose|m: int| 0 <= m < ps[src[k]].len() && ps[src[k]][m] == w as usize;
            assert(cl[k][m] == part@[w]);
        }
        assert forall|u: int| 0 <= u < n && !alone(g, u) implies exists|k: int| 0 <= k < cl.len() && #[trigger] cl[k].contains(part@[u]) by {
            lemma_alone_part(g, sccs, u);
            let iu = sccs.spec_index_of(u);
            assert(ps[iu].len() > 1);
            let k = choose|k: int| 0 <= k < src.len() && src[k] == iu;
            assert(ps[iu].contains(u as usize));
            let m = choose|m: int| 0 <= m < ps[iu].len() && ps[iu][m] == u as usize;
            assert(cl[k][m] == part@[u]);
            assert(cl[k].contains(part@[u]));
        }
        assert forall|k1: int, k2: int, c: usize| 0 <= k1 < cl.len() && 0 <= k2 < cl.len()
            && #[trigger] cl[k1].contains(c) && #[trigger] cl[k2].contains(c) implies k1 == k2 by {
            let t1 = choose|t: int| 0 <= t < cl[k1].len() && cl[k1][t] == c;
            let t2 = choose|t: int| 0 <= t < cl[k2].len() && cl[k2][t] == c;
            assert(cs[cl[k1][t1] as int] == seq![ps[src[k1]][t1]]);
            assert(cs[cl[k2][t2] as int] == seq![ps[src[k2]][t2]]);
            assert(ps[src[k1]][t1] == ps[src[k2]][t2]);
            if k1 < k2 {
                assert(src[k1] < src[k2]);
            } else if k2 < k1 {
                assert(src[k2] < src[k1]);
            }
        }
    }
    r
}

/// The `NodeId`s of the nodes of each chain.
fn ids_of_chains(ids: &Vec<NodeId>, chains: &Vec<Vec<usize>>) -> (r: Vec<Vec<NodeId>>)
    requires
        forall|c: int, t: int| 0 <= c < chains@.len() && 0 <= t < chains@[c]@.len() ==> #[trigger] chains@[c]@[t] < ids@.len(),
    ensures
        r@.len() == chains@.len(),
        forall|c: int| 0 <= c < chains@.len() ==> #[trigger] r@[c]@ == chains@[c]@.map_values(|x: usize| ids@[x as int]),
{
    let mut r: Vec<Vec<NodeId>> = Vec::new();
    let mut c: usize = 0;
    while c < chains.len()
        invariant
            forall|c2: int, t: int| 0 <= c2 < chains@.len() && 0 <= t < chains@[c2]@.len() ==> #[trigger] chains@[c2]@[t] < ids@.len(),
            c <= chains@.len(),
            r@.len() == c,
            forall|c2: int| 0 <= c2 < c ==> #[trigger] r@[c2]@ == chains@[c2]@.map_values(|x: usize| ids@[x as int]),
        decreases chains@.len() - c,
    {
        let ch = &chains[c];
        let mut out: Vec<NodeId> = Vec::new();
        let mut t: usize = 0;
        while t < ch.len()
            invariant
                forall|c2: int, t2: int| 0 <= c2 < chains@.len() && 0 <= t2 < chains@[c2]@.len() ==> #[trigger] chains@[c2]@[t2] < ids@.len(),
                c < chains@.len(),
                ch@ == chains@[c as int]@,
                t <= ch@.len(),
                out@ == ch@.take(t as int).map_values(|x: usize| ids@[x as int]),
            decreases ch@.len() - t,
        {
            proof {
                assert(chains@[c as int]@[t as int] < ids@.len());
            }
            out.push(ids[ch[t]]);
            t = t + 1;
            proof {
                assert(out@ =~= ch@.take(t as int).map_values(|x: usize| ids@[x as int]));
            }
        }
        proof {
            assert(ch@.take(ch@.len() as int) =~= ch@);
        }
        r.push(out);
        c = c + 1;
    }
    r
}

/// A graggle decomposed into chains. Each node of a `ChainGraggle` stands for a chain
/// (possibly of one node) of the graph that it was made from; there is an edge from one chain
/// to another when the graph has an edge from a node of the first to a node of the second.
pub struct ChainGraggle {
    chains: Vec<Vec<NodeId>>,
    edges: MMap<usize, usize>,
    clusters: Vec<Vec<usize>>,
    // The chains, as the numbers of their nodes in the graph they were made from.
    node_chains: Ghost<Seq<Seq<usize>>>,
    // The index of the chain of each node of that graph.
    chain_of: Ghost<Seq<usize>>,
}

/// The views of a list of lists of ids.
pub open spec fn id_views(v: Seq<Vec<NodeId>>) -> Seq<Seq<NodeId>> {
    v.map_values(|s: Vec<NodeId>| s@)
}

impl ChainGraggle {
    /// The chains, as sequences of `NodeId`s.
    pub closed spec fn spec_chains(&self) -> Seq<Seq<NodeId>> {
        id_views(self.chains@)
    }

    /// The chains, as the numbers of their nodes in the graph that they were made from.
    pub closed spec fn spec_node_chains(&self) -> Seq<Seq<usize>> {
        self.node_chains@
    }

    /// The index of the chain of each node of the graph that the chains were made from.
    pub closed spec fn spec_chain_of(&self) -> Seq<usize> {
        self.chain_of@
    }

    /// The chains that there is an edge to from the chain `a`.
    pub closed spec fn spec_edges(&self, a: usize) -> Set<usize> {
        self.edges.values(a)
    }

    /// The clusters: the chains of each strongly connected component with more than one node.
    pub closed spec fn spec_clusters(&self) -> Seq<Seq<usize>> {
        views(self.clusters@)
    }

    /// `self` is the decomposition of `g` into chains: its chains are those of the graph, given
    /// by their `NodeId`s, its edges join the chains between whose nodes `g` has an edge, and
    /// its clusters are the strongly connected components with more than one node.
    pub open spec fn decomposes(&self, g: &IdGraph) -> bool {
        &&& is_decomposition(g, self.spec_node_chains(), self.spec_chain_of())
        &&& self.spec_chains().len() == self.spec_node_chains().len()
        &&& forall|c: int| 0 <= c < self.spec_chains().len() ==> #[trigger] self.spec_chains()[c]
            == self.spec_node_chains()[c].map_values(|x: usize| g.spec_ids()[x as int])
        &&& forall|a: usize| #[trigger] self.spec_edges(a) == Set::new(|b: usize| chain_edge(g, self.spec_chain_of(), a, b))
        &&& is_clustering(g, self.spec_node_chains(), self.spec_chain_of(), self.spec_clusters())
    }

    /// How many chains are there?
    pub fn num_chains(&self) -> (r: usize)
        ensures
            r == self.spec_chains().len(),
    {
        self.chains.len()
    }

    /// The sequence of `NodeId`s that makes up the chain with index `i`.
    pub fn chain(&self, i: usize) -> (r: &[NodeId])
        requires
            i < self.spec_chains().len(),
        ensures
            r@ == self.spec_chains()[i as int],
    {
        self.chains[i].as_slice()
    }

    /// The clusters: for each strongly connected component of the decomposed graph with more
    /// than one node, the indices of the chains of its nodes.
    pub fn clusters(&self) -> (r: &Vec<Vec<usize>>)
        ensures
            views(r@) == self.spec_clusters(),
    {
        &self.clusters
    }

    /// The chains that there is an edge to from the chain `u`, in increasing order.
    pub fn out_edges(&self, u: &usize) -> (r: Vec<usize>)
        ensures
            r@.to_set() == self.spec_edges(*u),
            r@.no_duplicates(),
    {
        self.edges.get(u)
    }

    /// Decomposes the graph `g` into chains.
    pub fn from_graph(g: &IdGraph) -> (r: ChainGraggle)
        requires
            g.wf(),
        ensures
            r.decomposes(g),
    {
        proof {
            g.lemma_wf();
        }
        let sccs = tarjan(g);
        let (node_chains, part) = decompose(g, &sccs);
        let edges = chain_edges(g, &part);
        let clusters = chain_clusters(g, &sccs, &part, Ghost(views(node_chains@)));
        proof {
            let cs = views(node_chains@);
            assert forall|c: int, t: int| 0 <= c < node_chains@.len() && 0 <= t < node_chains@[c]@.len() implies
                #[trigger] node_chains@[c]@[t] < g.spec_ids().len() by {
                assert(cs[c] == node_chains@[c]@);
                assert(cs[c][t] < g.spec_num_nodes());
            }
        }
        let chains = ids_of_chains(g.ids(), &node_chains);
        let r = ChainGraggle {
            chains,
            edges,
            clusters,
            node_chains: Ghost(views(node_chains@)),
            chain_of: Ghost(part@),
        };
        proof {
            assert forall|c: int| 0 <= c < r.spec_chains().len() implies #[trigger] r.spec_chains()[c]
                == r.spec_node_chains()[c].map_values(|x: usize| g.spec_ids()[x as int]) by {
                assert(r.spec_chains()[c] == r.chains@[c]@);
                assert(r.spec_node_chains()[c] == node_chains@[c]@);
            }
        }
        r
    }
}

/// Every node of the graph lies in exactly one chain of its decomposition, and once there.
pub proof fn lemma_chains_partition_nodes(g: &IdGraph, d: &ChainGraggle)
    requires
        g.wf(),
        d.decomposes(g),
    ensures
        forall|c: int, t: int| 0 <= c < d.spec_chains().len() && 0 <= t < d.spec_chains()[c].len()
            ==> g.spec_ids().contains(#[trigger] d.spec_chains()[c][t]),
        forall|id: NodeId| #[trigger] g.spec_ids().contains(id) ==> exists|c: int, t: int|
            0 <= c < d.spec_chains().len() && 0 <= t < d.spec_chains()[c].len() && #[trigger] d.spec_chains()[c][t] == id,
        forall|c1: int, t1: int, c2: int, t2: int|
            0 <= c1 < d.spec_chains().len() && 0 <= t1 < d.spec_chains()[c1].len()
            && 0 <= c2 < d.spec_chains().len() && 0 <= t2 < d.spec_chains()[c2].len()
            && #[trigger] d.spec_chains()[c1][t1] == #[trigger] d.spec_chains()[c2][t2] ==> c1 == c2 && t1 == t2,
{
    g.lemma_wf();
    let cs = d.spec_node_chains();
    let ids = g.spec_ids();
    let n = g.spec_num_nodes();
    assert forall|c: int, t: int| 0 <= c < d.spec_chains().len() && 0 <= t < d.spec_chains()[c].len()
        implies ids.contains(#[trigger] d.spec_chains()[c][t]) by {
        assert(d.spec_chains()[c] == cs[c].map_values(|x: usize| ids[x as int]));
        assert(cs[c][t] < n);
        assert(ids[cs[c][t] as int] == d.spec_chains()[c][t]);
    }
    assert forall|id: NodeId| #[trigger] ids.contains(id) implies exists|c: int, t: int|
        0 <= c < d.spec_chains().len() && 0 <= t < d.spec_chains()[c].len() && #[trigger] d.spec_chains()[c][t] == id by {
        let i = choose|i: int| 0 <= i < ids.len() && ids[i] == id;
        let c = d.spec_chain_of()[i] as int;
        assert(cs[c].contains(i as usize));
        let t = choose|t: int| 0 <= t < cs[c].len() && cs[c][t] == i as usize;
        assert(d.spec_chains()[c] == cs[c].map_values(|x: usize| ids[x as int]));
        assert(d.spec_chains()[c][t] == id);
    }
    assert forall|c1: int, t1: int, c2: int, t2: int|
        0 <= c1 < d.spec_chains().len() && 0 <= t1 < d.spec_chains()[c1].len()
        && 0 <= c2 < d.spec_chains().len() && 0 <= t2 < d.spec_chains()[c2].len()
        && #[trigger] d.spec_chains()[c1][t1] == #[trigger] d.spec_chains()[c2][t2] implies c1 == c2 && t1 == t2 by {
        assert(d.spec_chains()[c1] == cs[c1].map_values(|x: usize| ids[x as int]));
        assert(d.spec_chains()[c2] == cs[c2].map_values(|x: usize| ids[x as int]));
        let x1 = cs[c1][t1];
        let x2 = cs[c2][t2];
        assert(x1 < n && x2 < n);
        assert(ids[x1 as int] == ids[x2 as int]);
        assert(x1 == x2);
        assert(cs[c1].contains(x1));
        assert(cs[c2].contains(x1));
        assert(c1 == c2);
        assert(cs[c1].no_duplicates());
    }
}

} // verus!
