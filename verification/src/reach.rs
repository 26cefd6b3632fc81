//! Reachability in directed graphs.

use vstd::prelude::*;

use crate::graph::{has_edge, is_path, node_range, valid_graph, Graph};

verus! {

/// `v` can be reached from `u` by a walk of at least one edge.
pub open spec fn reaches<G: Graph>(g: &G, u: int, v: int) -> bool {
    exists|p: Seq<usize>| #[trigger] is_path(g, p) && p.len() >= 2 && p[0] == u && p.last() == v
}

/// A sequence without repetitions of numbers below `n` has at most `n` elements.
pub proof fn lemma_distinct_below(s: Seq<usize>, n: nat)
    requires
        s.no_duplicates(),
        forall|i: int| 0 <= i < s.len() ==> #[trigger] s[i] < n,
    ensures
        s.len() <= n,
{
    let r = node_range(n);
    assert forall|x: usize| s.contains(x) implies r.contains(x) by {
        let i = choose|i: int| 0 <= i < s.len() && s[i] == x;
        assert(r[x as int] == x);
    }
    s.unique_seq_to_set();
    r.lemma_cardinality_of_set();
    assert(s.to_set().subset_of(r.to_set()));
    vstd::set_lib::lemma_len_subset(s.to_set(), r.to_set());
}

/// A set of nodes that holds the successors of `u`, and the successors of each of its
/// members, holds every node reachable from `u`.
proof fn lemma_closed_reach<G: Graph>(g: &G, u: int, seen: Seq<bool>, p: Seq<usize>, i: int)
    requires
        valid_graph(g),
        seen.len() == g.spec_num_nodes(),
        forall|w: int| has_edge(g, u, w) ==> seen[w],
        forall|x: int, w: int| 0 <= x < seen.len() && seen[x] && #[trigger] has_edge(g, x, w) ==> seen[w],
        is_path(g, p),
        p[0] == u,
        1 <= i < p.len(),
    ensures
        seen[p[i] as int],
    decreases i,
{
    let k = i - 1;
    assert(has_edge(g, p[k] as int, p[k + 1] as int));
    if i > 1 {
        lemma_closed_reach(g, u, seen, p, i - 1);
    }
}

/// Marks the successors of `x` that are not marked yet, and queues them.
fn mark_successors<G: Graph>(g: &G, x: usize, seen: &mut Vec<bool>, queue: &mut Vec<usize>)
    requires
        valid_graph(g),
        x < g.spec_num_nodes(),
        old(seen)@.len() == g.spec_num_nodes(),
        forall|v: int| 0 <= v < old(seen)@.len() ==> (old(seen)@[v] <==> old(queue)@.contains(v as usize)),
        old(queue)@.no_duplicates(),
        forall|i: int| 0 <= i < old(queue)@.len() ==> #[trigger] old(queue)@[i] < g.spec_num_nodes(),
    ensures
        final(seen)@.len() == g.spec_num_nodes(),
        forall|v: int| 0 <= v < final(seen)@.len() ==> (final(seen)@[v] <==> final(queue)@.contains(v as usize)),
        final(queue)@.no_duplicates(),
        forall|i: int| 0 <= i < final(queue)@.len() ==> #[trigger] final(queue)@[i] < g.spec_num_nodes(),
        final(queue)@.len() >= old(queue)@.len(),
        forall|i: int| 0 <= i < old(queue)@.len() ==> final(queue)@[i] == old(queue)@[i],
        forall|i: int| old(queue)@.len() <= i < final(queue)@.len() ==> has_edge(g, x as int, #[trigger] final(queue)@[i] as int),
        forall|v: int| 0 <= v < old(seen)@.len() && old(seen)@[v] ==> final(seen)@[v],
        forall|w: int| #[trigger] has_edge(g, x as int, w) ==> final(seen)@[w],
{
    let out = g.out_edges(x);
    let mut k: usize = 0;
    while k < out.len()
        invariant
            valid_graph(g),
            x < g.spec_num_nodes(),
            out@ == g.spec_out(x as int),
            old(seen)@.len() == g.spec_num_nodes(),
            k <= out.len(),
            seen@.len() == g.spec_num_nodes(),
            forall|v: int| 0 <= v < seen@.len() ==> (seen@[v] <==> queue@.contains(v as usize)),
            queue@.no_duplicates(),
            forall|i: int| 0 <= i < queue@.len() ==> #[trigger] queue@[i] < g.spec_num_nodes(),
            queue@.len() >= old(queue)@.len(),
            forall|i: int| 0 <= i < old(queue)@.len() ==> queue@[i] == old(queue)@[i],
            forall|i: int| old(queue)@.len() <= i < queue@.len() ==> has_edge(g, x as int, #[trigger] queue@[i] as int),
            forall|v: int| 0 <= v < old(seen)@.len() && old(seen)@[v] ==> seen@[v],
            forall|j: int| 0 <= j < k ==> seen@[#[trigger] out@[j] as int],
        decreases out.len() - k,
    {
        let w = out[k];
        assert(g.spec_out(x as int)[k as int] == w);
        assert(w < g.spec_num_nodes());
        if !seen[w] {
            let ghost q0 = queue@;
            let ghost s_prev = seen@;
            seen.set(w, true);
            queue.push(w);
            proof {
                assert(seen@ == s_prev.update(w as int, true));
                assert forall|v: int| 0 <= v < old(seen)@.len() && old(seen)@[v] implies seen@[v] by {
                    if v != w as int {
                        assert(s_prev[v]);
                    }
                }
                assert forall|j: int| 0 <= j < k implies seen@[#[trigger] out@[j] as int] by {
                    if out@[j] != w {
                        assert(s_prev[out@[j] as int]);
                    }
                }
                assert(has_edge(g, x as int, w as int));
                assert forall|v: int| 0 <= v < seen@.len() implies (seen@[v] <==> queue@.contains(v as usize)) by {
                    if queue@.contains(v as usize) && v != w {
                        let i = choose|i: int| 0 <= i < queue@.len() && queue@[i] == v as usize;
                        assert(q0[i] == v as usize);
                    }
                    if v != w && q0.contains(v as usize) {
                        let i = choose|i: int| 0 <= i < q0.len() && q0[i] == v as usize;
                        assert(queue@[i] == v as usize);
                    }
                    if v == w {
                        assert(queue@[q0.len() as int] == w);
                    }
                }
                assert forall|i: int, j: int| 0 <= i < j < queue@.len() implies queue@[i] != queue@[j] by {
                    if j == q0.len() {
                        assert(q0.contains(q0[i]));
                    }
                }
            }
        }
        k = k + 1;
    }
    proof {
        assert forall|w: int| #[trigger] has_edge(g, x as int, w) implies seen@[w] by {
            let j = choose|j: int| 0 <= j < g.spec_out(x as int).len() && g.spec_out(x as int)[j] == w;
            assert(seen@[out@[j] as int]);
        }
    }
}

/// The nodes that can be reached from `u` by a walk of at least one edge: the result says, for
/// each node, whether it can.
pub fn reach_set<G: Graph>(g: &G, u: usize) -> (r: Vec<bool>)
    requires
        valid_graph(g),
        u < g.spec_num_nodes(),
    ensures
        r@.len() == g.spec_num_nodes(),
        forall|v: int| 0 <= v < r@.len() ==> (r@[v] <==> reaches(g, u as int, v)),
{
    let n = g.num_nodes();
    let mut seen: Vec<bool> = Vec::new();
    let mut i: usize = 0;
    while i < n
        invariant
            i <= n,
            seen@.len() == i,
            forall|v: int| 0 <= v < i ==> !seen@[v],
        decreases n - i,
    {
        seen.push(false);
        i = i + 1;
    }
    let mut queue: Vec<usize> = Vec::new();
    proof {
        assert forall|v: int| 0 <= v < seen@.len() implies (seen@[v] <==> queue@.contains(v as usize)) by {}
    }
    mark_successors(g, u, &mut seen, &mut queue);
    proof {
        assert forall|i: int| 0 <= i < queue@.len() implies reaches(g, u as int, #[trigger] queue@[i] as int) by {
            let p = seq![u, queue@[i]];
            assert(is_path(g, p));
        }
    }
    let mut done: usize = 0;
    while done < queue.len()
        invariant
            valid_graph(g),
            u < g.spec_num_nodes(),
            done <= queue@.len(),
            seen@.len() == g.spec_num_nodes(),
            forall|v: int| 0 <= v < seen@.len() ==> (seen@[v] <==> queue@.contains(v as usize)),
            queue@.no_duplicates(),
            forall|i: int| 0 <= i < queue@.len() ==> #[trigger] queue@[i] < g.spec_num_nodes(),
            forall|i: int| 0 <= i < queue@.len() ==> reaches(g, u as int, #[trigger] queue@[i] as int),
            forall|w: int| #[trigger] has_edge(g, u as int, w) ==> seen@[w],
            forall|j: int, w: int| 0 <= j < done && #[trigger] has_edge(g, queue@[j] as int, w) ==> seen@[w],
        decreases g.spec_num_nodes() - done,
    {
        proof {
            lemma_distinct_below(queue@, g.spec_num_nodes());
        }
        let x = queue[done];
        let ghost q0 = queue@;
        let ghost s0 = seen@;
        mark_successors(g, x, &mut seen, &mut queue);
        proof {
            assert forall|i: int| 0 <= i < queue@.len() implies reaches(g, u as int, #[trigger] queue@[i] as int) by {
                if i >= q0.len() {
                    assert(reaches(g, u as int, q0[done as int] as int));
                    let p = choose|p: Seq<usize>| #[trigger] is_path(g, p) && p.len() >= 2 && p[0] == u && p.last() == x;
                    let w = p.push(queue@[i]);
                    assert(has_edge(g, x as int, queue@[i] as int));
                    assert forall|k: int| 0 <= k < w.len() - 1 implies has_edge(g, #[trigger] w[k] as int, w[k + 1] as int) by {
                        if k < w.len() - 2 {
                            assert(has_edge(g, p[k] as int, p[k + 1] as int));
                        }
                    }
                    assert(is_path(g, w));
                } else {
                    assert(queue@[i] == q0[i]);
                }
            }
            assert forall|j: int, w: int| 0 <= j < done + 1 && #[trigger] has_edge(g, queue@[j] as int, w) implies seen@[w] by {
                assert(queue@[j] == q0[j]);
                if j < done {
                    assert(s0[w]);
                }
            }
        }
        done = done + 1;
    }
    proof {
        assert forall|x: int, w: int| 0 <= x < seen@.len() && seen@[x] && #[trigger] has_edge(g, x, w) implies seen@[w] by {
            let j = choose|j: int| 0 <= j < queue@.len() && queue@[j] == x as usize;
            assert(has_edge(g, queue@[j] as int, w));
        }
        assert forall|v: int| 0 <= v < seen@.len() implies (seen@[v] <==> reaches(g, u as int, v)) by {
            if reaches(g, u as int, v) {
                let p = choose|p: Seq<usize>| #[trigger] is_path(g, p) && p.len() >= 2 && p[0] == u && p.last() == v;
                lemma_closed_reach(g, u as int, seen@, p, p.len() - 1);
            }
            if seen@[v] {
                let i = choose|i: int| 0 <= i < queue@.len() && queue@[i] == v as usize;
                assert(reaches(g, u as int, queue@[i] as int));
            }
        }
    }
    seen
}

/// Is there a walk of at least one edge from `u` to `v`?
pub fn has_path<G: Graph>(g: &G, u: usize, v: usize) -> (r: bool)
    requires
        valid_graph(g),
        u < g.spec_num_nodes(),
    ensures
        r == reaches(g, u as int, v as int),
{
    let n = g.num_nodes();
    if v >= n {
        proof {
            if reaches(g, u as int, v as int) {
                let p = choose|p: Seq<usize>| #[trigger] is_path(g, p) && p.len() >= 2 && p[0] == u && p.last() == v;
                assert(p[p.len() - 1] < g.spec_num_nodes());
            }
        }
        return false;
    }
    let seen = reach_set(g, u);
    seen[v]
}

} // verus!
