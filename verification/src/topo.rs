//! Topological sorting.

use vstd::prelude::*;

use crate::dfs::{dfs_post, dfs_start, Dfs, Status, Visit};
use crate::graph::{has_cycle, has_edge, is_path, node_range, valid_graph, Graph};

verus! {

/// `order` lists every node exactly once, and every edge points forward in it.
pub open spec fn is_top_order<G: Graph>(g: &G, order: Seq<usize>) -> bool {
    &&& order.len() == g.spec_num_nodes()
    &&& forall|i: int| 0 <= i < order.len() ==> #[trigger] order[i] < g.spec_num_nodes()
    &&& order.no_duplicates()
    &&& forall|i: int, j: int|
        0 <= i < order.len() && 0 <= j < order.len() && has_edge(g, #[trigger] order[i] as int, #[trigger] order[j] as int) ==> i < j
}

/// The bookkeeping of the topological sort, next to the state of the search.
spec fn sort_inv<G: Graph>(
    g: &G,
    nodes: Seq<usize>,
    positions: Seq<usize>,
    seen: Seq<bool>,
    visiting: Seq<bool>,
    fin: Seq<bool>,
    post: Seq<usize>,
    pos_of: Seq<int>,
) -> bool {
    let n = g.spec_num_nodes();
    &&& visiting.len() == n
    &&& fin.len() == n
    &&& pos_of.len() == n
    &&& seen.len() == n
    &&& forall|x: int| 0 <= x < n ==> (#[trigger] visiting[x] <==> nodes.contains(x as usize))
    &&& forall|x: int| 0 <= x < n ==> (#[trigger] seen[x] <==> visiting[x] || fin[x])
    &&& forall|x: int| 0 <= x < n ==> !(#[trigger] visiting[x] && fin[x])
    &&& forall|i: int| 0 <= i < post.len() ==> #[trigger] post[i] < n && fin[post[i] as int] && pos_of[post[i] as int] == i
    &&& forall|x: int| 0 <= x < n && #[trigger] fin[x] ==> 0 <= pos_of[x] < post.len() && post[pos_of[x]] == x
    &&& forall|i: int, k: int|
        0 <= i < post.len() && 0 <= k < g.spec_out(post[i] as int).len() ==> fin[#[trigger] g.spec_out(#[trigger] post[i] as int)[k] as int]
            && pos_of[g.spec_out(post[i] as int)[k] as int] < i
    &&& forall|s: int, k: int|
        0 <= s < nodes.len() && 0 <= k < positions[s] ==> fin[#[trigger] g.spec_out(#[trigger] nodes[s] as int)[k] as int]
            || (s < nodes.len() - 1 && k == positions[s] - 1)
}

proof fn lemma_cycle_from_stack<G: Graph>(g: &G, nodes: Seq<usize>, positions: Seq<usize>, j: int, dst: usize)
    requires
        valid_graph(g),
        nodes.len() == positions.len(),
        0 <= j < nodes.len(),
        nodes[j] == dst,
        forall|i: int| 0 <= i < nodes.len() ==> #[trigger] nodes[i] < g.spec_num_nodes() && positions[i] <= g.spec_out(nodes[i] as int).len(),
        forall|i: int|
            0 <= i < nodes.len() - 1 ==> {
                &&& #[trigger] positions[i] >= 1
                &&& nodes[i + 1] == g.spec_out(nodes[i] as int)[positions[i] - 1]
            },
        has_edge(g, nodes.last() as int, dst as int),
    ensures
        has_cycle(g),
{
    let p = nodes.subrange(j, nodes.len() as int).push(dst);
    assert forall|i: int| 0 <= i < p.len() - 1 implies has_edge(g, #[trigger] p[i] as int, p[i + 1] as int) by {
        if i < p.len() - 2 {
            let s = j + i;
            assert(p[i] == nodes[s]);
            assert(p[i + 1] == nodes[s + 1]);
            assert(positions[s] >= 1);
            let k = positions[s] - 1;
            assert(0 <= k < g.spec_out(nodes[s] as int).len());
            assert(g.spec_out(nodes[s] as int)[k] == nodes[s + 1]);
        } else {
            assert(p[i] == nodes.last());
        }
    }
    assert(is_path(g, p));
    assert(p[0] == p.last());
}

/// If the graph is acyclic, returns a topological sort of the nodes. Otherwise, returns
/// `None`.
///
/// The sort is built in reverse, by running a depth-first search and recording each node as the
/// search retreats from it.
pub fn top_sort<G: Graph>(g: &G) -> (r: Option<Vec<usize>>)
    requires
        valid_graph(g),
    ensures
        match r {
            Some(order) => {
                &&& is_top_order(g, order@)
                &&& order@ == dfs_post(*g, dfs_start(g.spec_num_nodes())).reverse()
            },
            None => has_cycle(g),
        },
{
    let n = g.num_nodes();
    let mut dfs = Dfs::new(g);
    let ghost start = dfs.state();
    let mut visiting: Vec<bool> = vec![false; n];
    let mut post: Vec<usize> = Vec::new();
    let ghost mut fin: Seq<bool> = Seq::new(n as nat, |i: int| false);
    let ghost mut pos_of: Seq<int> = Seq::new(n as nat, |i: int| 0);
    proof {
        dfs.lemma_wf();
        assert forall|x: int| 0 <= x < n implies (#[trigger] visiting@[x] <==> dfs.nodes().contains(x as usize)) by {
            assert(!visiting@[x]);
        }
    }
    loop
        invariant
            dfs.wf(),
            dfs.graph() == *g,
            n == g.spec_num_nodes(),
            dfs.root_list() == node_range(n as nat),
            forall|k: int| 0 <= k < dfs.roots_done() ==> #[trigger] dfs.seen()[k],
            sort_inv(g, dfs.nodes(), dfs.positions(), dfs.seen(), visiting@, fin, post@, pos_of),
            start == dfs_start(n as nat),
            post@ + dfs_post(*g, dfs.state()) == dfs_post(*g, start),
        ensures
            dfs.roots_done() == n,
            dfs.nodes().len() == 0,
            post@ == dfs_post(*g, start),
        decreases dfs.unvisited(), dfs.work(),
    {
        let ghost st0 = dfs.state();
        let ghost post0 = post@;
        let ghost nodes0 = dfs.nodes();
        let ghost positions0 = dfs.positions();
        let ghost seen0 = dfs.seen();
        let ghost done0 = dfs.roots_done();
        proof {
            dfs.lemma_wf();
        }
        let step = dfs.next();
        proof {
            dfs.lemma_wf();
        }
        proof {
            assert(dfs.state() == crate::dfs::dfs_step(*g, st0).0);
            assert(step == crate::dfs::dfs_step(*g, st0).1);
        }
        match step {
            None => {
                proof {
                    assert(dfs_post(*g, st0) == Seq::<usize>::empty());
                    assert(post@ =~= post@ + dfs_post(*g, st0));
                    assert forall|k: int| 0 <= k < dfs.roots_done() implies #[trigger] dfs.seen()[k] by {
                        if k >= done0 {
                            assert(dfs.root_list()[k] == k);
                            assert(seen0[dfs.root_list()[k] as int]);
                        }
                    }
                }
                break;
            },
            Some(Visit::Edge { src, dst, status }) => {
                proof {
                    assert(dfs_post(*g, st0) == dfs_post(*g, dfs.state()));
                }
                if visiting[dst] {
                    proof {
                        let j = nodes0.index_of(dst);
                        assert(has_edge(g, nodes0.last() as int, dst as int));
                        lemma_cycle_from_stack(g, nodes0, positions0, j, dst);
                    }
                    return None;
                }
                if status == Status::New {
                    visiting.set(dst, true);
                }
                proof {
                    let top = nodes0.len() - 1;
                    assert forall|x: int| 0 <= x < n implies (#[trigger] visiting@[x] <==> dfs.nodes().contains(x as usize)) by {
                        if status == Status::New && x != dst {
                            if dfs.nodes().contains(x as usize) {
                                let i = choose|i: int| 0 <= i < dfs.nodes().len() && dfs.nodes()[i] == x as usize;
                                assert(nodes0[i] == x);
                            }
                            if nodes0.contains(x as usize) {
                                let i = choose|i: int| 0 <= i < nodes0.len() && nodes0[i] == x as usize;
                                assert(dfs.nodes()[i] == x);
                            }
                        }
                        if status == Status::New && x == dst {
                            assert(dfs.nodes()[dfs.nodes().len() - 1] == dst);
                        }
                    }
                    assert forall|s: int, k: int|
                        0 <= s < dfs.nodes().len() && 0 <= k < dfs.positions()[s] implies fin[#[trigger] g.spec_out(#[trigger] dfs.nodes()[s] as int)[k] as int]
                            || (s < dfs.nodes().len() - 1 && k == dfs.positions()[s] - 1) by {
                        if s < top {
                            assert(dfs.nodes()[s] == nodes0[s]);
                            assert(dfs.positions()[s] == positions0[s]);
                        } else if s == top {
                            assert(dfs.nodes()[s] == nodes0[s]);
                            if k < positions0[s] {
                                assert(fin[g.spec_out(nodes0[s] as int)[k] as int] || (s < nodes0.len() - 1 && k == positions0[s] - 1));
                            } else if status == Status::Repeated {
                                assert(g.spec_out(nodes0[s] as int)[k] == dst);
                            }
                        }
                    }
                }
            },
            Some(Visit::Retreat { u, parent: _ }) => {
                let ghost old_post = post@;
                let ghost fin0 = fin;
                let ghost pos0 = pos_of;
                let ghost visiting0 = visiting@;
                proof {
                    assert(nodes0[nodes0.len() - 1] == u);
                    assert(nodes0.contains(u));
                    assert(visiting0[u as int]);
                    assert(!fin0[u as int]);
                }
                post.push(u);
                visiting.set(u, false);
                proof {
                    assert(dfs_post(*g, st0) == seq![u] + dfs_post(*g, dfs.state()));
                    assert(post@ + dfs_post(*g, dfs.state()) =~= post0 + (seq![u] + dfs_post(*g, dfs.state())));
                }
                proof {
                    let top = nodes0.len() - 1;
                    fin = fin.update(u as int, true);
                    pos_of = pos_of.update(u as int, old_post.len() as int);
                    assert forall|k: int| 0 <= k < g.spec_out(u as int).len() implies fin[#[trigger] g.spec_out(u as int)[k] as int]
                        && pos_of[g.spec_out(u as int)[k] as int] < old_post.len() by {
                        assert(g.spec_out(nodes0[top] as int)[k] == g.spec_out(u as int)[k]);
                        let v = g.spec_out(u as int)[k];
                        if v != u {
                            assert(fin.update(u as int, false)[v as int]);
                        }
                        assert(v != u) by {
                            if v == u {
                                assert(visiting@.update(u as int, true)[u as int]);
                            }
                        }
                    }
                    assert forall|i: int, k: int|
                        0 <= i < post@.len() && 0 <= k < g.spec_out(post@[i] as int).len() implies fin[#[trigger] g.spec_out(#[trigger] post@[i] as int)[k] as int]
                            && pos_of[g.spec_out(post@[i] as int)[k] as int] < i by {
                        if i < old_post.len() {
                            assert(post@[i] == old_post[i]);
                            let v = g.spec_out(old_post[i] as int)[k];
                            assert(fin0[v as int] && pos0[v as int] < i);
                            assert(v != u);
                        }
                    }
                    assert forall|x: int| 0 <= x < n implies (#[trigger] visiting@[x] <==> dfs.nodes().contains(x as usize)) by {
                        if x != u {
                            if dfs.nodes().contains(x as usize) {
                                let i = choose|i: int| 0 <= i < dfs.nodes().len() && dfs.nodes()[i] == x as usize;
                                assert(nodes0[i] == x);
                            }
                            if nodes0.contains(x as usize) {
                                let i = choose|i: int| 0 <= i < nodes0.len() && nodes0[i] == x as usize;
                                assert(i != top);
                                assert(dfs.nodes()[i] == x);
                            }
                        } else {
                            if dfs.nodes().contains(x as usize) {
                                let i = choose|i: int| 0 <= i < dfs.nodes().len() && dfs.nodes()[i] == x as usize;
                                assert(nodes0[i] == nodes0[top]);
                            }
                        }
                    }
                    assert forall|s: int, k: int|
                        0 <= s < dfs.nodes().len() && 0 <= k < dfs.positions()[s] implies fin[#[trigger] g.spec_out(#[trigger] dfs.nodes()[s] as int)[k] as int]
                            || (s < dfs.nodes().len() - 1 && k == dfs.positions()[s] - 1) by {
                        assert(dfs.nodes()[s] == nodes0[s]);
                        assert(dfs.positions()[s] == positions0[s]);
                        if s == top - 1 && k == positions0[s] - 1 {
                            assert(g.spec_out(nodes0[s] as int)[k] == nodes0[top]);
                        }
                    }
                    assert forall|x: int| 0 <= x < n && #[trigger] fin[x] implies 0 <= pos_of[x] < post@.len() && post@[pos_of[x]] == x by {
                    }
                }
            },
            Some(Visit::Root(u)) => {
                visiting.set(u, true);
                proof {
                    assert(dfs_post(*g, st0) == dfs_post(*g, dfs.state()));
                }
                proof {
                    assert forall|x: int| 0 <= x < n implies (#[trigger] visiting@[x] <==> dfs.nodes().contains(x as usize)) by {
                        if x == u {
                            assert(dfs.nodes()[0] == u);
                        }
                    }
                    assert forall|k: int| 0 <= k < dfs.roots_done() implies #[trigger] dfs.seen()[k] by {
                        if k < done0 {
                            assert(seen0[k]);
                        } else if k < dfs.roots_done() - 1 {
                            assert(seen0[dfs.root_list()[k] as int]);
                        } else {
                            assert(dfs.root_list()[k] == u);
                        }
                    }
                }
            },
        }
    }
    proof {
        assert forall|x: int| 0 <= x < n implies #[trigger] fin[x] by {
            assert(dfs.root_list()[x] == x);
            assert(dfs.seen()[x]);
            assert(!visiting@[x]);
        }
    }
    let ghost post_s = post@;
    assert(post@.len() == n) by {
        lemma_fin_all(post_s, fin, pos_of, n as int);
    }
    let mut order: Vec<usize> = Vec::new();
    let mut i: usize = post.len();
    while i > 0
        invariant
            i <= post@.len(),
            post@ == post_s,
            order@.len() == post_s.len() - i,
            forall|k: int| 0 <= k < order@.len() ==> #[trigger] order@[k] == post_s[post_s.len() - 1 - k],
        decreases i,
    {
        i = i - 1;
        order.push(post[i]);
    }
    proof {
        let m = post_s.len() as int;
        assert(order@ =~= post_s.reverse());
        assert forall|a: int, b: int| 0 <= a < b < order@.len() implies order@[a] != order@[b] by {
            assert(pos_of[order@[a] as int] == m - 1 - a);
            assert(pos_of[order@[b] as int] == m - 1 - b);
        }
        assert forall|a: int, b: int|
            0 <= a < order@.len() && 0 <= b < order@.len() && has_edge(g, #[trigger] order@[a] as int, #[trigger] order@[b] as int) implies a < b by {
            let u = order@[a];
            let v = order@[b];
            let k = choose|k: int| 0 <= k < g.spec_out(u as int).len() && g.spec_out(u as int)[k] == v;
            let i = m - 1 - a;
            assert(post_s[i] == u);
            assert(pos_of[g.spec_out(post_s[i] as int)[k] as int] < i);
            assert(pos_of[v as int] == m - 1 - b);
        }
    }
    Some(order)
}

proof fn lemma_fin_all(post: Seq<usize>, fin: Seq<bool>, pos_of: Seq<int>, n: int)
    requires
        0 <= n,
        fin.len() == n,
        pos_of.len() == n,
        forall|x: int| 0 <= x < n ==> #[trigger] fin[x],
        forall|i: int| 0 <= i < post.len() ==> #[trigger] post[i] < n && fin[post[i] as int] && pos_of[post[i] as int] == i,
        forall|x: int| 0 <= x < n && #[trigger] fin[x] ==> 0 <= pos_of[x] < post.len() && post[pos_of[x]] == x,
    ensures
        post.len() == n,
{
    // `pos_of` maps `0..n` injectively into `0..post.len()`, and `post` maps back.
    let s = Set::new(|x: int| 0 <= x < n);
    let t = Set::new(|i: int| 0 <= i < post.len());
    assert forall|i: int| 0 <= i < post.len() implies 0 <= #[trigger] post[i] < n by {}
    vstd::set_lib::lemma_int_range(0, n);
    vstd::set_lib::lemma_int_range(0, post.len() as int);
    assert(s =~= vstd::set_lib::set_int_range(0, n));
    assert(t =~= vstd::set_lib::set_int_range(0, post.len() as int));
    let f = |x: int| pos_of[x];
    let h = |i: int| post[i] as int;
    assert(s.map(f) =~= t) by {
        assert forall|x: int| s.contains(x) implies t.contains(#[trigger] f(x)) by {
            assert(fin[x]);
        }
        assert forall|i: int| t.contains(i) implies s.map(f).contains(i) by {
            assert(s.contains(post[i] as int));
            assert(f(post[i] as int) == i);
        }
    }
    assert(vstd::relations::injective_on(f, s)) by {
        assert forall|x: int, y: int| s.contains(x) && s.contains(y) && #[trigger] f(x) == #[trigger] f(y) implies x == y by {
            assert(fin[x]);
            assert(fin[y]);
            assert(post[pos_of[x]] == x);
            assert(post[pos_of[y]] == y);
        }
    }
    vstd::set_lib::lemma_map_size(s, t, f);
}


/// `order` is a topological order in which consecutive nodes are joined by edges.
pub open spec fn is_linear_order<G: Graph>(g: &G, order: Seq<usize>) -> bool {
    &&& is_top_order(g, order)
    &&& forall|i: int| 0 <= i < order.len() - 1 ==> has_edge(g, #[trigger] order[i] as int, order[i + 1] as int)
}

/// A sequence of `n` distinct nodes below `n` contains every node below `n`.
pub proof fn lemma_permutation_covers(o: Seq<usize>, n: int, x: int)
    requires
        o.len() == n,
        o.no_duplicates(),
        forall|i: int| 0 <= i < o.len() ==> #[trigger] o[i] < n,
        0 <= x < n,
    ensures
        exists|j: int| 0 <= j < n && o[j] == x,
{
    if !(exists|j: int| 0 <= j < n && o[j] == x) {
        let s = vstd::set_lib::set_int_range(0, n);
        let f = |i: int| o[i] as int;
        let img = s.map(f);
        let t = vstd::set_lib::set_int_range(0, n).remove(x);
        vstd::set_lib::lemma_int_range(0, n);
        assert(vstd::relations::injective_on(f, s)) by {
            assert forall|a: int, b: int| s.contains(a) && s.contains(b) && #[trigger] f(a) == #[trigger] f(b) implies a == b by {
                if a != b {
                    assert(o[a] != o[b]);
                }
            }
        }
        vstd::set_lib::lemma_map_size(s, img, f);
        assert(img.subset_of(t)) by {
            assert forall|y: int| img.contains(y) implies t.contains(y) by {
                let i = choose|i: int| s.contains(i) && f(i) == y;
                assert(o[i] != x);
            }
        }
        vstd::set_lib::lemma_len_subset(img, t);
    }
}

/// The position of `x` in the order `o`.
pub open spec fn index_in(o: Seq<usize>, x: int) -> int {
    choose|j: int| 0 <= j < o.len() && o[j] == x
}

pub proof fn lemma_index_in(o: Seq<usize>, n: int, x: int)
    requires
        o.len() == n,
        o.no_duplicates(),
        forall|i: int| 0 <= i < o.len() ==> #[trigger] o[i] < n,
        0 <= x < n,
    ensures
        0 <= index_in(o, x) < n,
        o[index_in(o, x)] == x,
{
    lemma_permutation_covers(o, n, x);
}

/// A graph with a topological order has no cycle.
pub proof fn lemma_top_order_acyclic<G: Graph>(g: &G, o: Seq<usize>)
    requires
        is_top_order(g, o),
    ensures
        !has_cycle(g),
{
    let n = g.spec_num_nodes() as int;
    if has_cycle(g) {
        let p = choose|p: Seq<usize>| is_path(g, p) && p.len() >= 2 && p[0] == p.last();
        assert forall|i: int| 0 <= i < p.len() implies index_in(o, p[0] as int) + i <= #[trigger] index_in(o, p[i] as int) by {
            lemma_path_positions(g, o, p, i);
        }
        let last = p.len() - 1;
        assert(index_in(o, p[0] as int) + last <= index_in(o, p[last] as int));
    }
}

proof fn lemma_path_positions<G: Graph>(g: &G, o: Seq<usize>, p: Seq<usize>, i: int)
    requires
        is_top_order(g, o),
        is_path(g, p),
        0 <= i < p.len(),
    ensures
        index_in(o, p[0] as int) + i <= index_in(o, p[i] as int),
    decreases i,
{
    let n = g.spec_num_nodes() as int;
    lemma_index_in(o, n, p[i] as int);
    if i > 0 {
        lemma_path_positions(g, o, p, i - 1);
        lemma_index_in(o, n, p[i - 1] as int);
        let a = index_in(o, p[i - 1] as int);
        let b = index_in(o, p[i] as int);
        assert(has_edge(g, p[i - 1] as int, p[i] as int));
        assert(has_edge(g, o[a] as int, o[b] as int));
    }
}

/// If consecutive nodes of a topological order are joined by edges, it is the only
/// topological order.
pub proof fn lemma_linear_order_unique<G: Graph>(g: &G, o: Seq<usize>, o2: Seq<usize>)
    requires
        is_linear_order(g, o),
        is_top_order(g, o2),
    ensures
        o2 == o,
{
    let n = g.spec_num_nodes() as int;
    assert forall|i: int| 0 <= i < n implies #[trigger] index_in(o2, o[i] as int) >= i by {
        lemma_lower(g, o, o2, i);
    }
    assert forall|i: int| 0 <= i < n implies #[trigger] index_in(o2, o[i] as int) <= i by {
        lemma_upper(g, o, o2, i);
    }
    assert forall|i: int| 0 <= i < n implies o2[i] == o[i] by {
        lemma_index_in(o2, n, o[i] as int);
        assert(index_in(o2, o[i] as int) >= i);
        assert(index_in(o2, o[i] as int) <= i);
    }
    assert(o2 =~= o);
}

proof fn lemma_step<G: Graph>(g: &G, o: Seq<usize>, o2: Seq<usize>, i: int)
    requires
        is_linear_order(g, o),
        is_top_order(g, o2),
        0 <= i < o.len() - 1,
    ensures
        index_in(o2, o[i] as int) < index_in(o2, o[i + 1] as int),
{
    let n = g.spec_num_nodes() as int;
    lemma_index_in(o2, n, o[i] as int);
    lemma_index_in(o2, n, o[i + 1] as int);
    let a = index_in(o2, o[i] as int);
    let b = index_in(o2, o[i + 1] as int);
    assert(has_edge(g, o[i] as int, o[i + 1] as int));
    assert(has_edge(g, o2[a] as int, o2[b] as int));
}

proof fn lemma_lower<G: Graph>(g: &G, o: Seq<usize>, o2: Seq<usize>, i: int)
    requires
        is_linear_order(g, o),
        is_top_order(g, o2),
        0 <= i < o.len(),
    ensures
        index_in(o2, o[i] as int) >= i,
    decreases i,
{
    let n = g.spec_num_nodes() as int;
    lemma_index_in(o2, n, o[i] as int);
    if i > 0 {
        lemma_lower(g, o, o2, i - 1);
        lemma_step(g, o, o2, i - 1);
    }
}

proof fn lemma_upper<G: Graph>(g: &G, o: Seq<usize>, o2: Seq<usize>, i: int)
    requires
        is_linear_order(g, o),
        is_top_order(g, o2),
        0 <= i < o.len(),
    ensures
        index_in(o2, o[i] as int) <= i,
    decreases o.len() - i,
{
    let n = g.spec_num_nodes() as int;
    lemma_index_in(o2, n, o[i] as int);
    if i < o.len() - 1 {
        lemma_upper(g, o, o2, i + 1);
        lemma_step(g, o, o2, i);
    }
}

/// If two consecutive nodes of a topological order are not joined by an edge, swapping them
/// gives another topological order.
pub proof fn lemma_gap_gives_other_order<G: Graph>(g: &G, o: Seq<usize>, i: int)
    requires
        is_top_order(g, o),
        0 <= i < o.len() - 1,
        !has_edge(g, o[i] as int, o[i + 1] as int),
    ensures
        is_top_order(g, o.update(i, o[i + 1]).update(i + 1, o[i])),
        o.update(i, o[i + 1]).update(i + 1, o[i]) != o,
{
    let s = o.update(i, o[i + 1]).update(i + 1, o[i]);
    assert(s[i] != o[i]) by {
        assert(o[i] != o[i + 1]);
    }
    let sw = |k: int| if k == i { i + 1 } else if k == i + 1 { i } else { k };
    assert forall|k: int| 0 <= k < s.len() implies s[k] == o[sw(k)] by {}
    assert forall|a: int, b: int| 0 <= a < b < s.len() implies s[a] != s[b] by {
        assert(s[a] == o[sw(a)]);
        assert(s[b] == o[sw(b)]);
        assert(sw(a) != sw(b));
    }
    assert forall|a: int, b: int|
        0 <= a < s.len() && 0 <= b < s.len() && has_edge(g, #[trigger] s[a] as int, #[trigger] s[b] as int) implies a < b by {
        assert(s[a] == o[sw(a)]);
        assert(s[b] == o[sw(b)]);
        assert(sw(a) < sw(b));
        if !(a < b) {
            if a == b {
            } else {
                assert(b == i && a == i + 1);
            }
        }
    }
    assert(s.no_duplicates());
}

/// A graph has a linear order exactly when its topological sort is unique.
pub proof fn lemma_linear_iff_unique<G: Graph>(g: &G, o: Seq<usize>)
    requires
        is_top_order(g, o),
    ensures
        is_linear_order(g, o) <==> forall|o2: Seq<usize>| #[trigger] is_top_order(g, o2) ==> o2 == o,
{
    if is_linear_order(g, o) {
        assert forall|o2: Seq<usize>| #[trigger] is_top_order(g, o2) implies o2 == o by {
            lemma_linear_order_unique(g, o, o2);
        }
    } else {
        let i = choose|i: int| 0 <= i < o.len() - 1 && !has_edge(g, #[trigger] o[i] as int, o[i + 1] as int);
        lemma_gap_gives_other_order(g, o, i);
        let s = o.update(i, o[i + 1]).update(i + 1, o[i]);
        assert(is_top_order(g, s));
    }
}

/// Is there an edge from `u` to `v`?
pub fn edge_exists<G: Graph>(g: &G, u: usize, v: usize) -> (r: bool)
    requires
        u < g.spec_num_nodes(),
    ensures
        r == has_edge(g, u as int, v as int),
{
    let out = g.out_edges(u);
    let mut k: usize = 0;
    while k < out.len()
        invariant
            k <= out.len(),
            u < g.spec_num_nodes(),
            out@ == g.spec_out(u as int),
            forall|j: int| 0 <= j < k ==> out@[j] != v,
        decreases out.len() - k,
    {
        if out[k] == v {
            assert(g.spec_out(u as int)[k as int] == v);
            return true;
        }
        k = k + 1;
    }
    false
}

/// If the graph has a unique topological sort (equivalently: a topological sort in which
/// consecutive nodes are joined by edges), returns it.
pub fn linear_order<G: Graph>(g: &G) -> (r: Option<Vec<usize>>)
    requires
        valid_graph(g),
    ensures
        match r {
            Some(order) => is_linear_order(g, order@),
            None => forall|o: Seq<usize>| !is_linear_order(g, o),
        },
{
    match top_sort(g) {
        None => {
            proof {
                assert forall|o: Seq<usize>| !is_linear_order(g, o) by {
                    if is_linear_order(g, o) {
                        lemma_top_order_acyclic(g, o);
                    }
                }
            }
            None
        },
        Some(top) => {
            let mut i: usize = 0;
            while top.len() > 0 && i < top.len() - 1
                invariant
                    is_top_order(g, top@),
                    i <= top.len(),
                    top.len() > 0 ==> i <= top.len() - 1,
                    forall|j: int| 0 <= j < i ==> has_edge(g, #[trigger] top@[j] as int, top@[j + 1] as int),
                decreases top.len() - i,
            {
                if !edge_exists(g, top[i], top[i + 1]) {
                    proof {
                        assert forall|o: Seq<usize>| !is_linear_order(g, o) by {
                            if is_linear_order(g, o) {
                                lemma_linear_order_unique(g, o, top@);
                            }
                        }
                    }
                    return None;
                }
                i = i + 1;
            }
            assert(top@.len() == 0 || i == top@.len() - 1);
            Some(top)
        },
    }
}

} // verus!
