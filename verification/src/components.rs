//! Weakly and strongly connected components of directed graphs.

use vstd::prelude::*;

use crate::graph::{copy_usizes, has_cycle, has_edge, is_path, valid_graph, Graph};
use crate::partition::{covered, is_partition, views, Partition};
use crate::reach::{reach_set, reaches};
use crate::topo::{index_in, is_top_order, lemma_index_in, lemma_permutation_covers, top_sort};

verus! {

/// The in-edges of `v` include one from `u`.
pub open spec fn has_in_edge<G: Graph>(g: &G, v: int, u: int) -> bool {
    &&& 0 <= v < g.spec_num_nodes()
    &&& exists|k: int| 0 <= k < g.spec_in(v).len() && g.spec_in(v)[k] == u
}

/// The in-edges of the graph are its out-edges seen from the other end.
pub open spec fn mirrored<G: Graph>(g: &G) -> bool {
    forall|u: int, v: int| #[trigger] has_edge(g, u, v) <==> #[trigger] has_in_edge(g, v, u)
}

/// `u` and `v` are joined by an edge, in one direction or the other.
pub open spec fn ulink<G: Graph>(g: &G, u: int, v: int) -> bool {
    has_edge(g, u, v) || has_edge(g, v, u)
}

/// `p` is a walk that may follow edges in either direction.
pub open spec fn uwalk<G: Graph>(g: &G, p: Seq<usize>) -> bool {
    &&& p.len() >= 1
    &&& forall|i: int| 0 <= i < p.len() ==> #[trigger] p[i] < g.spec_num_nodes()
    &&& forall|i: int| 0 <= i < p.len() - 1 ==> #[trigger] ulink(g, p[i] as int, p[i + 1] as int)
}

/// `u` and `v` lie in the same weakly connected component.
pub open spec fn connected<G: Graph>(g: &G, u: int, v: int) -> bool {
    exists|p: Seq<usize>| #[trigger] uwalk(g, p) && p[0] == u && p.last() == v
}

proof fn lemma_connected_refl<G: Graph>(g: &G, u: usize)
    requires
        u < g.spec_num_nodes(),
    ensures
        connected(g, u as int, u as int),
{
    let p = seq![u];
    assert(uwalk(g, p));
}

proof fn lemma_connected_step<G: Graph>(g: &G, u: int, x: usize, y: usize)
    requires
        connected(g, u, x as int),
        ulink(g, x as int, y as int),
        y < g.spec_num_nodes(),
    ensures
        connected(g, u, y as int),
{
    let p = choose|p: Seq<usize>| #[trigger] uwalk(g, p) && p[0] == u && p.last() == x;
    let w = p.push(y);
    assert forall|i: int| 0 <= i < w.len() - 1 implies #[trigger] ulink(g, w[i] as int, w[i + 1] as int) by {
        if i < w.len() - 2 {
            assert(ulink(g, p[i] as int, p[i + 1] as int));
        }
    }
    assert(uwalk(g, w));
}

proof fn lemma_connected_symm<G: Graph>(g: &G, u: int, v: int)
    requires
        connected(g, u, v),
    ensures
        connected(g, v, u),
{
    let p = choose|p: Seq<usize>| #[trigger] uwalk(g, p) && p[0] == u && p.last() == v;
    let q = p.reverse();
    assert forall|i: int| 0 <= i < q.len() - 1 implies #[trigger] ulink(g, q[i] as int, q[i + 1] as int) by {
        let j = p.len() - 2 - i;
        assert(ulink(g, p[j] as int, p[j + 1] as int));
        assert(q[i] == p[j + 1]);
        assert(q[i + 1] == p[j]);
    }
    assert forall|i: int| 0 <= i < q.len() implies #[trigger] q[i] < g.spec_num_nodes() by {
        assert(q[i] == p[p.len() - 1 - i]);
    }
    assert(uwalk(g, q));
}

proof fn lemma_connected_trans<G: Graph>(g: &G, u: int, v: int, w: int)
    requires
        connected(g, u, v),
        connected(g, v, w),
    ensures
        connected(g, u, w),
{
    let p = choose|p: Seq<usize>| #[trigger] uwalk(g, p) && p[0] == u && p.last() == v;
    let q = choose|q: Seq<usize>| #[trigger] uwalk(g, q) && q[0] == v && q.last() == w;
    let r = p + q.drop_first();
    assert forall|i: int| 0 <= i < r.len() implies #[trigger] r[i] < g.spec_num_nodes() by {
        if i >= p.len() {
            assert(r[i] == q[i - p.len() + 1]);
        }
    }
    assert forall|i: int| 0 <= i < r.len() - 1 implies #[trigger] ulink(g, r[i] as int, r[i + 1] as int) by {
        if i < p.len() - 1 {
            assert(ulink(g, p[i] as int, p[i + 1] as int));
        } else if i == p.len() - 1 {
            assert(r[i] == q[0]);
            assert(r[i + 1] == q[1]);
            assert(ulink(g, q[0] as int, q[1] as int));
        } else {
            let j = i - p.len() + 1;
            assert(r[i] == q[j]);
            assert(r[i + 1] == q[j + 1]);
            assert(ulink(g, q[j] as int, q[j + 1] as int));
        }
    }
    if q.len() == 1 {
        assert(r =~= p);
    }
    assert(uwalk(g, r));
}

/// Labels that are closed under edges keep the same value along a walk.
proof fn lemma_label_along<G: Graph>(g: &G, label: Seq<usize>, p: Seq<usize>, i: int)
    requires
        label.len() == g.spec_num_nodes(),
        forall|x: int, y: int| 0 <= x < label.len() && 0 <= y < label.len() && #[trigger] ulink(g, x, y)
            ==> label[x] == label[y],
        uwalk(g, p),
        0 <= i < p.len(),
    ensures
        label[p[i] as int] == label[p[0] as int],
    decreases i,
{
    if i > 0 {
        lemma_label_along(g, label, p, i - 1);
        let k = i - 1;
        assert(ulink(g, p[k] as int, p[k + 1] as int));
    }
}

/// The neighbors of `x`, through out-edges and in-edges.
fn neighbors<G: Graph>(g: &G, x: usize) -> (r: Vec<usize>)
    requires
        valid_graph(g),
        mirrored(g),
        x < g.spec_num_nodes(),
    ensures
        forall|i: int| 0 <= i < r@.len() ==> #[trigger] r@[i] < g.spec_num_nodes() && ulink(g, x as int, r@[i] as int),
        forall|w: int| #[trigger] ulink(g, x as int, w) ==> r@.contains(w as usize),
{
    let mut r = g.out_edges(x);
    let inn = g.in_edges(x);
    let ghost o = r@;
    let mut k: usize = 0;
    while k < inn.len()
        invariant
            valid_graph(g),
            mirrored(g),
            x < g.spec_num_nodes(),
            inn@ == g.spec_in(x as int),
            o == g.spec_out(x as int),
            k <= inn.len(),
            r@ == o + inn@.take(k as int),
        decreases inn.len() - k,
    {
        r.push(inn[k]);
        proof {
            assert(r@ =~= o + inn@.take(k + 1));
        }
        k = k + 1;
    }
    proof {
        assert(inn@.take(inn@.len() as int) =~= inn@);
        assert forall|i: int| 0 <= i < r@.len() implies #[trigger] r@[i] < g.spec_num_nodes() && ulink(g, x as int, r@[i] as int) by {
            if i < o.len() {
                assert(has_edge(g, x as int, o[i] as int));
            } else {
                let k = i - o.len();
                assert(r@[i] == inn@[k]);
                assert(has_in_edge(g, x as int, inn@[k] as int));
                assert(has_edge(g, inn@[k] as int, x as int));
            }
        }
        assert forall|w: int| #[trigger] ulink(g, x as int, w) implies r@.contains(w as usize) by {
            if has_edge(g, x as int, w) {
                let k = choose|k: int| 0 <= k < o.len() && o[k] == w;
                assert(r@[k] == w);
            } else {
                assert(has_in_edge(g, x as int, w));
                let k = choose|k: int| 0 <= k < inn@.len() && inn@[k] == w;
                assert(r@[o.len() + k] == w);
            }
        }
    }
    r
}


/// Gives the label `c + 1` to the unlabelled neighbors of `x`, and queues them.
fn label_neighbors<G: Graph>(g: &G, x: usize, c: usize, label: &mut Vec<usize>, queue: &mut Vec<usize>)
    requires
        valid_graph(g),
        mirrored(g),
        x < g.spec_num_nodes(),
        c < usize::MAX,
        old(label)@.len() == g.spec_num_nodes(),
        forall|v: int| 0 <= v < old(label)@.len() ==> (old(label)@[v] == c + 1 <==> old(queue)@.contains(v as usize)),
        old(queue)@.no_duplicates(),
        forall|i: int| 0 <= i < old(queue)@.len() ==> #[trigger] old(queue)@[i] < g.spec_num_nodes(),
    ensures
        final(label)@.len() == g.spec_num_nodes(),
        forall|v: int| 0 <= v < final(label)@.len() ==> (final(label)@[v] == c + 1 <==> final(queue)@.contains(v as usize)),
        final(queue)@.no_duplicates(),
        forall|i: int| 0 <= i < final(queue)@.len() ==> #[trigger] final(queue)@[i] < g.spec_num_nodes(),
        final(queue)@.len() >= old(queue)@.len(),
        forall|i: int| 0 <= i < old(queue)@.len() ==> final(queue)@[i] == old(queue)@[i],
        forall|i: int| old(queue)@.len() <= i < final(queue)@.len() ==> ulink(g, x as int, #[trigger] final(queue)@[i] as int),
        forall|v: int| 0 <= v < old(label)@.len() ==> (#[trigger] final(label)@[v] == old(label)@[v] || (old(label)@[v] == 0 && final(label)@[v] == c + 1)),
        forall|w: int| #[trigger] ulink(g, x as int, w) ==> final(label)@[w] != 0,
{
    let nb = neighbors(g, x);
    let mut k: usize = 0;
    while k < nb.len()
        invariant
            valid_graph(g),
            x < g.spec_num_nodes(),
            c < usize::MAX,
            forall|i: int| 0 <= i < nb@.len() ==> #[trigger] nb@[i] < g.spec_num_nodes() && ulink(g, x as int, nb@[i] as int),
            forall|w: int| #[trigger] ulink(g, x as int, w) ==> nb@.contains(w as usize),
            old(label)@.len() == g.spec_num_nodes(),
            k <= nb.len(),
            label@.len() == g.spec_num_nodes(),
            forall|v: int| 0 <= v < label@.len() ==> (label@[v] == c + 1 <==> queue@.contains(v as usize)),
            queue@.no_duplicates(),
            forall|i: int| 0 <= i < queue@.len() ==> #[trigger] queue@[i] < g.spec_num_nodes(),
            queue@.len() >= old(queue)@.len(),
            forall|i: int| 0 <= i < old(queue)@.len() ==> queue@[i] == old(queue)@[i],
            forall|i: int| old(queue)@.len() <= i < queue@.len() ==> ulink(g, x as int, #[trigger] queue@[i] as int),
            forall|v: int| 0 <= v < old(label)@.len() ==> (#[trigger] label@[v] == old(label)@[v] || (old(label)@[v] == 0 && label@[v] == c + 1)),
            forall|j: int| 0 <= j < k ==> label@[#[trigger] nb@[j] as int] != 0,
        decreases nb.len() - k,
    {
        let w = nb[k];
        assert(w < g.spec_num_nodes() && ulink(g, x as int, w as int));
        if label[w] == 0 {
            let ghost q0 = queue@;
            let ghost l0 = label@;
            label.set(w, c + 1);
            queue.push(w);
            proof {
                assert(label@ == l0.update(w as int, (c + 1) as usize));
                assert forall|v: int| 0 <= v < label@.len() implies (label@[v] == c + 1 <==> queue@.contains(v as usize)) by {
                    if v != w as int {
                        assert(label@[v] == l0[v]);
                        if queue@.contains(v as usize) {
                            let i = choose|i: int| 0 <= i < queue@.len() && queue@[i] == v as usize;
                            assert(q0[i] == v as usize);
                        }
                        if q0.contains(v as usize) {
                            let i = choose|i: int| 0 <= i < q0.len() && q0[i] == v as usize;
                            assert(queue@[i] == v as usize);
                        }
                    } else {
                        assert(queue@[q0.len() as int] == w);
                    }
                }
                assert forall|i: int, j: int| 0 <= i < j < queue@.len() implies queue@[i] != queue@[j] by {
                    if j == q0.len() {
                        assert(q0.contains(q0[i]));
                    }
                }
                assert forall|v: int| 0 <= v < old(label)@.len() implies (#[trigger] label@[v] == old(label)@[v]
                    || (old(label)@[v] == 0 && label@[v] == c + 1)) by {
                    if v != w as int {
                        assert(label@[v] == l0[v]);
                    }
                }
                assert forall|j: int| 0 <= j < k implies label@[#[trigger] nb@[j] as int] != 0 by {
                    if nb@[j] != w {
                        assert(label@[nb@[j] as int] == l0[nb@[j] as int]);
                    }
                }
            }
        }
        k = k + 1;
    }
    proof {
        assert forall|w: int| #[trigger] ulink(g, x as int, w) implies label@[w] != 0 by {
            let j = choose|j: int| 0 <= j < nb@.len() && nb@[j] == w as usize;
            assert(label@[nb@[j] as int] != 0);
        }
    }
}

/// The weakly connected components of the graph: two nodes share a part exactly when a walk
/// that may follow edges in either direction joins them.
pub fn weak_components<G: Graph>(g: &G) -> (r: Partition)
    requires
        valid_graph(g),
        mirrored(g),
    ensures
        r.wf(),
        r.spec_size() == g.spec_num_nodes(),
        forall|i: int| 0 <= i < r.spec_parts().len() ==> (#[trigger] r.spec_parts()[i]).len() >= 1,
        forall|u: int, v: int| 0 <= u < g.spec_num_nodes() && 0 <= v < g.spec_num_nodes() ==>
            (r.spec_index_of(u) == r.spec_index_of(v) <==> connected(g, u, v)),
{
    let n = g.num_nodes();
    let mut label: Vec<usize> = Vec::new();
    let mut i: usize = 0;
    while i < n
        invariant
            i <= n,
            label@.len() == i,
            forall|v: int| 0 <= v < i ==> label@[v] == 0,
        decreases n - i,
    {
        label.push(0);
        i = i + 1;
    }
    let mut comps: Vec<Vec<usize>> = Vec::new();
    let mut r: usize = 0;
    while r < n
        invariant
            valid_graph(g),
            mirrored(g),
            n == g.spec_num_nodes(),
            r <= n,
            label@.len() == n,
            comps@.len() <= r,
            forall|v: int| 0 <= v < n ==> label@[v] <= comps@.len(),
            forall|v: int| 0 <= v < n && label@[v] > 0 ==> views(comps@)[label@[v] - 1].contains(v as usize),
            forall|i: int, k: int| 0 <= i < comps@.len() && 0 <= k < comps@[i]@.len() ==>
                #[trigger] comps@[i]@[k] < n && label@[comps@[i]@[k] as int] == i + 1,
            forall|i: int| 0 <= i < comps@.len() ==> (#[trigger] comps@[i]@).no_duplicates() && comps@[i]@.len() >= 1,
            forall|v: int| 0 <= v < r ==> label@[v] > 0,
            forall|x: int, y: int| 0 <= x < n && 0 <= y < n && label@[x] > 0 && #[trigger] ulink(g, x, y) ==> label@[y] == label@[x],
            forall|i: int, k: int| 0 <= i < comps@.len() && 0 <= k < comps@[i]@.len() ==>
                connected(g, comps@[i]@[0] as int, #[trigger] comps@[i]@[k] as int),
        decreases n - r,
    {
        if label[r] == 0 {
            let c = comps.len();
            let ghost l_start = label@;
            label.set(r, c + 1);
            let mut queue: Vec<usize> = Vec::new();
            queue.push(r);
            proof {
                lemma_connected_refl(g, r);
                assert forall|v: int| 0 <= v < label@.len() implies (label@[v] == c + 1 <==> queue@.contains(v as usize)) by {
                    if v != r {
                        assert(label@[v] == l_start[v]);
                    } else {
                        assert(queue@[0] == r);
                    }
                }
            }
            let mut done: usize = 0;
            while done < queue.len()
                invariant
                    valid_graph(g),
                    mirrored(g),
                    n == g.spec_num_nodes(),
                    r < n,
                    c == comps@.len(),
                    c < r + 1,
                    label@.len() == n,
                    done <= queue@.len(),
                    queue@[0] == r,
                    queue@.len() >= 1,
                    queue@.no_duplicates(),
                    forall|i: int| 0 <= i < queue@.len() ==> #[trigger] queue@[i] < n,
                    forall|v: int| 0 <= v < n ==> (label@[v] == c + 1 <==> queue@.contains(v as usize)),
                    forall|v: int| 0 <= v < n ==> label@[v] <= c + 1,
                    forall|v: int| 0 <= v < n && label@[v] > 0 && label@[v] <= c ==> views(comps@)[label@[v] - 1].contains(v as usize),
                    forall|i: int, k: int| 0 <= i < comps@.len() && 0 <= k < comps@[i]@.len() ==>
                        #[trigger] comps@[i]@[k] < n && label@[comps@[i]@[k] as int] == i + 1,
                    forall|v: int| 0 <= v < r ==> label@[v] > 0,
                    forall|x: int, y: int| 0 <= x < n && 0 <= y < n && label@[x] > 0 && label@[x] <= c && #[trigger] ulink(g, x, y)
                        ==> label@[y] == label@[x],
                    forall|j: int, y: int| 0 <= j < done && #[trigger] ulink(g, queue@[j] as int, y) ==> label@[y] != 0,
                    forall|i: int| 0 <= i < queue@.len() ==> connected(g, r as int, #[trigger] queue@[i] as int),
                decreases n - done,
            {
                proof {
                    crate::reach::lemma_distinct_below(queue@, n as nat);
                }
                let x = queue[done];
                let ghost q0 = queue@;
                let ghost l0 = label@;
                label_neighbors(g, x, c, &mut label, &mut queue);
                proof {
                    assert forall|v: int| 0 <= v < n && label@[v] > 0 && label@[v] <= c implies
                        views(comps@)[label@[v] - 1].contains(v as usize) by {
                        assert(label@[v] == l0[v]);
                    }
                    assert forall|i: int, k: int| 0 <= i < comps@.len() && 0 <= k < comps@[i]@.len() implies
                        #[trigger] comps@[i]@[k] < n && label@[comps@[i]@[k] as int] == i + 1 by {
                        assert(l0[comps@[i]@[k] as int] == i + 1);
                        assert(label@[comps@[i]@[k] as int] == l0[comps@[i]@[k] as int]);
                    }
                    assert forall|v: int| 0 <= v < r implies label@[v] > 0 by {
                        assert(l0[v] > 0);
                        assert(label@[v] == l0[v]);
                    }
                    assert forall|x2: int, y: int| 0 <= x2 < n && 0 <= y < n && label@[x2] > 0 && label@[x2] <= c && #[trigger] ulink(g, x2, y)
                        implies label@[y] == label@[x2] by {
                        assert(label@[x2] == l0[x2]);
                        assert(l0[y] == l0[x2]);
                        assert(label@[y] == l0[y]);
                    }
                    assert forall|j: int, y: int| 0 <= j < done + 1 && #[trigger] ulink(g, queue@[j] as int, y) implies label@[y] != 0 by {
                        assert(queue@[j] == q0[j]);
                        if j < done {
                            assert(l0[y] != 0);
                            assert(label@[y] == l0[y] || label@[y] == c + 1);
                        }
                    }
                    assert forall|i: int| 0 <= i < queue@.len() implies connected(g, r as int, #[trigger] queue@[i] as int) by {
                        if i < q0.len() {
                            assert(queue@[i] == q0[i]);
                        } else {
                            assert(connected(g, r as int, q0[done as int] as int));
                            lemma_connected_step(g, r as int, x, queue@[i]);
                        }
                    }
                }
                done = done + 1;
            }
            let ghost q = queue@;
            proof {
                assert forall|x: int, y: int| 0 <= x < n && 0 <= y < n && label@[x] == c + 1 && #[trigger] ulink(g, x, y)
                    implies label@[y] == c + 1 by {
                    let j = choose|j: int| 0 <= j < q.len() && q[j] == x as usize;
                    assert(ulink(g, q[j] as int, y));
                    assert(label@[y] != 0);
                    if label@[y] != c + 1 {
                        assert(ulink(g, y, x));
                    }
                }
            }
            comps.push(queue);
            proof {
                assert(views(comps@)[c as int] == q);
                assert forall|v: int| 0 <= v < n && label@[v] > 0 implies views(comps@)[label@[v] - 1].contains(v as usize) by {
                    if label@[v] <= c {
                        assert(views(comps@)[label@[v] - 1] == comps@[label@[v] - 1]@);
                    }
                }
                assert forall|i: int, k: int| 0 <= i < comps@.len() && 0 <= k < comps@[i]@.len() implies
                    #[trigger] comps@[i]@[k] < n && label@[comps@[i]@[k] as int] == i + 1 by {
                    if i == c {
                        assert(comps@[i]@ == q);
                        assert(q.contains(q[k]));
                    }
                }
                assert forall|i: int, k: int| 0 <= i < comps@.len() && 0 <= k < comps@[i]@.len() implies
                    connected(g, comps@[i]@[0] as int, #[trigger] comps@[i]@[k] as int) by {
                    if i == c {
                        assert(comps@[i]@ == q);
                    }
                }
            }
        }
        r = r + 1;
    }
    let ghost parts = views(comps@);
    proof {
        assert forall|i: int, k: int| 0 <= i < parts.len() && 0 <= k < parts[i].len() implies #[trigger] parts[i][k] < n by {
            assert(parts[i] == comps@[i]@);
            assert(comps@[i]@[k] < n);
        }
        assert forall|i: int| 0 <= i < parts.len() implies (#[trigger] parts[i]).no_duplicates() by {
            assert(parts[i] == comps@[i]@);
        }
        assert forall|u: usize| u < n implies #[trigger] covered(parts, u) by {
            assert(parts[label@[u as int] - 1].contains(u));
        }
        assert forall|i: int, j: int, u: usize| 0 <= i < parts.len() && 0 <= j < parts.len()
            && #[trigger] parts[i].contains(u) && #[trigger] parts[j].contains(u) implies i == j by {
            let k = choose|k: int| 0 <= k < parts[i].len() && parts[i][k] == u;
            let l = choose|l: int| 0 <= l < parts[j].len() && parts[j][l] == u;
            assert(parts[i] == comps@[i]@);
            assert(parts[j] == comps@[j]@);
            assert(label@[comps@[i]@[k] as int] == i + 1);
            assert(label@[comps@[j]@[l] as int] == j + 1);
        }
        assert(is_partition(parts, n as nat));
    }
    let ghost lab = label@;
    let result = Partition::new(g, comps);
    proof {
        result.lemma_wf();
        assert forall|i: int| 0 <= i < result.spec_parts().len() implies (#[trigger] result.spec_parts()[i]).len() >= 1 by {
            assert(parts[i] == comps@[i]@);
        }
        assert forall|u: int| 0 <= u < n implies #[trigger] result.spec_index_of(u) == lab[u] - 1 by {
            assert(0 <= result.spec_index_of(u) < parts.len());
            assert(parts[result.spec_index_of(u)].contains(u as usize));
            assert(parts[lab[u] - 1].contains(u as usize));
        }
        assert forall|u: int, v: int| 0 <= u < n && 0 <= v < n implies
            (result.spec_index_of(u) == result.spec_index_of(v) <==> connected(g, u, v)) by {
            assert(result.spec_index_of(u) == lab[u] - 1);
            assert(result.spec_index_of(v) == lab[v] - 1);
            if connected(g, u, v) {
                let p = choose|p: Seq<usize>| #[trigger] uwalk(g, p) && p[0] == u && p.last() == v;
                lemma_label_along(g, lab, p, p.len() - 1);
            }
            if lab[u] == lab[v] {
                let i = lab[u] - 1;
                let k = choose|k: int| 0 <= k < parts[i].len() && parts[i][k] == u as usize;
                let l = choose|l: int| 0 <= l < parts[i].len() && parts[i][l] == v as usize;
                assert(parts[i] == comps@[i]@);
                assert(connected(g, comps@[i]@[0] as int, comps@[i]@[k] as int));
                assert(connected(g, comps@[i]@[0] as int, comps@[i]@[l] as int));
                lemma_connected_symm(g, comps@[i]@[0] as int, u);
                lemma_connected_trans(g, u, comps@[i]@[0] as int, v);
            }
        }
    }
    result
}


/// `u` and `v` lie in the same strongly connected component: they are equal, or each can be
/// reached from the other.
pub open spec fn strongly_connected<G: Graph>(g: &G, u: int, v: int) -> bool {
    u == v || (reaches(g, u, v) && reaches(g, v, u))
}

proof fn lemma_reach_trans<G: Graph>(g: &G, u: int, v: int, w: int)
    requires
        reaches(g, u, v),
        reaches(g, v, w),
    ensures
        reaches(g, u, w),
{
    let p = choose|p: Seq<usize>| #[trigger] is_path(g, p) && p.len() >= 2 && p[0] == u && p.last() == v;
    let q = choose|q: Seq<usize>| #[trigger] is_path(g, q) && q.len() >= 2 && q[0] == v && q.last() == w;
    let r = p + q.drop_first();
    assert forall|i: int| 0 <= i < r.len() implies #[trigger] r[i] < g.spec_num_nodes() by {
        if i >= p.len() {
            assert(r[i] == q[i - p.len() + 1]);
        }
    }
    assert forall|i: int| 0 <= i < r.len() - 1 implies has_edge(g, #[trigger] r[i] as int, r[i + 1] as int) by {
        if i < p.len() - 1 {
            assert(has_edge(g, p[i] as int, p[i + 1] as int));
        } else if i == p.len() - 1 {
            assert(r[i + 1] == q[1]);
            assert(has_edge(g, q[0] as int, q[1] as int));
        } else {
            let j = i - p.len() + 1;
            assert(r[i] == q[j]);
            assert(r[i + 1] == q[j + 1]);
            assert(has_edge(g, q[j] as int, q[j + 1] as int));
        }
    }
    assert(is_path(g, r));
    assert(r.last() == q.last());
}

proof fn lemma_reach_edge<G: Graph>(g: &G, u: int, v: int)
    requires
        valid_graph(g),
        has_edge(g, u, v),
    ensures
        reaches(g, u, v),
{
    let k = choose|k: int| 0 <= k < g.spec_out(u).len() && g.spec_out(u)[k] == v;
    let p = seq![u as usize, v as usize];
    assert(is_path(g, p));
}

proof fn lemma_sc_trans<G: Graph>(g: &G, u: int, v: int, w: int)
    requires
        strongly_connected(g, u, v),
        strongly_connected(g, v, w),
    ensures
        strongly_connected(g, u, w),
{
    if u != v && v != w && u != w {
        lemma_reach_trans(g, u, v, w);
        lemma_reach_trans(g, w, v, u);
    }
}

/// For each node, the nodes that can be reached from it.
fn reach_table<G: Graph>(g: &G) -> (t: Vec<Vec<bool>>)
    requires
        valid_graph(g),
    ensures
        t@.len() == g.spec_num_nodes(),
        forall|u: int| 0 <= u < t@.len() ==> (#[trigger] t@[u])@.len() == g.spec_num_nodes(),
        forall|u: int, v: int| 0 <= u < t@.len() && 0 <= v < t@.len() ==> (t@[u]@[v] <==> reaches(g, u, v)),
{
    let n = g.num_nodes();
    let mut t: Vec<Vec<bool>> = Vec::new();
    let mut u: usize = 0;
    while u < n
        invariant
            valid_graph(g),
            n == g.spec_num_nodes(),
            u <= n,
            t@.len() == u,
            forall|w: int| 0 <= w < u ==> (#[trigger] t@[w])@.len() == n,
            forall|w: int, v: int| 0 <= w < u && 0 <= v < n ==> (t@[w]@[v] <==> reaches(g, w, v)),
        decreases n - u,
    {
        t.push(reach_set(g, u));
        u = u + 1;
    }
    t
}

/// The facts about the parts of the condensation that the topological sort needs.
proof fn lemma_class_reach<G: Graph>(g: &G, p0: &Partition, lab: Seq<usize>, i: int, j: int, x: int, y: int)
    requires
        valid_graph(g),
        lab.len() == g.spec_num_nodes(),
        forall|a: int, b: int| 0 <= a < lab.len() && 0 <= b < lab.len() && lab[a] == lab[b] ==> strongly_connected(g, a, b),
        forall|u: int| 0 <= u < lab.len() ==> #[trigger] p0.spec_index_of(u) == lab[u] - 1,
        p0.spec_size() == g.spec_num_nodes(),
        0 <= i < p0.spec_parts().len(),
        0 <= j < p0.spec_parts().len(),
        has_edge(p0, i, j) <==> i != j && exists|u: int, v: int|
            #[trigger] has_edge(g, u, v) && p0.spec_index_of(u) == i && p0.spec_index_of(v) == j,
        has_edge(p0, i, j),
        0 <= x < lab.len(),
        0 <= y < lab.len(),
        p0.spec_index_of(x) == i,
        p0.spec_index_of(y) == j,
    ensures
        reaches(g, x, y),
{
    let (a, b) = choose|a: int, b: int| #[trigger] has_edge(g, a, b) && p0.spec_index_of(a) == i && p0.spec_index_of(b) == j;
    assert(0 <= a < lab.len());
    assert(0 <= b < lab.len()) by {
        let k = choose|k: int| 0 <= k < g.spec_out(a).len() && g.spec_out(a)[k] == b;
    }
    lemma_reach_edge(g, a, b);
    assert(lab[x] == lab[a]);
    assert(lab[y] == lab[b]);
    assert(strongly_connected(g, x, a));
    assert(strongly_connected(g, b, y));
    if x != a {
        lemma_reach_trans(g, x, a, b);
    }
    assert(reaches(g, x, b));
    if b != y {
        lemma_reach_trans(g, x, b, y);
    }
}

/// The strongly connected components of the graph, in topological order: two nodes share a
/// part exactly when each can be reached from the other, and every edge of the graph leads
/// from a part to the same part or to a later one.
pub fn tarjan<G: Graph>(g: &G) -> (r: Partition)
    requires
        valid_graph(g),
    ensures
        r.wf(),
        r.spec_size() == g.spec_num_nodes(),
        forall|u: int, v: int| 0 <= u < g.spec_num_nodes() && 0 <= v < g.spec_num_nodes() ==>
            (r.spec_index_of(u) == r.spec_index_of(v) <==> strongly_connected(g, u, v)),
        forall|u: int, v: int| #[trigger] has_edge(g, u, v) ==> r.spec_index_of(u) <= r.spec_index_of(v),
        forall|i: int| 0 <= i < r.spec_parts().len() ==> (#[trigger] r.spec_parts()[i]).len() >= 1,
        forall|i: int, j: int| 0 <= i < r.spec_parts().len() && 0 <= j < r.spec_parts().len() ==>
            (#[trigger] has_edge(&r, i, j) <==> i != j && exists|u: int, v: int|
                #[trigger] has_edge(g, u, v) && r.spec_index_of(u) == i && r.spec_index_of(v) == j),
        forall|i: int, j: int| #[trigger] has_edge(&r, i, j) ==> 0 <= i < j < r.spec_parts().len(),
        !has_cycle(&r),
{
    let n = g.num_nodes();
    let t = reach_table(g);
    let mut label: Vec<usize> = Vec::new();
    let mut i: usize = 0;
    while i < n
        invariant
            i <= n,
            label@.len() == i,
            forall|v: int| 0 <= v < i ==> label@[v] == 0,
        decreases n - i,
    {
        label.push(0);
        i = i + 1;
    }
    let mut comps: Vec<Vec<usize>> = Vec::new();
    let mut u: usize = 0;
    while u < n
        invariant
            valid_graph(g),
            n == g.spec_num_nodes(),
            t@.len() == n,
            forall|w: int| 0 <= w < n ==> (#[trigger] t@[w])@.len() == n,
            forall|w: int, v: int| 0 <= w < n && 0 <= v < n ==> (t@[w]@[v] <==> reaches(g, w, v)),
            u <= n,
            label@.len() == n,
            comps@.len() <= u,
            forall|v: int| 0 <= v < n ==> label@[v] <= comps@.len(),
            forall|v: int| 0 <= v < n && label@[v] > 0 ==> views(comps@)[label@[v] - 1].contains(v as usize),
            forall|i: int, k: int| 0 <= i < comps@.len() && 0 <= k < comps@[i]@.len() ==>
                #[trigger] comps@[i]@[k] < n && label@[comps@[i]@[k] as int] == i + 1,
            forall|i: int| 0 <= i < comps@.len() ==> (#[trigger] comps@[i]@).no_duplicates() && comps@[i]@.len() >= 1,
            forall|v: int| 0 <= v < u ==> label@[v] > 0,
            forall|x: int, y: int| 0 <= x < n && 0 <= y < n && label@[x] > 0 && #[trigger] strongly_connected(g, x, y)
                ==> label@[y] == label@[x],
            forall|x: int, y: int| 0 <= x < n && 0 <= y < n && label@[x] > 0 && label@[x] == label@[y]
                ==> strongly_connected(g, x, y),
        decreases n - u,
    {
        if label[u] == 0 {
            let c = comps.len();
            let ghost l0 = label@;
            label.set(u, c + 1);
            let mut comp: Vec<usize> = Vec::new();
            comp.push(u);
            proof {
                assert(label@ == l0.update(u as int, (c + 1) as usize));
                assert forall|w: int| 0 <= w < n implies (label@[w] == c + 1 <==> comp@.contains(w as usize)) by {
                    if w != u as int {
                        assert(label@[w] == l0[w]);
                        if comp@.contains(w as usize) {
                            let k = choose|k: int| 0 <= k < comp@.len() && comp@[k] == w as usize;
                        }
                    } else {
                        assert(comp@[0] == u);
                    }
                }
                assert forall|w: int| 0 <= w < n implies (#[trigger] label@[w] == l0[w] || (l0[w] == 0 && label@[w] == c + 1)) by {
                    if w != u as int {
                        assert(label@[w] == l0[w]);
                    }
                }
                assert(strongly_connected(g, u as int, comp@[0] as int));
            }
            let mut v: usize = 0;
            while v < n
                invariant
                    valid_graph(g),
                    n == g.spec_num_nodes(),
                    t@.len() == n,
                    forall|w: int| 0 <= w < n ==> (#[trigger] t@[w])@.len() == n,
                    forall|w: int, y: int| 0 <= w < n && 0 <= y < n ==> (t@[w]@[y] <==> reaches(g, w, y)),
                    u < n,
                    c == comps@.len(),
                    c < u + 1,
                    l0.len() == n,
                    l0[u as int] == 0,
                    label@.len() == n,
                    v <= n,
                    comp@[0] == u,
                    comp@.len() >= 1,
                    forall|k: int| 1 <= k < comp@.len() ==> #[trigger] comp@[k] < v && comp@[k] != u,
                    forall|k: int, l: int| 1 <= k < l < comp@.len() ==> comp@[k] < comp@[l],
                    forall|w: int| 0 <= w < n ==> (label@[w] == c + 1 <==> comp@.contains(w as usize)),
                    forall|w: int| 0 <= w < n ==> (#[trigger] label@[w] == l0[w] || (l0[w] == 0 && label@[w] == c + 1)),
                    forall|w: int| 0 <= w < n ==> l0[w] <= c,
                    forall|w: int| 0 <= w < v && strongly_connected(g, u as int, w) ==> label@[w] == c + 1,
                    forall|k: int| 0 <= k < comp@.len() ==> strongly_connected(g, u as int, #[trigger] comp@[k] as int),
                    forall|x: int, y: int| 0 <= x < n && 0 <= y < n && l0[x] > 0 && #[trigger] strongly_connected(g, x, y)
                        ==> l0[y] == l0[x],
                decreases n - v,
            {
                if v != u && t[u][v] && t[v][u] {
                    let ghost before = label@;
                    let ghost cb = comp@;
                    proof {
                        assert(strongly_connected(g, u as int, v as int));
                        assert(l0[v as int] == 0) by {
                            if l0[v as int] > 0 {
                                assert(strongly_connected(g, v as int, u as int));
                            }
                        }
                        assert(!cb.contains(v)) by {
                            if cb.contains(v) {
                                let k = choose|k: int| 0 <= k < cb.len() && cb[k] == v;
                            }
                        }
                    }
                    label.set(v, c + 1);
                    comp.push(v);
                    proof {
                        assert(label@ == before.update(v as int, (c + 1) as usize));
                        assert forall|w: int| 0 <= w < n implies (label@[w] == c + 1 <==> comp@.contains(w as usize)) by {
                            if w != v as int {
                                assert(label@[w] == before[w]);
                                if comp@.contains(w as usize) {
                                    let k = choose|k: int| 0 <= k < comp@.len() && comp@[k] == w as usize;
                                    assert(cb[k] == w as usize);
                                }
                                if cb.contains(w as usize) {
                                    let k = choose|k: int| 0 <= k < cb.len() && cb[k] == w as usize;
                                    assert(comp@[k] == w as usize);
                                }
                            } else {
                                assert(comp@[cb.len() as int] == v);
                            }
                        }
                        assert forall|w: int| 0 <= w < n implies (#[trigger] label@[w] == l0[w] || (l0[w] == 0 && label@[w] == c + 1)) by {
                            if w != v as int {
                                assert(label@[w] == before[w]);
                            }
                        }
                        assert forall|k: int| 0 <= k < comp@.len() implies strongly_connected(g, u as int, #[trigger] comp@[k] as int) by {
                            if k < cb.len() {
                                assert(comp@[k] == cb[k]);
                            }
                        }
                    }
                } else {
                    proof {
                        if strongly_connected(g, u as int, v as int) && v != u {
                            assert(t@[u as int]@[v as int]);
                            assert(t@[v as int]@[u as int]);
                        }
                    }
                }
                v = v + 1;
            }
            let ghost cm = comp@;
            proof {
                assert forall|x: int, y: int| 0 <= x < n && 0 <= y < n && label@[x] > 0 && #[trigger] strongly_connected(g, x, y)
                    implies label@[y] == label@[x] by {
                    if l0[x] > 0 {
                        assert(label@[x] == l0[x]);
                        assert(l0[y] == l0[x]);
                        assert(label@[y] == l0[y]);
                    } else {
                        assert(label@[x] == c + 1);
                        let k = choose|k: int| 0 <= k < cm.len() && cm[k] == x as usize;
                        assert(strongly_connected(g, u as int, cm[k] as int));
                        lemma_sc_trans(g, u as int, x, y);
                    }
                }
                assert forall|x: int, y: int| 0 <= x < n && 0 <= y < n && label@[x] > 0 && label@[x] == label@[y]
                    implies strongly_connected(g, x, y) by {
                    if label@[x] == c + 1 {
                        let k = choose|k: int| 0 <= k < cm.len() && cm[k] == x as usize;
                        let l = choose|l: int| 0 <= l < cm.len() && cm[l] == y as usize;
                        assert(strongly_connected(g, u as int, cm[k] as int));
                        assert(strongly_connected(g, u as int, cm[l] as int));
                        lemma_sc_trans(g, x, u as int, y);
                    } else {
                        assert(label@[x] == l0[x]);
                        assert(label@[y] == l0[y]);
                    }
                }
                assert(cm.no_duplicates()) by {
                    assert forall|k: int, l: int| 0 <= k < l < cm.len() implies cm[k] != cm[l] by {
                        if k == 0 {
                            assert(cm[l] != u);
                        }
                    }
                }
            }
            comps.push(comp);
            proof {
                assert(views(comps@)[c as int] == cm);
                assert forall|w: int| 0 <= w < n && label@[w] > 0 implies views(comps@)[label@[w] - 1].contains(w as usize) by {
                    if label@[w] <= c {
                        assert(label@[w] == l0[w]);
                        assert(views(comps@)[label@[w] - 1] == comps@[label@[w] - 1]@);
                    }
                }
                assert forall|i: int, k: int| 0 <= i < comps@.len() && 0 <= k < comps@[i]@.len() implies
                    #[trigger] comps@[i]@[k] < n && label@[comps@[i]@[k] as int] == i + 1 by {
                    if i == c {
                        assert(comps@[i]@ == cm);
                        assert(cm.contains(cm[k]));
                    } else {
                        assert(l0[comps@[i]@[k] as int] == i + 1);
                        assert(label@[comps@[i]@[k] as int] == l0[comps@[i]@[k] as int]);
                    }
                }
                assert forall|w: int| 0 <= w < u + 1 implies label@[w] > 0 by {
                    if w < u {
                        assert(l0[w] > 0);
                        assert(label@[w] == l0[w]);
                    } else {
                        assert(cm.contains(u));
                    }
                }
            }
        }
        u = u + 1;
    }
    let ghost parts = views(comps@);
    let ghost lab = label@;
    proof {
        assert forall|i: int, k: int| 0 <= i < parts.len() && 0 <= k < parts[i].len() implies #[trigger] parts[i][k] < n by {
            assert(parts[i] == comps@[i]@);
            assert(comps@[i]@[k] < n);
        }
        assert forall|i: int| 0 <= i < parts.len() implies (#[trigger] parts[i]).no_duplicates() by {
            assert(parts[i] == comps@[i]@);
        }
        assert forall|u: usize| u < n implies #[trigger] covered(parts, u) by {
            assert(parts[label@[u as int] - 1].contains(u));
        }
        assert forall|i: int, j: int, u: usize| 0 <= i < parts.len() && 0 <= j < parts.len()
            && #[trigger] parts[i].contains(u) && #[trigger] parts[j].contains(u) implies i == j by {
            let k = choose|k: int| 0 <= k < parts[i].len() && parts[i][k] == u;
            let l = choose|l: int| 0 <= l < parts[j].len() && parts[j][l] == u;
            assert(parts[i] == comps@[i]@);
            assert(parts[j] == comps@[j]@);
            assert(label@[comps@[i]@[k] as int] == i + 1);
            assert(label@[comps@[j]@[l] as int] == j + 1);
        }
    }
    let ncomps = comps.len();
    let p0 = Partition::new(g, comps);
    proof {
        p0.lemma_wf();
        assert forall|u: int| 0 <= u < n implies #[trigger] p0.spec_index_of(u) == lab[u] - 1 by {
            assert(0 <= p0.spec_index_of(u) < parts.len());
            assert(parts[p0.spec_index_of(u)].contains(u as usize));
            assert(parts[lab[u] - 1].contains(u as usize));
        }
        assert forall|a: int, b: int| 0 <= a < lab.len() && 0 <= b < lab.len() && lab[a] == lab[b]
            implies strongly_connected(g, a, b) by {
            assert(lab[a] > 0);
        }
        // The condensation has no cycle: a cycle would make two of its parts one.
        if has_cycle(&p0) {
            let p = choose|p: Seq<usize>| is_path(&p0, p) && p.len() >= 2 && p[0] == p.last();
            let a = parts[p[0] as int][0];
            let b = parts[p[1] as int][0];
            assert(parts[p[0] as int].contains(a));
            assert(parts[p[1] as int].contains(b));
            assert(p0.spec_index_of(a as int) == p[0]) by {
                assert(parts[lab[a as int] - 1].contains(a));
            }
            assert(p0.spec_index_of(b as int) == p[1]) by {
                assert(parts[lab[b as int] - 1].contains(b));
            }
            assert(has_edge(&p0, p[0] as int, p[1] as int));
            assert(p[0] != p[1]);
            lemma_condensed_path(g, &p0, lab, parts, p, 1, a as int, b as int);
            let q = p.subrange(1, p.len() as int);
            assert(p.len() >= 3) by {
                if p.len() == 2 {
                    assert(p[1] == p.last());
                }
            }
            assert(is_path(&p0, q)) by {
                assert forall|i: int| 0 <= i < q.len() - 1 implies has_edge(&p0, #[trigger] q[i] as int, q[i + 1] as int) by {
                    assert(q[i] == p[i + 1]);
                    assert(q[i + 1] == p[i + 2]);
                    assert(has_edge(&p0, p[i + 1] as int, p[i + 2] as int));
                }
            }
            assert(q[0] == p[1]);
            assert(q[q.len() - 1] == p[0]);
            lemma_condensed_path(g, &p0, lab, parts, q, q.len() - 1, b as int, a as int);
            assert(strongly_connected(g, a as int, b as int));
            assert(lab[a as int] == lab[b as int]);
        }
    }
    let order = match top_sort(&p0) {
        Some(order) => order,
        None => {
            proof {
                assert(false);
            }
            Vec::new()
        },
    };
    let ghost k = ncomps as int;
    proof {
        assert(order@.len() == k);
    }
    let sets = p0.parts();
    let mut sorted: Vec<Vec<usize>> = Vec::new();
    let mut j: usize = 0;
    while j < order.len()
        invariant
            views(sets@) == parts,
            parts.len() == k,
            order@.len() == k,
            forall|i: int| 0 <= i < k ==> #[trigger] order@[i] < k,
            j <= order.len(),
            sorted@.len() == j,
            forall|i: int| 0 <= i < j ==> (#[trigger] sorted@[i])@ == parts[order@[i] as int],
        decreases order.len() - j,
    {
        let part = copy_usizes(&sets[order[j]]);
        proof {
            assert(parts[order@[j as int] as int] == sets@[order@[j as int] as int]@);
        }
        sorted.push(part);
        j = j + 1;
    }
    let ghost sp = views(sorted@);
    proof {
        assert forall|i: int| 0 <= i < k implies #[trigger] sp[i] == parts[order@[i] as int] by {
            assert(sp[i] == sorted@[i]@);
        }
        assert forall|i: int, l: int| 0 <= i < sp.len() && 0 <= l < sp[i].len() implies #[trigger] sp[i][l] < n by {
            assert(sp[i] == parts[order@[i] as int]);
        }
        assert forall|i: int| 0 <= i < sp.len() implies (#[trigger] sp[i]).no_duplicates() by {
            assert(sp[i] == parts[order@[i] as int]);
        }
        assert forall|u: usize| u < n implies #[trigger] covered(sp, u) by {
            let c0 = lab[u as int] - 1;
            assert(parts[c0].contains(u));
            lemma_index_in(order@, k, c0);
            let pos = index_in(order@, c0);
            assert(sp[pos] == parts[c0]);
        }
        assert forall|i: int, j: int, u: usize| 0 <= i < sp.len() && 0 <= j < sp.len()
            && #[trigger] sp[i].contains(u) && #[trigger] sp[j].contains(u) implies i == j by {
            assert(sp[i] == parts[order@[i] as int]);
            assert(sp[j] == parts[order@[j] as int]);
            assert(order@[i] == order@[j]);
        }
    }
    let result = Partition::new(g, sorted);
    proof {
        result.lemma_wf();
        assert forall|i: int| 0 <= i < result.spec_parts().len() implies (#[trigger] result.spec_parts()[i]).len() >= 1 by {
            assert(sp[i] == parts[order@[i] as int]);
            assert(parts[order@[i] as int] == comps@[order@[i] as int]@);
        }
        assert forall|u: int| 0 <= u < n implies #[trigger] result.spec_index_of(u) == index_in(order@, lab[u] - 1) by {
            let c0 = lab[u] - 1;
            lemma_index_in(order@, k, c0);
            let pos = index_in(order@, c0);
            assert(sp[pos] == parts[c0]);
            assert(parts[c0].contains(u as usize));
            assert(sp[result.spec_index_of(u)].contains(u as usize));
        }
        assert forall|u: int, v: int| 0 <= u < n && 0 <= v < n implies
            (result.spec_index_of(u) == result.spec_index_of(v) <==> strongly_connected(g, u, v)) by {
            lemma_index_in(order@, k, lab[u] - 1);
            lemma_index_in(order@, k, lab[v] - 1);
        }
        assert forall|u: int, v: int| #[trigger] has_edge(g, u, v) implies result.spec_index_of(u) <= result.spec_index_of(v) by {
            assert(0 <= u < n);
            assert(0 <= v < n) by {
                let m = choose|m: int| 0 <= m < g.spec_out(u).len() && g.spec_out(u)[m] == v;
            }
            let a = lab[u] - 1;
            let b = lab[v] - 1;
            lemma_index_in(order@, k, a);
            lemma_index_in(order@, k, b);
            if a != b {
                assert(has_edge(&p0, a, b));
                let ia = index_in(order@, a);
                let ib = index_in(order@, b);
                assert(has_edge(&p0, order@[ia] as int, order@[ib] as int));
            }
        }
        assert forall|i: int, j: int| #[trigger] has_edge(&result, i, j) implies 0 <= i < j < result.spec_parts().len() by {
            assert(0 <= i < result.spec_num_nodes());
            assert(0 <= j < result.spec_num_nodes()) by {
                let m = choose|m: int| 0 <= m < result.spec_out(i).len() && result.spec_out(i)[m] == j;
            }
            let (u, v) = choose|u: int, v: int| #[trigger] has_edge(g, u, v) && result.spec_index_of(u) == i && result.spec_index_of(v) == j;
            assert(result.spec_index_of(u) <= result.spec_index_of(v));
        }
        if has_cycle(&result) {
            let p = choose|p: Seq<usize>| is_path(&result, p) && p.len() >= 2 && p[0] == p.last();
            lemma_forward_path(&result, p, p.len() - 1);
        }
    }
    result
}

/// Along a path of a graph whose edges all lead to larger nodes, the nodes grow.
proof fn lemma_forward_path<G: Graph>(g: &G, p: Seq<usize>, k: int)
    requires
        is_path(g, p),
        1 <= k < p.len(),
        forall|i: int, j: int| #[trigger] has_edge(g, i, j) ==> i < j,
    ensures
        p[0] < p[k],
    decreases k,
{
    assert(has_edge(g, p[k - 1] as int, p[k] as int));
    if k > 1 {
        lemma_forward_path(g, p, k - 1);
    }
}

/// In the condensation, a walk from the part of `x` to the part of `y` means that `y` can be
/// reached from `x`.
proof fn lemma_condensed_path<G: Graph>(
    g: &G,
    p0: &Partition,
    lab: Seq<usize>,
    parts: Seq<Seq<usize>>,
    p: Seq<usize>,
    k: int,
    x: int,
    y: int,
)
    requires
        valid_graph(g),
        lab.len() == g.spec_num_nodes(),
        forall|a: int, b: int| 0 <= a < lab.len() && 0 <= b < lab.len() && lab[a] == lab[b] ==> strongly_connected(g, a, b),
        forall|u: int| 0 <= u < lab.len() ==> #[trigger] p0.spec_index_of(u) == lab[u] - 1,
        p0.spec_size() == g.spec_num_nodes(),
        p0.spec_parts() == parts,
        forall|i: int| 0 <= i < parts.len() ==> (#[trigger] parts[i]).len() >= 1,
        forall|i: int, l: int| 0 <= i < parts.len() && 0 <= l < parts[i].len() ==> #[trigger] parts[i][l] < lab.len()
            && lab[parts[i][l] as int] == i + 1,
        forall|i: int, j: int| 0 <= i < parts.len() && 0 <= j < parts.len() ==>
            (#[trigger] has_edge(p0, i, j) <==> i != j && exists|u: int, v: int|
                #[trigger] has_edge(g, u, v) && p0.spec_index_of(u) == i && p0.spec_index_of(v) == j),
        p0.spec_num_nodes() == parts.len(),
        is_path(p0, p),
        1 <= k < p.len(),
        0 <= x < lab.len(),
        0 <= y < lab.len(),
        p0.spec_index_of(x) == p[0],
        p0.spec_index_of(y) == p[k],
    ensures
        reaches(g, x, y),
    decreases k,
{
    let i = p[k - 1] as int;
    let j = p[k] as int;
    assert(has_edge(p0, p[k - 1] as int, p[k] as int));
    if k == 1 {
        lemma_class_reach(g, p0, lab, i, j, x, y);
    } else {
        let z = parts[i][0] as int;
        assert(lab[z] == i + 1);
        assert(p0.spec_index_of(z) == i);
        lemma_condensed_path(g, p0, lab, parts, p, k - 1, x, z);
        lemma_class_reach(g, p0, lab, i, j, z, y);
        lemma_reach_trans(g, x, z, y);
    }
}

} // verus!
