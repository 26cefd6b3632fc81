//! Tools for turning a graggle that is not linearly ordered into a file, interactively.
//!
//! A graggle can fail to be linearly ordered for two reasons: it has cycles (too many edges),
//! or it has nodes with no prescribed order between them (too few edges). Cycles are dealt with
//! first, with a [`CycleResolver`]; then the missing edges are added with an [`OrderResolver`].

use vstd::prelude::*;

use crate::change::{Change, ChangeView, Changes};
use crate::components::{has_in_edge, mirrored, tarjan};
use crate::graggle::{Edge, EdgeKind, Graggle, GraggleView};
use crate::graggle_graph::{IdGraph, LiveGraph};
use crate::graph::{has_edge, valid_graph, Graph};
use crate::ids::NodeId;
use crate::partition::Partition;

verus! {

/// The edges leaving `u` that point to live nodes (real or pseudo).
pub open spec fn live_out(g: GraggleView, u: NodeId) -> Set<Edge> {
    Set::new(|e: Edge| g.edges.contains((u, e)) && !(e.kind is Deleted))
}

/// The back-edges leaving `v` that point to live nodes.
pub open spec fn live_in(g: GraggleView, v: NodeId) -> Set<Edge> {
    Set::new(|e: Edge| g.back_edges.contains((v, e)) && !(e.kind is Deleted))
}

/// `e` is the only element of `s`.
pub open spec fn only_element(s: Set<Edge>, e: Edge) -> bool {
    s.contains(e) && forall|f: Edge| #[trigger] s.contains(f) ==> f == e
}

/// The only element of `s`, if it has exactly one.
pub open spec fn single(s: Set<Edge>) -> Option<Edge> {
    if exists|e: Edge| #[trigger] only_element(s, e) {
        Some(choose|e: Edge| #[trigger] only_element(s, e))
    } else {
        None
    }
}

/// Where a chain goes after `u`: to its only live out-neighbor, if `u` has exactly one edge
/// to a live node and that node has exactly one edge from a live node.
pub open spec fn chain_step(g: GraggleView, u: NodeId) -> Option<NodeId> {
    match single(live_out(g, u)) {
        Some(e) => if single(live_in(g, e.dest)) is Some {
            Some(e.dest)
        } else {
            None
        },
        None => None,
    }
}

proof fn lemma_two_not_single(s: Set<Edge>, a: Edge, b: Edge)
    requires
        s.contains(a),
        s.contains(b),
        a != b,
    ensures
        single(s) is None,
{
    if exists|e: Edge| #[trigger] only_element(s, e) {
        let e = choose|e: Edge| #[trigger] only_element(s, e);
        assert(a == e);
        assert(b == e);
    }
}

/// The only edge of `es`, if all of its elements are one and the same edge.
fn sole(es: &Vec<Edge>) -> (r: Option<Edge>)
    ensures
        r == single(es@.to_set()),
{
    if es.len() == 0 {
        proof {
            assert forall|e: Edge| !#[trigger] only_element(es@.to_set(), e) by {
                if es@.to_set().contains(e) {
                    let k = choose|k: int| 0 <= k < es@.len() && es@[k] == e;
                }
            }
        }
        return None;
    }
    let e0 = es[0];
    let mut i: usize = 1;
    while i < es.len()
        invariant
            1 <= i <= es.len(),
            e0 == es@[0],
            forall|k: int| 0 <= k < i ==> es@[k] == e0,
        decreases es.len() - i,
    {
        if !(es[i] == e0) {
            proof {
                let s = es@.to_set();
                assert(s.contains(es@[i as int]));
                assert(s.contains(e0));
                lemma_two_not_single(s, e0, es@[i as int]);
            }
            return None;
        }
        i = i + 1;
    }
    proof {
        let s = es@.to_set();
        assert forall|f: Edge| #[trigger] s.contains(f) implies f == e0 by {
            let k = choose|k: int| 0 <= k < es@.len() && es@[k] == f;
        }
        assert(s.contains(e0));
        assert(only_element(s, e0));
        let c = choose|e: Edge| #[trigger] only_element(s, e);
        assert(c == e0);
    }
    Some(e0)
}

/// Follows a chain: the nodes are produced one after another, each the chain step of the one
/// before, until there is no step.
pub struct ChainIter<'a> {
    next: Option<NodeId>,
    graggle: Graggle<'a>,
}

impl<'a> ChainIter<'a> {
    /// The node that comes next.
    pub closed spec fn spec_next(&self) -> Option<NodeId> {
        self.next
    }

    /// The graggle that the chain is followed in.
    pub closed spec fn spec_graggle(&self) -> GraggleView {
        self.graggle@
    }

    /// Follows the chain that starts at `u`.
    pub fn new(graggle: Graggle<'a>, u: NodeId) -> (r: ChainIter<'a>)
        ensures
            r.spec_next() == Some(u),
            r.spec_graggle() == graggle@,
    {
        ChainIter { next: Some(u), graggle }
    }

    /// The next node of the chain, if there is one.
    pub fn next(&mut self) -> (r: Option<NodeId>)
        ensures
            r == old(self).spec_next(),
            final(self).spec_graggle() == old(self).spec_graggle(),
            final(self).spec_next() == match r {
                Some(cur) => chain_step(old(self).spec_graggle(), cur),
                None => None,
            },
    {
        let ret = self.next;
        if let Some(cur) = self.next {
            self.next = None;
            let outs = self.graggle.out_edges(&cur);
            proof {
                assert(outs@.to_set() =~= live_out(self.graggle@, cur));
            }
            if let Some(e) = sole(&outs) {
                let ins = self.graggle.in_edges(&e.dest);
                proof {
                    assert(ins@.to_set() =~= live_in(self.graggle@, e.dest));
                }
                if sole(&ins).is_some() {
                    self.next = Some(e.dest);
                }
            }
        }
        ret
    }
}

/// A node that might come next in the file, together with the chain of nodes that naturally
/// (but not necessarily) follow it.
pub struct CandidateChain<'a> {
    graggle: Graggle<'a>,
    id: NodeId,
}

impl<'a> CandidateChain<'a> {
    /// The first node of the chain.
    pub closed spec fn spec_first(&self) -> NodeId {
        self.id
    }

    /// The graggle of the chain.
    pub closed spec fn spec_graggle(&self) -> GraggleView {
        self.graggle@
    }

    /// The first node of this chain.
    pub fn first(&self) -> (r: NodeId)
        ensures
            r == self.spec_first(),
    {
        self.id
    }

    /// Follows this chain from its first node.
    pub fn iter(&self) -> (r: ChainIter<'a>)
        ensures
            r.spec_next() == Some(self.spec_first()),
            r.spec_graggle() == self.spec_graggle(),
    {
        ChainIter::new(self.graggle, self.id)
    }
}

fn node_in(v: &Vec<NodeId>, n: &NodeId) -> (r: bool)
    ensures
        r == v@.contains(*n),
{
    let mut i: usize = 0;
    while i < v.len()
        invariant
            i <= v.len(),
            forall|j: int| 0 <= j < i ==> v@[j] != *n,
        decreases v.len() - i,
    {
        if v[i] == *n {
            return true;
        }
        i = i + 1;
    }
    false
}

fn position_usize(v: &Vec<usize>, n: usize) -> (r: usize)
    requires
        v@.contains(n),
    ensures
        r < v@.len(),
        v@[r as int] == n,
{
    let mut i: usize = 0;
    while i < v.len()
        invariant
            i <= v.len(),
            v@.contains(n),
            forall|j: int| 0 <= j < i ==> v@[j] != n,
        decreases v.len() - i,
    {
        if v[i] == n {
            return i;
        }
        i = i + 1;
    }
    proof {
        let m = choose|m: int| 0 <= m < v@.len() && v@[m] == n;
    }
    vstd::pervasive::unreached()
}

fn contains_usize(v: &Vec<usize>, n: usize) -> (r: bool)
    ensures
        r == v@.contains(n),
{
    let mut i: usize = 0;
    while i < v.len()
        invariant
            i <= v.len(),
            forall|j: int| 0 <= j < i ==> v@[j] != n,
        decreases v.len() - i,
    {
        if v[i] == n {
            return true;
        }
        i = i + 1;
    }
    false
}

/// Does every component with an edge to `u` count as done?
fn all_in_done(sccs: &Partition, done: &Vec<bool>, u: usize) -> (r: bool)
    requires
        sccs.wf(),
        done@.len() == sccs.spec_parts().len(),
        u < done@.len(),
    ensures
        r == forall|x: int| #[trigger] has_edge(sccs, x, u as int) ==> done@[x],
{
    proof {
        sccs.lemma_wf();
    }
    let ins = sccs.in_edges(u);
    let mut k: usize = 0;
    while k < ins.len()
        invariant
            valid_graph(sccs),
            mirrored(sccs),
            sccs.spec_num_nodes() == done@.len(),
            u < done@.len(),
            ins@ == sccs.spec_in(u as int),
            k <= ins.len(),
            forall|l: int| 0 <= l < k ==> done@[#[trigger] ins@[l] as int],
        decreases ins.len() - k,
    {
        assert(ins@[k as int] < done@.len());
        if !done[ins[k]] {
            proof {
                assert(has_in_edge(sccs, u as int, ins@[k as int] as int));
                assert(has_edge(sccs, ins@[k as int] as int, u as int));
            }
            return false;
        }
        k = k + 1;
    }
    proof {
        assert forall|x: int| #[trigger] has_edge(sccs, x, u as int) implies done@[x] by {
            assert(has_in_edge(sccs, u as int, x));
            let l = choose|l: int| 0 <= l < ins@.len() && ins@[l] == x;
        }
    }
    true
}

/// The `NodeId`s of the nodes in `part`, in the graph `live`.
pub open spec fn part_ids(live: IdGraph, part: Seq<usize>) -> Seq<NodeId> {
    part.map_values(|k: usize| live.spec_ids()[k as int])
}

fn ids_of(live: &IdGraph, part: &Vec<usize>) -> (r: Vec<NodeId>)
    requires
        live.wf(),
        forall|k: int| 0 <= k < part@.len() ==> #[trigger] part@[k] < live.spec_ids().len(),
    ensures
        r@ == part_ids(*live, part@),
{
    let ids = live.ids();
    let mut r: Vec<NodeId> = Vec::new();
    let mut i: usize = 0;
    while i < part.len()
        invariant
            ids@ == live.spec_ids(),
            forall|k: int| 0 <= k < part@.len() ==> #[trigger] part@[k] < live.spec_ids().len(),
            i <= part.len(),
            r@.len() == i,
            forall|k: int| 0 <= k < i ==> r@[k] == live.spec_ids()[part@[k] as int],
        decreases part.len() - i,
    {
        r.push(ids[part[i]]);
        i = i + 1;
    }
    proof {
        assert(r@ =~= part_ids(*live, part@));
    }
    r
}

/// The live edges and pseudo-edges lead from `u` to `v`.
pub open spec fn linked(g: GraggleView, u: NodeId, v: NodeId) -> bool {
    exists|e: Edge| #[trigger] g.edges.contains((u, e)) && !(e.kind is Deleted) && e.dest == v
}

/// The deletions that leave only the ordered nodes live: one for each node of `nodes` (in
/// that order) that is not in `ordered`.
pub open spec fn deletions(nodes: Seq<NodeId>, ordered: Seq<NodeId>) -> Seq<ChangeView>
    decreases nodes.len(),
{
    if nodes.len() == 0 {
        Seq::empty()
    } else {
        let d = deletions(nodes.drop_last(), ordered);
        if ordered.contains(nodes.last()) {
            d
        } else {
            d.push(ChangeView::DeleteNode { id: nodes.last() })
        }
    }
}

/// The edges that join the first `n` nodes of `ordered` one after the other, where the
/// graggle does not join them already.
pub open spec fn joins(g: GraggleView, ordered: Seq<NodeId>, n: int) -> Seq<ChangeView>
    decreases n,
{
    if n <= 1 {
        Seq::empty()
    } else {
        let j = joins(g, ordered, n - 1);
        if linked(g, ordered[n - 2], ordered[n - 1]) {
            j
        } else {
            j.push(ChangeView::NewEdge { src: ordered[n - 2], dest: ordered[n - 1] })
        }
    }
}

/// The edge that joins the `i`-th node of `ordered` to the one before it.
pub open spec fn join_edge(ordered: Seq<NodeId>, i: int) -> ChangeView {
    ChangeView::NewEdge { src: ordered[i - 1], dest: ordered[i] }
}

/// The deletion of the node `n`.
pub open spec fn deletion_of(n: NodeId) -> ChangeView {
    ChangeView::DeleteNode { id: n }
}

/// What `joins` holds: for each pair of consecutive nodes among the first `n` of `ordered`, the
/// graggle links them already or there is an edge that joins them; and each edge joins such
/// a pair that the graggle does not link yet.
pub proof fn lemma_joins_cover(g: GraggleView, ordered: Seq<NodeId>, n: int)
    requires
        n <= ordered.len(),
    ensures
        forall|i: int| 1 <= i < n ==> linked(g, ordered[i - 1], ordered[i])
            || #[trigger] joins(g, ordered, n).contains(join_edge(ordered, i)),
        forall|c: ChangeView| #[trigger] joins(g, ordered, n).contains(c) ==> exists|i: int|
            1 <= i < n && c == join_edge(ordered, i) && !linked(g, ordered[i - 1], ordered[i]),
    decreases n,
{
    if n > 1 {
        lemma_joins_cover(g, ordered, n - 1);
        let j0 = joins(g, ordered, n - 1);
        let j = joins(g, ordered, n);
        let e = ChangeView::NewEdge { src: ordered[n - 2], dest: ordered[n - 1] };
        assert forall|i: int| 1 <= i < n implies linked(g, ordered[i - 1], ordered[i])
            || #[trigger] j.contains(join_edge(ordered, i)) by {
            if i < n - 1 {
                let c = join_edge(ordered, i);
                if j0.contains(c) {
                    let k = choose|k: int| 0 <= k < j0.len() && j0[k] == c;
                    if !linked(g, ordered[n - 2], ordered[n - 1]) {
                        assert(j[k] == c);
                    }
                }
            } else if !linked(g, ordered[n - 2], ordered[n - 1]) {
                assert(j[j.len() - 1] == e);
            }
        }
        assert forall|c: ChangeView| #[trigger] j.contains(c) implies exists|i: int|
            1 <= i < n && c == join_edge(ordered, i) && !linked(g, ordered[i - 1], ordered[i]) by {
            let k = choose|k: int| 0 <= k < j.len() && j[k] == c;
            if k < j0.len() {
                assert(j0[k] == c);
                assert(j0.contains(c));
            } else {
                assert(c == e);
                assert(1 <= n - 1 < n && c == join_edge(ordered, n - 1));
            }
        }
    }
}

/// What `deletions` holds: exactly the nodes of `nodes` that are not in `ordered`, each as a
/// deletion.
pub proof fn lemma_deletions_exact(nodes: Seq<NodeId>, ordered: Seq<NodeId>)
    ensures
        forall|n: NodeId| #[trigger] deletions(nodes, ordered).contains(deletion_of(n))
            <==> nodes.contains(n) && !ordered.contains(n),
        forall|c: ChangeView| #[trigger] deletions(nodes, ordered).contains(c) ==> (c is DeleteNode),
    decreases nodes.len(),
{
    if nodes.len() > 0 {
        let init = nodes.drop_last();
        lemma_deletions_exact(init, ordered);
        let d0 = deletions(init, ordered);
        let d = deletions(nodes, ordered);
        assert forall|n: NodeId| #[trigger] d.contains(deletion_of(n)) <==> nodes.contains(n) && !ordered.contains(n) by {
            let c = deletion_of(n);
            if d.contains(c) {
                let k = choose|k: int| 0 <= k < d.len() && d[k] == c;
                if k < d0.len() {
                    assert(d0[k] == c);
                    assert(d0.contains(c));
                    let m = choose|m: int| 0 <= m < init.len() && init[m] == n;
                    assert(nodes[m] == n);
                } else {
                    assert(nodes[nodes.len() - 1] == n);
                }
            }
            if nodes.contains(n) && !ordered.contains(n) {
                let m = choose|m: int| 0 <= m < nodes.len() && nodes[m] == n;
                if m < init.len() {
                    assert(init[m] == n);
                    assert(d0.contains(c));
                    let k = choose|k: int| 0 <= k < d0.len() && d0[k] == c;
                    assert(d[k] == c);
                } else {
                    assert(d[d.len() - 1] == c);
                }
            }
        }
        assert forall|c: ChangeView| #[trigger] d.contains(c) implies c is DeleteNode by {
            let k = choose|k: int| 0 <= k < d.len() && d[k] == c;
            if k < d0.len() {
                assert(d0[k] == c);
                assert(d0.contains(c));
            }
        }
    }
}

/// A utility for removing cycles from a graggle, interactively. Edges can never be deleted, so
/// cycles are resolved by deleting nodes: of each strongly connected component of the live
/// graph, exactly one node must be chosen to survive.
pub struct CycleResolver<'a> {
    graggle: Graggle<'a>,
    live: LiveGraph,
    sccs: Partition,
    // The components with at least two nodes that are not resolved yet.
    large_sccs: Vec<usize>,
    // The node chosen to survive in each resolved component.
    scc_reps: Vec<Option<NodeId>>,
}

impl<'a> CycleResolver<'a> {
    /// The live graph of the graggle.
    pub closed spec fn spec_live(&self) -> IdGraph {
        self.live
    }

    /// The strongly connected components of the live graph.
    pub closed spec fn spec_sccs(&self) -> Partition {
        self.sccs
    }

    /// The components that are still to be resolved, the current one last.
    pub closed spec fn spec_large(&self) -> Seq<usize> {
        self.large_sccs@
    }

    /// The nodes chosen to survive so far, by component.
    pub closed spec fn spec_reps(&self) -> Seq<Option<NodeId>> {
        self.scc_reps@
    }

    /// The graggle being resolved.
    pub closed spec fn spec_graggle(&self) -> GraggleView {
        self.graggle@
    }

    /// Every component is resolved, still to be resolved, or a single node.
    pub closed spec fn wf(&self) -> bool {
        let parts = self.sccs.spec_parts();
        &&& self.live.wf()
        &&& self.sccs.wf()
        &&& self.sccs.spec_size() == self.live.spec_num_nodes()
        &&& self.scc_reps@.len() == parts.len()
        &&& forall|i: int| 0 <= i < parts.len() ==> (#[trigger] parts[i]).len() >= 1
        &&& forall|j: int| 0 <= j < self.large_sccs@.len() ==> #[trigger] self.large_sccs@[j] < parts.len()
        &&& forall|i: int| 0 <= i < parts.len() ==> (#[trigger] self.scc_reps@[i]) is Some
            || self.large_sccs@.contains(i as usize) || parts[i].len() == 1
    }

    /// Creates a resolver for the cycles of the live part of a graggle.
    pub fn new(graggle: Graggle<'a>) -> (r: CycleResolver<'a>)
        requires
            graggle@.shape_ok(),
        ensures
            r.wf(),
            r.spec_graggle() == graggle@,
            r.spec_live().spec_ids().to_set() == graggle@.live,
            r.spec_sccs().spec_size() == r.spec_live().spec_num_nodes(),
            forall|u: int, v: int| 0 <= u < r.spec_live().spec_num_nodes() && 0 <= v < r.spec_live().spec_num_nodes() ==>
                (r.spec_sccs().spec_index_of(u) == r.spec_sccs().spec_index_of(v)
                    <==> crate::components::strongly_connected(&r.spec_live(), u, v)),
            forall|i: int| 0 <= i < r.spec_sccs().spec_parts().len() ==>
                (r.spec_large().contains(i as usize) <==> (#[trigger] r.spec_sccs().spec_parts()[i]).len() >= 2),
            forall|i: int| 0 <= i < r.spec_reps().len() ==> (#[trigger] r.spec_reps()[i]) is None,
    {
        let live = graggle.as_live_graph();
        proof {
            live.lemma_wf();
        }
        let sccs = tarjan(&live);
        proof {
            sccs.lemma_wf();
        }
        let k = sccs.num_components();
        let mut large: Vec<usize> = Vec::new();
        let mut reps: Vec<Option<NodeId>> = Vec::new();
        let mut i: usize = 0;
        while i < k
            invariant
                k == sccs.spec_parts().len(),
                i <= k,
                reps@.len() == i,
                forall|j: int| 0 <= j < i ==> (#[trigger] reps@[j]) is None,
                forall|j: int| 0 <= j < large@.len() ==> #[trigger] large@[j] < i,
                forall|j: int| 0 <= j < i ==> (large@.contains(j as usize) <==> (#[trigger] sccs.spec_parts()[j]).len() >= 2),
            decreases k - i,
        {
            let ghost l0 = large@;
            if sccs.part(i).len() >= 2 {
                large.push(i);
                proof {
                    assert forall|j: int| 0 <= j < i + 1 implies (large@.contains(j as usize) <==> (#[trigger] sccs.spec_parts()[j]).len() >= 2) by {
                        if j < i {
                            if large@.contains(j as usize) {
                                let m = choose|m: int| 0 <= m < large@.len() && large@[m] == j as usize;
                                if m < l0.len() {
                                    assert(l0[m] == j);
                                }
                            }
                            if l0.contains(j as usize) {
                                let m = choose|m: int| 0 <= m < l0.len() && l0[m] == j as usize;
                                assert(large@[m] == j);
                            }
                        } else {
                            assert(large@[l0.len() as int] == i);
                        }
                    }
                }
            } else {
                proof {
                    assert(!l0.contains(i)) by {
                        if l0.contains(i) {
                            let m = choose|m: int| 0 <= m < l0.len() && l0[m] == i;
                        }
                    }
                }
            }
            reps.push(None);
            i = i + 1;
        }
        let r = CycleResolver { graggle, live, sccs, large_sccs: large, scc_reps: reps };
        proof {
            assert forall|j: int| 0 <= j < k implies (#[trigger] r.scc_reps@[j]) is Some
                || r.large_sccs@.contains(j as usize) || sccs.spec_parts()[j].len() == 1 by {
                assert(sccs.spec_parts()[j].len() >= 1);
            }
        }
        r
    }

    /// The nodes of the component to resolve next, if some component is left.
    pub fn next_component(&self) -> (r: Option<Vec<NodeId>>)
        requires
            self.wf(),
        ensures
            match r {
                Some(ids) => self.spec_large().len() > 0 && ids@ == part_ids(
                    self.spec_live(),
                    self.spec_sccs().spec_parts()[self.spec_large().last() as int],
                ),
                None => self.spec_large().len() == 0,
            },
    {
        if self.large_sccs.len() == 0 {
            return None;
        }
        let i = self.large_sccs[self.large_sccs.len() - 1];
        proof {
            self.sccs.lemma_wf();
            assert(i < self.sccs.spec_parts().len());
            assert forall|k: int| 0 <= k < self.sccs.spec_parts()[i as int].len() implies
                #[trigger] self.sccs.spec_parts()[i as int][k] < self.live.spec_ids().len() by {
                self.live.lemma_wf();
            }
        }
        Some(ids_of(&self.live, self.sccs.part(i)))
    }

    /// Resolves the current component by choosing `rep` to survive: all its other nodes will be
    /// deleted.
    pub fn resolve_component(&mut self, rep: NodeId)
        requires
            old(self).wf(),
            old(self).spec_large().len() > 0,
            part_ids(old(self).spec_live(), old(self).spec_sccs().spec_parts()[old(self).spec_large().last() as int]).contains(rep),
        ensures
            final(self).wf(),
            final(self).spec_large() == old(self).spec_large().drop_last(),
            final(self).spec_reps() == old(self).spec_reps().update(old(self).spec_large().last() as int, Some(rep)),
            final(self).spec_live() == old(self).spec_live(),
            final(self).spec_sccs() == old(self).spec_sccs(),
            final(self).spec_graggle() == old(self).spec_graggle(),
    {
        let popped = self.large_sccs.pop();
        proof {
            assert(popped == Some(old(self).large_sccs@.last()));
        }
        let cur = popped.unwrap();
        self.scc_reps.set(cur, Some(rep));
        proof {
            self.sccs.lemma_wf();
            assert(cur == old(self).large_sccs@[old(self).large_sccs@.len() - 1]);
            let parts = self.sccs.spec_parts();
            assert forall|j: int| 0 <= j < self.large_sccs@.len() implies #[trigger] self.large_sccs@[j] < parts.len() by {
                assert(self.large_sccs@[j] == old(self).large_sccs@[j]);
            }
            assert forall|i: int| 0 <= i < parts.len() implies (#[trigger] self.scc_reps@[i]) is Some
                || self.large_sccs@.contains(i as usize) || parts[i].len() == 1 by {
                if i != cur && old(self).large_sccs@.contains(i as usize) {
                    let m = choose|m: int| 0 <= m < old(self).large_sccs@.len() && old(self).large_sccs@[m] == i as usize;
                    assert(m != old(self).large_sccs@.len() - 1);
                    assert(self.large_sccs@ == old(self).large_sccs@.drop_last());
                    assert(self.large_sccs@[m] == i);
                }
            }
        }
    }

    /// Moves on to ordering the graggle, once every cycle is resolved.
    pub fn into_order_resolver(self) -> (r: OrderResolver<'a>)
        requires
            self.wf(),
            self.spec_large().len() == 0,
        ensures
            r.wf(),
            r.spec_graggle() == self.spec_graggle(),
            r.spec_live() == self.spec_live(),
            r.spec_sccs() == self.spec_sccs(),
            r.spec_ordered() == Seq::<NodeId>::empty(),
            forall|i: int| 0 <= i < r.spec_done().len() ==> !#[trigger] r.spec_done()[i],
            forall|i: int| 0 <= i < r.spec_reps().len() ==> #[trigger] r.spec_reps()[i] == match self.spec_reps()[i] {
                Some(u) => u,
                None => self.spec_live().spec_ids()[self.spec_sccs().spec_parts()[i][0] as int],
            },
    {
        proof {
            self.sccs.lemma_wf();
            self.live.lemma_wf();
        }
        let k = self.sccs.num_components();
        let mut reps: Vec<NodeId> = Vec::new();
        let mut done: Vec<bool> = Vec::new();
        let mut seen: Vec<bool> = Vec::new();
        let mut candidates: Vec<usize> = Vec::new();
        let ids = self.live.ids();
        let mut i: usize = 0;
        while i < k
            invariant
                self.wf(),
                self.large_sccs@.len() == 0,
                k == self.sccs.spec_parts().len(),
                valid_graph(&self.sccs),
                mirrored(&self.sccs),
                self.sccs.spec_num_nodes() == k,
                ids@ == self.live.spec_ids(),
                self.live.spec_ids().len() == self.sccs.spec_size(),
                is_partition_of(self.sccs),
                i <= k,
                reps@.len() == i,
                done@.len() == i,
                seen@.len() == i,
                forall|j: int| 0 <= j < i ==> !(#[trigger] done@[j]),
                forall|j: int| 0 <= j < i ==> !(#[trigger] seen@[j]),
                forall|j: int| 0 <= j < i ==> #[trigger] reps@[j] == match self.scc_reps@[j] {
                    Some(u) => u,
                    None => self.live.spec_ids()[self.sccs.spec_parts()[j][0] as int],
                },
                candidates@.no_duplicates(),
                forall|j: int| 0 <= j < candidates@.len() ==> #[trigger] candidates@[j] < i,
                forall|v: int| 0 <= v < i ==> (candidates@.contains(v as usize) <==> #[trigger] no_in_edge(&self.sccs, v)),
            decreases k - i,
        {
            let rep = match self.scc_reps[i] {
                Some(u) => u,
                None => {
                    proof {
                        assert(self.sccs.spec_parts()[i as int].len() >= 1);
                        assert(self.sccs.spec_parts()[i as int][0] < self.sccs.spec_size());
                    }
                    ids[self.sccs.part(i)[0]]
                },
            };
            let ghost d0 = done@;
            let ghost s0 = seen@;
            reps.push(rep);
            done.push(false);
            seen.push(false);
            proof {
                assert forall|j: int| 0 <= j < i + 1 implies !(#[trigger] done@[j]) by {
                    if j < i {
                        assert(done@[j] == d0[j]);
                    }
                }
                assert forall|j: int| 0 <= j < i + 1 implies !(#[trigger] seen@[j]) by {
                    if j < i {
                        assert(seen@[j] == s0[j]);
                    }
                }
            }
            let ins = self.sccs.in_edges(i);
            let ghost c0 = candidates@;
            if ins.len() == 0 {
                candidates.push(i);
                proof {
                    assert forall|u: int| !#[trigger] has_edge(&self.sccs, u, i as int) by {
                        assert(!has_in_edge(&self.sccs, i as int, u));
                    }
                }
            } else {
                proof {
                    assert(has_in_edge(&self.sccs, i as int, ins@[0] as int));
                    assert(has_edge(&self.sccs, ins@[0] as int, i as int));
                }
            }
            proof {
                assert forall|a: int, b: int| 0 <= a < b < candidates@.len() implies candidates@[a] != candidates@[b] by {
                    if b == c0.len() {
                        assert(c0[a] < i);
                    }
                }
                assert forall|v: int| 0 <= v < i + 1 implies (candidates@.contains(v as usize) <==> #[trigger] no_in_edge(&self.sccs, v)) by {
                    if v < i {
                        if candidates@.contains(v as usize) {
                            let m = choose|m: int| 0 <= m < candidates@.len() && candidates@[m] == v as usize;
                            if m < c0.len() {
                                assert(c0[m] == v);
                            }
                        }
                        if c0.contains(v as usize) {
                            let m = choose|m: int| 0 <= m < c0.len() && c0[m] == v as usize;
                            assert(candidates@[m] == v);
                        }
                    } else {
                        if candidates@.contains(v as usize) {
                            let m = choose|m: int| 0 <= m < candidates@.len() && candidates@[m] == v as usize;
                            if m < c0.len() {
                                assert(c0[m] < i);
                            }
                        }
                        if ins.len() == 0 {
                            assert(candidates@[c0.len() as int] == i);
                        }
                    }
                }
            }
            i = i + 1;
        }
        let r = OrderResolver {
            graggle: self.graggle,
            live: self.live,
            ordered: Vec::new(),
            sccs: self.sccs,
            scc_reps: reps,
            seen,
            done,
            candidates,
        };
        proof {
            assert forall|v: int| 0 <= v < k implies (r.candidates@.contains(v as usize) <==> #[trigger] r.ready(v)) by {
                assert(r.candidates@.contains(v as usize) == no_in_edge(&r.sccs, v));
                if !no_in_edge(&r.sccs, v) {
                    let u = choose|u: int| #[trigger] has_edge(&r.sccs, u, v);
                    assert(0 <= u < k);
                    assert(!r.done@[u]);
                }
            }
        }
        r
    }
}

/// The component `v` may come next: it is not done, and every component with an edge to it is.
pub open spec fn ready_in(sccs: Partition, done: Seq<bool>, v: int) -> bool {
    &&& !done[v]
    &&& forall|u: int| #[trigger] has_edge(&sccs, u, v) ==> done[u]
}

/// The components of `outs` that may come next, each once, in the order in which they take a
/// removed candidate's place: each one offered goes in front of those offered before it.
pub open spec fn offered_in_place(outs: Seq<usize>, sccs: Partition, done: Seq<bool>) -> Seq<usize>
    decreases outs.len(),
{
    if outs.len() == 0 {
        Seq::empty()
    } else {
        let prev = offered_in_place(outs.drop_last(), sccs, done);
        let u = outs.last();
        if ready_in(sccs, done, u as int) && !prev.contains(u) {
            seq![u] + prev
        } else {
            prev
        }
    }
}

/// Offering the `j`-th out-neighbor in the removed candidate's place.
proof fn lemma_offer_step(
    c_old: Seq<usize>,
    idx: int,
    outs: Seq<usize>,
    j: int,
    sccs: Partition,
    done: Seq<bool>,
    c0: Seq<usize>,
    c1: Seq<usize>,
    is_new: bool,
)
    requires
        0 <= j < outs.len(),
        0 <= idx < c_old.len(),
        c0 == c_old.take(idx) + offered_in_place(outs.take(j), sccs, done) + c_old.skip(idx + 1),
        c0.contains(outs[j]) <==> ready_in(sccs, done, outs[j] as int) && outs.take(j).contains(outs[j]),
        is_new == (ready_in(sccs, done, outs[j] as int) && !c0.contains(outs[j])),
        is_new ==> c1 == c0.insert(idx, outs[j]),
        !is_new ==> c1 == c0,
    ensures
        c1 == c_old.take(idx) + offered_in_place(outs.take(j + 1), sccs, done) + c_old.skip(idx + 1),
{
    let u = outs[j];
    let pre = offered_in_place(outs.take(j), sccs, done);
    assert(outs.take(j + 1).drop_last() =~= outs.take(j));
    assert(outs.take(j + 1).last() == u);
    lemma_offered_in_place_contains(outs.take(j), sccs, done, u);
    if is_new {
        assert(c1 =~= c_old.take(idx) + offered_in_place(outs.take(j + 1), sccs, done) + c_old.skip(idx + 1));
    } else {
        assert(offered_in_place(outs.take(j + 1), sccs, done) == pre);
    }
}

proof fn lemma_offered_in_place_contains(outs: Seq<usize>, sccs: Partition, done: Seq<bool>, v: usize)
    ensures
        offered_in_place(outs, sccs, done).contains(v) <==> ready_in(sccs, done, v as int) && outs.contains(v),
    decreases outs.len(),
{
    if outs.len() > 0 {
        let init = outs.drop_last();
        lemma_offered_in_place_contains(init, sccs, done, v);
        let prev = offered_in_place(init, sccs, done);
        let u = outs.last();
        if outs.contains(v) && !init.contains(v) {
            let l = choose|l: int| 0 <= l < outs.len() && outs[l] == v;
            if l < init.len() {
                assert(init[l] == v);
            }
        }
        if init.contains(v) {
            let l = choose|l: int| 0 <= l < init.len() && init[l] == v;
            assert(outs[l] == v);
        }
        if ready_in(sccs, done, u as int) && !prev.contains(u) {
            assert((seq![u] + prev)[0] == u);
            if prev.contains(v) {
                let l = choose|l: int| 0 <= l < prev.len() && prev[l] == v;
                assert((seq![u] + prev)[l + 1] == v);
            }
            if (seq![u] + prev).contains(v) && v != u {
                let l = choose|l: int| 0 <= l < prev.len() + 1 && (seq![u] + prev)[l] == v;
                assert(prev[l - 1] == v);
            }
        }
    }
}

/// Some one of the first `j` entries of `outs` is `v`.
pub open spec fn offered(outs: Seq<usize>, j: int, v: int) -> bool {
    exists|l: int| 0 <= l < j && outs[l] == v
}

proof fn lemma_offered_step(outs: Seq<usize>, j: int, v: int)
    requires
        0 <= j < outs.len(),
    ensures
        offered(outs, j + 1, v) == (offered(outs, j, v) || outs[j] == v),
{
    if offered(outs, j + 1, v) {
        let l = choose|l: int| 0 <= l < j + 1 && outs[l] == v;
        if l < j {
            assert(offered(outs, j, v));
        }
    }
    if offered(outs, j, v) {
        let l = choose|l: int| 0 <= l < j && outs[l] == v;
        assert(0 <= l < j + 1 && outs[l] == v);
    }
    if outs[j] == v {
        assert(0 <= j < j + 1 && outs[j] == v);
    }
}

proof fn lemma_insert_contains(s: Seq<usize>, i: int, x: usize, y: usize)
    requires
        0 <= i <= s.len(),
    ensures
        s.insert(i, x).contains(y) == (s.contains(y) || y == x),
{
    s.insert_ensures(i, x);
    let t = s.insert(i, x);
    if t.contains(y) {
        let m = choose|m: int| 0 <= m < t.len() && t[m] == y;
        if m < i {
            assert(s[m] == y);
        } else if m > i {
            assert(s[m - 1] == y);
        }
    }
    if s.contains(y) {
        let m = choose|m: int| 0 <= m < s.len() && s[m] == y;
        if m < i {
            assert(t[m] == y);
        } else {
            assert(t[m + 1] == y);
        }
    }
    if y == x {
        assert(t[i] == y);
    }
}

/// No edge of `g` leads to `v`.
pub open spec fn no_in_edge<G: Graph>(g: &G, v: int) -> bool {
    forall|u: int| !#[trigger] has_edge(g, u, v)
}

/// The parts of the partition `p` partition its nodes.
pub open spec fn is_partition_of(p: Partition) -> bool {
    crate::partition::is_partition(p.spec_parts(), p.spec_size())
}

/// A utility for imposing a linear order on a graggle without cycles, interactively: the
/// nodes are chosen (or deleted) one at a time, each only once all the nodes before it in the
/// graggle are.
pub struct OrderResolver<'a> {
    graggle: Graggle<'a>,
    live: LiveGraph,
    ordered: Vec<NodeId>,
    // The strongly connected components of the live graph; the fields below refer to them by
    // index.
    sccs: Partition,
    // The node that stands for each component.
    scc_reps: Vec<NodeId>,
    // The components that were chosen.
    seen: Vec<bool>,
    // The components that were chosen or deleted.
    done: Vec<bool>,
    // The components that may come next.
    candidates: Vec<usize>,
}

impl<'a> OrderResolver<'a> {
    /// The graggle being ordered.
    pub closed spec fn spec_graggle(&self) -> GraggleView {
        self.graggle@
    }

    /// The live graph of the graggle.
    pub closed spec fn spec_live(&self) -> IdGraph {
        self.live
    }

    /// The strongly connected components of the live graph.
    pub closed spec fn spec_sccs(&self) -> Partition {
        self.sccs
    }

    /// The nodes put in order so far.
    pub closed spec fn spec_ordered(&self) -> Seq<NodeId> {
        self.ordered@
    }

    /// The node that stands for each component.
    pub closed spec fn spec_reps(&self) -> Seq<NodeId> {
        self.scc_reps@
    }

    /// The components that were chosen or deleted.
    pub closed spec fn spec_done(&self) -> Seq<bool> {
        self.done@
    }

    /// The components that were chosen.
    pub closed spec fn spec_seen(&self) -> Seq<bool> {
        self.seen@
    }

    /// The components that may come next, in the order in which they are offered.
    pub closed spec fn spec_candidates(&self) -> Seq<usize> {
        self.candidates@
    }

    /// The component `v` may come next: it is not done, and every component with an edge to
    /// it is.
    pub closed spec fn ready(&self, v: int) -> bool {
        &&& 0 <= v < self.done@.len()
        &&& ready_in(self.sccs, self.done@, v)
    }

    /// The live nodes of the graggle, in the order in which it stores them.
    pub closed spec fn spec_node_list(&self) -> Seq<NodeId> {
        self.graggle.spec_node_list()
    }

    /// The component of the live node `n`.
    pub closed spec fn scc_of(&self, n: NodeId) -> int {
        self.sccs.spec_index_of(choose|i: int| 0 <= i < self.live.spec_ids().len() && self.live.spec_ids()[i] == n)
    }

    /// The nodes that are already in order.
    pub fn ordered_nodes(&self) -> (r: &Vec<NodeId>)
        ensures
            r@ == self.spec_ordered(),
    {
        &self.ordered
    }

    /// The current candidates: each is a node that may come next, with the chain of nodes that
    /// naturally follow it.
    pub fn candidates(&self) -> (r: Vec<CandidateChain<'a>>)
        requires
            self.wf(),
        ensures
            r@.len() == self.spec_candidates().len(),
            forall|j: int| 0 <= j < r@.len() ==> (#[trigger] r@[j]).spec_first() == self.spec_reps()[self.spec_candidates()[j] as int]
                && r@[j].spec_graggle() == self.spec_graggle(),
    {
        let mut r: Vec<CandidateChain<'a>> = Vec::new();
        let mut j: usize = 0;
        while j < self.candidates.len()
            invariant
                self.wf(),
                j <= self.candidates.len(),
                r@.len() == j,
                forall|l: int| 0 <= l < j ==> (#[trigger] r@[l]).spec_first() == self.scc_reps@[self.candidates@[l] as int]
                    && r@[l].spec_graggle() == self.graggle@,
            decreases self.candidates.len() - j,
        {
            let c = self.candidates[j];
            r.push(CandidateChain { graggle: self.graggle, id: self.scc_reps[c] });
            j = j + 1;
        }
        r
    }

    /// Marks the candidate `scc` as done, and offers in its place the components that may now
    /// come next.
    #[verifier::spinoff_prover]
    fn advance_past(&mut self, scc: usize)
        requires
            old(self).wf(),
            old(self).spec_candidates().contains(scc),
        ensures
            final(self).wf(),
            final(self).spec_done() == old(self).spec_done().update(scc as int, true),
            final(self).spec_seen() == old(self).spec_seen(),
            final(self).spec_ordered() == old(self).spec_ordered(),
            final(self).spec_reps() == old(self).spec_reps(),
            final(self).spec_live() == old(self).spec_live(),
            final(self).spec_sccs() == old(self).spec_sccs(),
            final(self).spec_graggle() == old(self).spec_graggle(),
            exists|i: int| 0 <= i < old(self).spec_candidates().len() && old(self).spec_candidates()[i] == scc
                && final(self).spec_candidates() == old(self).spec_candidates().take(i) + offered_in_place(
                    final(self).spec_sccs().spec_out(scc as int), final(self).spec_sccs(), final(self).spec_done())
                    + old(self).spec_candidates().skip(i + 1),
    {
        proof {
            self.sccs.lemma_wf();
        }
        let ghost k = self.sccs.spec_parts().len();
        let idx = position_usize(&self.candidates, scc);
        proof {
            assert(old(self).ready(scc as int));
        }
        let ghost c_old = self.candidates@;
        let ghost d_old = self.done@;
        self.candidates.remove(idx);
        self.done.set(scc, true);
        proof {
            c_old.remove_ensures(idx as int);
            assert forall|v: int| 0 <= v < k implies (self.candidates@.contains(v as usize) <==>
                (self.ready(v) && !has_edge(&self.sccs, scc as int, v))) by {
                if self.candidates@.contains(v as usize) {
                    let m = choose|m: int| 0 <= m < self.candidates@.len() && self.candidates@[m] == v as usize;
                    let m0 = if m < idx { m } else { m + 1 };
                    assert(c_old[m0] == v);
                    assert(c_old.contains(v as usize));
                    assert(old(self).ready(v));
                    assert(v != scc) by {
                        if v == scc {
                            assert(c_old[idx as int] == scc);
                        }
                    }
                    assert(!has_edge(&self.sccs, scc as int, v));
                    assert forall|u: int| #[trigger] has_edge(&self.sccs, u, v) implies self.done@[u] by {
                        assert(d_old[u]);
                    }
                }
                if self.ready(v) && !has_edge(&self.sccs, scc as int, v) {
                    assert(v != scc);
                    assert forall|u: int| #[trigger] has_edge(&self.sccs, u, v) implies d_old[u] by {
                        assert(u != scc);
                        assert(self.done@[u]);
                    }
                    assert(old(self).ready(v));
                    assert(c_old.contains(v as usize));
                    let m = choose|m: int| 0 <= m < c_old.len() && c_old[m] == v as usize;
                    assert(m != idx);
                    if m < idx {
                        assert(self.candidates@[m] == v);
                    } else {
                        assert(self.candidates@[m - 1] == v);
                    }
                }
            }
            assert forall|a: int, b: int| 0 <= a < b < self.candidates@.len() implies self.candidates@[a] != self.candidates@[b] by {
                let a0 = if a < idx { a } else { a + 1 };
                let b0 = if b < idx { b } else { b + 1 };
                assert(self.candidates@[a] == c_old[a0]);
                assert(self.candidates@[b] == c_old[b0]);
            }
        }
        let outs = self.sccs.out_edges(scc);
        proof {
            assert(outs@.take(0) =~= Seq::<usize>::empty());
            assert(self.candidates@ =~= c_old.take(idx as int) + offered_in_place(outs@.take(0), self.sccs, self.done@)
                + c_old.skip(idx + 1));
        }
        let mut j: usize = 0;
        while j < outs.len()
            invariant
                self.live.wf(),
                self.sccs.wf(),
                valid_graph(&self.sccs),
                mirrored(&self.sccs),
                self.sccs.spec_num_nodes() == k,
                self.sccs.spec_parts().len() == k,
                self.sccs.spec_size() == self.live.spec_num_nodes(),
                self.scc_reps@.len() == k,
                self.done@.len() == k,
                self.seen@.len() == k,
                scc < k,
                self.seen@ == old(self).seen@,
                self.ordered@ == old(self).ordered@,
                self.scc_reps@ == old(self).scc_reps@,
                self.live == old(self).live,
                self.sccs == old(self).sccs,
                self.graggle == old(self).graggle,
                self.done@ == d_old.update(scc as int, true),
                outs@ == self.sccs.spec_out(scc as int),
                idx <= self.candidates@.len(),
                j <= outs.len(),
                self.candidates@.no_duplicates(),
                forall|l: int| 0 <= l < self.candidates@.len() ==> #[trigger] self.candidates@[l] < k,
                forall|v: int| 0 <= v < k ==> (self.candidates@.contains(v as usize) <==>
                    (#[trigger] self.ready(v) && (!has_edge(&self.sccs, scc as int, v)
                        || offered(outs@, j as int, v)))),
                c_old[idx as int] == scc,
                idx < c_old.len(),
                self.candidates@ == c_old.take(idx as int) + offered_in_place(outs@.take(j as int), self.sccs, self.done@)
                    + c_old.skip(idx + 1),
            decreases outs.len() - j,
        {
            let u = outs[j];
            proof {
                assert(has_edge(&self.sccs, scc as int, u as int));
                assert(u < k);
            }
            let ghost c0 = self.candidates@;
            let ghost s0 = *self;
            proof {
                assert forall|v: int| 0 <= v < k implies (c0.contains(v as usize) <==> (#[trigger] s0.ready(v) && (!has_edge(&self.sccs, scc as int, v)
                        || offered(outs@, j as int, v)))) by {
                    assert(self.ready(v) == s0.ready(v));
                }
            }
            let is_new = !self.done[u] && !contains_usize(&self.candidates, u) && all_in_done(&self.sccs, &self.done, u);
            if is_new {
                self.candidates.insert(idx, u);
                proof {
                    c0.insert_ensures(idx as int, u);
                    assert(self.ready(u as int));
                    assert forall|a: int, b: int| 0 <= a < b < self.candidates@.len() implies self.candidates@[a] != self.candidates@[b] by {
                        let a0 = if a < idx { a } else { a - 1 };
                        let b0 = if b < idx { b } else { b - 1 };
                        if a != idx && b != idx {
                            assert(self.candidates@[a] == c0[a0]);
                            assert(self.candidates@[b] == c0[b0]);
                        } else if a == idx {
                            assert(self.candidates@[b] == c0[b0]);
                            assert(c0.contains(c0[b0]));
                        } else {
                            assert(self.candidates@[a] == c0[a0]);
                            assert(c0.contains(c0[a0]));
                        }
                    }
                }
            }
            proof {
                assert forall|l: int| 0 <= l < self.candidates@.len() implies #[trigger] self.candidates@[l] < k by {
                    if self.candidates@ != c0 {
                        if l < idx {
                            assert(self.candidates@[l] == c0[l]);
                        } else if l > idx {
                            assert(self.candidates@[l] == c0[l - 1]);
                        }
                    }
                }
                assert forall|v: int| 0 <= v < k implies (self.candidates@.contains(v as usize) <==>
                    (#[trigger] self.ready(v) && (!has_edge(&self.sccs, scc as int, v)
                        || offered(outs@, j + 1, v)))) by {
                    lemma_offered_step(outs@, j as int, v);
                    assert(s0.done == self.done);
                    assert(s0.sccs == self.sccs);
                    assert(s0.ready(v) == self.ready(v));
                    if is_new {
                        lemma_insert_contains(c0, idx as int, u, v as usize);
                        assert(self.candidates@ == c0.insert(idx as int, u));
                        if v == u as int {
                            assert(self.ready(v));
                            assert(self.candidates@.contains(v as usize));
                        } else {
                            assert(self.candidates@.contains(v as usize) == c0.contains(v as usize));
                        }
                    } else if v == u as int {
                        if !self.done@[v] && !c0.contains(u) {
                            let x = choose|x: int| #[trigger] has_edge(&self.sccs, x, u as int) && !self.done@[x];
                            assert(!self.ready(v));
                        }
                    }
                }
                assert(offered(outs@, j as int, u as int) <==> outs@.take(j as int).contains(u)) by {
                    if offered(outs@, j as int, u as int) {
                        let l = choose|l: int| 0 <= l < j && outs@[l] == u;
                        assert(outs@.take(j as int)[l] == u);
                    }
                    if outs@.take(j as int).contains(u) {
                        let l = choose|l: int| 0 <= l < j && outs@.take(j as int)[l] == u;
                        assert(outs@[l] == u);
                    }
                }
                assert(s0.ready(u as int) == ready_in(self.sccs, self.done@, u as int));
                lemma_offer_step(c_old, idx as int, outs@, j as int, self.sccs, self.done@, c0, self.candidates@, is_new);
            }
            j = j + 1;
        }
        proof {
            assert(outs@.take(outs@.len() as int) =~= outs@);
            assert(c_old == old(self).spec_candidates());
            assert(c_old[idx as int] == scc);
            assert forall|v: int| 0 <= v < k implies (self.candidates@.contains(v as usize) <==> #[trigger] self.ready(v)) by {
                if has_edge(&self.sccs, scc as int, v) && self.ready(v) {
                    let l = choose|l: int| 0 <= l < outs@.len() && outs@[l] == v;
                    assert(offered(outs@, outs@.len() as int, v));
                }
            }
        }
    }

    /// Puts the node `next` next in the order. It must be a live node whose component is a
    /// candidate.
    pub fn choose_node(&mut self, next: &NodeId)
        requires
            old(self).wf(),
            old(self).spec_live().spec_ids().contains(*next),
            old(self).spec_candidates().contains(old(self).scc_of(*next) as usize),
        ensures
            final(self).wf(),
            final(self).spec_ordered() == old(self).spec_ordered().push(*next),
            final(self).spec_done() == old(self).spec_done().update(old(self).scc_of(*next), true),
            final(self).spec_seen() == old(self).spec_seen().update(old(self).scc_of(*next), true),
            final(self).spec_reps() == old(self).spec_reps(),
            final(self).spec_sccs() == old(self).spec_sccs(),
            final(self).spec_live() == old(self).spec_live(),
            final(self).spec_graggle() == old(self).spec_graggle(),
            exists|i: int| 0 <= i < old(self).spec_candidates().len() && old(self).spec_candidates()[i] == old(self).scc_of(*next)
                && final(self).spec_candidates() == old(self).spec_candidates().take(i) + offered_in_place(
                    final(self).spec_sccs().spec_out(old(self).scc_of(*next)), final(self).spec_sccs(), final(self).spec_done())
                    + old(self).spec_candidates().skip(i + 1),
    {
        let s = self.component_of(next);
        self.ordered.push(*next);
        self.seen.set(s, true);
        proof {
            assert(self.done == old(self).done);
            assert(self.sccs == old(self).sccs);
            assert forall|v: int| #[trigger] self.ready(v) == old(self).ready(v) by {}
            assert(self.wf());
        }
        self.advance_past(s);
    }

    /// Deletes the node `u` instead of putting it in the order. It must be a live node whose
    /// component is a candidate.
    pub fn delete(&mut self, u: &NodeId)
        requires
            old(self).wf(),
            old(self).spec_live().spec_ids().contains(*u),
            old(self).spec_candidates().contains(old(self).scc_of(*u) as usize),
        ensures
            final(self).wf(),
            final(self).spec_ordered() == old(self).spec_ordered(),
            final(self).spec_done() == old(self).spec_done().update(old(self).scc_of(*u), true),
            final(self).spec_seen() == old(self).spec_seen(),
            final(self).spec_reps() == old(self).spec_reps(),
            final(self).spec_sccs() == old(self).spec_sccs(),
            final(self).spec_live() == old(self).spec_live(),
            final(self).spec_graggle() == old(self).spec_graggle(),
            exists|i: int| 0 <= i < old(self).spec_candidates().len() && old(self).spec_candidates()[i] == old(self).scc_of(*u)
                && final(self).spec_candidates() == old(self).spec_candidates().take(i) + offered_in_place(
                    final(self).spec_sccs().spec_out(old(self).scc_of(*u)), final(self).spec_sccs(), final(self).spec_done())
                    + old(self).spec_candidates().skip(i + 1),
    {
        let s = self.component_of(u);
        self.advance_past(s);
    }

    /// The component of the live node `n`.
    fn component_of(&self, n: &NodeId) -> (r: usize)
        requires
            self.wf(),
            self.live.spec_ids().contains(*n),
        ensures
            r == self.scc_of(*n),
            r < self.done@.len(),
    {
        proof {
            self.live.lemma_wf();
            self.sccs.lemma_wf();
        }
        match self.live.index_of(n) {
            Some(i) => {
                proof {
                    let c = choose|c: int| 0 <= c < self.live.spec_ids().len() && self.live.spec_ids()[c] == *n;
                    assert(c == i) by {
                        if c != i {
                            assert(self.live.spec_ids().no_duplicates());
                        }
                    }
                }
                self.sccs.index_of(i)
            },
            None => vstd::pervasive::unreached(),
        }
    }

    /// Is the whole graggle in order (or deleted)?
    pub fn is_finished(&self) -> (r: bool)
        ensures
            r == (self.spec_candidates().len() == 0),
    {
        self.candidates.len() == 0
    }

    /// The changes that turn the graggle into the order built so far: the live nodes that are
    /// not in the order are deleted, and consecutive nodes of the order that are not joined yet
    /// are joined by an edge.
    pub fn changes(&self) -> (r: Changes)
        ensures
            r@ == deletions(self.spec_node_list(), self.spec_ordered())
                + joins(self.spec_graggle(), self.spec_ordered(), self.spec_ordered().len() as int),
            forall|i: int| 1 <= i < self.spec_ordered().len() ==> linked(self.spec_graggle(), self.spec_ordered()[i - 1], self.spec_ordered()[i])
                || #[trigger] r@.contains(join_edge(self.spec_ordered(), i)),
            forall|n: NodeId| #[trigger] r@.contains(deletion_of(n))
                <==> self.spec_node_list().contains(n) && !self.spec_ordered().contains(n),
            forall|c: ChangeView| #[trigger] r@.contains(c) && (c is NewEdge) ==> exists|i: int|
                1 <= i < self.spec_ordered().len() && c == join_edge(self.spec_ordered(), i)
                && !linked(self.spec_graggle(), self.spec_ordered()[i - 1], self.spec_ordered()[i]),
    {
        let nodes = self.graggle.nodes();
        let mut changes: Vec<Change> = Vec::new();
        let mut i: usize = 0;
        while i < nodes.len()
            invariant
                nodes@ == self.graggle.spec_node_list(),
                i <= nodes.len(),
                changes@.map_values(|c: Change| c@) == deletions(nodes@.take(i as int), self.ordered@),
            decreases nodes.len() - i,
        {
            let ghost c0 = changes@;
            if !node_in(&self.ordered, &nodes[i]) {
                changes.push(Change::DeleteNode { id: nodes[i] });
            }
            proof {
                assert(nodes@.take(i + 1).drop_last() =~= nodes@.take(i as int));
                assert(nodes@.take(i + 1).last() == nodes@[i as int]);
                assert(changes@.map_values(|c: Change| c@) =~= deletions(nodes@.take(i + 1), self.ordered@));
            }
            i = i + 1;
        }
        proof {
            assert(nodes@.take(nodes@.len() as int) =~= nodes@);
        }
        let ghost dels = changes@.map_values(|c: Change| c@);
        let mut i: usize = 1;
        while i < self.ordered.len()
            invariant
                1 <= i,
                i <= self.ordered.len() || i == 1,
                dels == deletions(self.graggle.spec_node_list(), self.ordered@),
                changes@.map_values(|c: Change| c@) == dels + joins(self.graggle@, self.ordered@, i as int),
            decreases self.ordered.len() - i,
        {
            let u = self.ordered[i - 1];
            let v = self.ordered[i];
            let outs = self.graggle.out_neighbors(&u);
            let ghost c_prev = changes@;
            if !node_in(&outs, &v) {
                changes.push(Change::NewEdge { src: u, dest: v });
                proof {
                    assert(changes@.map_values(|c: Change| c@) =~= c_prev.map_values(|c: Change| c@).push(
                        ChangeView::NewEdge { src: u, dest: v },
                    ));
                }
            }
            proof {
                assert(linked(self.graggle@, u, v) == outs@.contains(v));
                assert(u == self.ordered@[(i + 1) - 2]);
                assert(v == self.ordered@[(i + 1) - 1]);
                let jn = joins(self.graggle@, self.ordered@, i as int);
                assert(joins(self.graggle@, self.ordered@, i + 1) == if linked(self.graggle@, u, v) {
                    jn
                } else {
                    jn.push(ChangeView::NewEdge { src: u, dest: v })
                });
                assert(changes@.map_values(|c: Change| c@) =~= dels + joins(self.graggle@, self.ordered@, i + 1));
            }
            i = i + 1;
        }
        proof {
            if self.ordered@.len() <= 1 {
                assert(joins(self.graggle@, self.ordered@, self.ordered@.len() as int) == joins(self.graggle@, self.ordered@, 1));
            } else {
                assert(i == self.ordered@.len());
            }
        }
        let r = Changes { changes };
        proof {
            assert(r@ =~= r.changes@.map_values(|c: Change| c@));
            let o = self.ordered@;
            let g = self.graggle@;
            let d = deletions(self.graggle.spec_node_list(), o);
            let j = joins(g, o, o.len() as int);
            lemma_joins_cover(g, o, o.len() as int);
            lemma_deletions_exact(self.graggle.spec_node_list(), o);
            assert forall|c: ChangeView| #[trigger] r@.contains(c) <==> d.contains(c) || j.contains(c) by {
                if r@.contains(c) {
                    let k = choose|k: int| 0 <= k < r@.len() && r@[k] == c;
                    if k < d.len() {
                        assert(d[k] == c);
                    } else {
                        assert(j[k - d.len()] == c);
                    }
                }
                if d.contains(c) {
                    let k = choose|k: int| 0 <= k < d.len() && d[k] == c;
                    assert(r@[k] == c);
                }
                if j.contains(c) {
                    let k = choose|k: int| 0 <= k < j.len() && j[k] == c;
                    assert(r@[d.len() + k] == c);
                }
            }
            assert forall|i: int| 1 <= i < o.len() implies linked(g, o[i - 1], o[i])
                || #[trigger] r@.contains(join_edge(o, i)) by {
                if !linked(g, o[i - 1], o[i]) {
                    assert(j.contains(join_edge(o, i)));
                }
            }
            assert forall|n: NodeId| #[trigger] r@.contains(deletion_of(n))
                <==> self.graggle.spec_node_list().contains(n) && !o.contains(n) by {
                let c = deletion_of(n);
                if j.contains(c) {
                    let i = choose|i: int| 1 <= i < o.len() && c == join_edge(o, i) && !linked(g, o[i - 1], o[i]);
                }
            }
            assert forall|c: ChangeView| #[trigger] r@.contains(c) && (c is NewEdge) implies exists|i: int|
                1 <= i < o.len() && c == join_edge(o, i) && !linked(g, o[i - 1], o[i]) by {
                if d.contains(c) {
                    assert(c is DeleteNode);
                } else {
                    assert(j.contains(c));
                }
            }
        }
        r
    }

    /// The candidates are exactly the components that may come next, each once.
    pub closed spec fn wf(&self) -> bool {
        let k = self.sccs.spec_parts().len();
        &&& self.live.wf()
        &&& self.sccs.wf()
        &&& self.sccs.spec_size() == self.live.spec_num_nodes()
        &&& self.scc_reps@.len() == k
        &&& self.done@.len() == k
        &&& self.seen@.len() == k
        &&& self.candidates@.no_duplicates()
        &&& forall|j: int| 0 <= j < self.candidates@.len() ==> #[trigger] self.candidates@[j] < k
        &&& forall|v: int| 0 <= v < k ==> (self.candidates@.contains(v as usize) <==> #[trigger] self.ready(v))
    }
}

} // verus!
