//! Graggles: directed graphs of lines, some live and some deleted, together with the
//! pseudo-edges that let readers skip over the deleted lines.

use vstd::prelude::*;
use vstd::std_specs::cmp::PartialEqSpecImpl;

use crate::ids::{lemma_cur_unique, lemma_node_before, lemma_patch_before, node_before, patch_before, NodeId, PatchId};

verus! {

/// The different kinds of edges.
#[derive(Clone, Copy, Debug, PartialEq, Eq, Structural, Hash, PartialOrd, Ord)]
pub enum EdgeKind {
    /// This edge points to a live node.
    Live,
    /// This edge was not added by any patch. It was added as an optimization, to
    /// skip over deleted nodes.
    Pseudo,
    /// This edge points to a deleted node.
    Deleted,
}

/// A directed edge of a graggle. Only the destination is stored: an edge is always found
/// through the node that it starts from.
#[derive(Clone, Copy, Debug, Eq, Hash, PartialOrd, Ord)]
pub struct Edge {
    /// What kind of edge is it?
    pub kind: EdgeKind,
    /// The destination of this (directed) edge.
    pub dest: NodeId,
    /// Which patch introduced this edge? For a pseudo-edge this is [`PatchId::cur`].
    pub patch: PatchId,
}

impl PartialEq for Edge {
    fn eq(&self, other: &Edge) -> (r: bool) {
        self.kind == other.kind && self.dest == other.dest && self.patch == other.patch
    }
}

impl PartialEqSpecImpl for Edge {
    open spec fn obeys_eq_spec() -> bool {
        true
    }

    open spec fn eq_spec(&self, other: &Edge) -> bool {
        *self == *other
    }
}

/// The place of an edge kind in the order of edges: live, then pseudo, then deleted.
pub open spec fn kind_rank(k: EdgeKind) -> int {
    match k {
        EdgeKind::Live => 0,
        EdgeKind::Pseudo => 1,
        EdgeKind::Deleted => 2,
    }
}

/// `a` comes before `b` in the order of edges: by kind (live, pseudo, deleted), then by
/// destination, then by patch.
pub open spec fn edge_before(a: Edge, b: Edge) -> bool {
    ||| kind_rank(a.kind) < kind_rank(b.kind)
    ||| a.kind == b.kind && node_before(a.dest, b.dest)
    ||| a.kind == b.kind && a.dest == b.dest && patch_before(a.patch, b.patch)
}

/// The edges of `s` are in strictly increasing order.
pub open spec fn edges_ascending(s: Seq<Edge>) -> bool {
    forall|i: int, j: int| 0 <= i < j < s.len() ==> edge_before(#[trigger] s[i], #[trigger] s[j])
}

/// The order of edges is a strict total order.
pub proof fn lemma_edge_before(a: Edge, b: Edge, c: Edge)
    ensures
        !edge_before(a, a),
        a != b ==> edge_before(a, b) || edge_before(b, a),
        edge_before(a, b) && edge_before(b, c) ==> edge_before(a, c),
{
    lemma_node_before(a.dest, b.dest, c.dest);
    lemma_node_before(a.dest, a.dest, a.dest);
    lemma_node_before(b.dest, b.dest, b.dest);
    lemma_patch_before(a.patch, b.patch, c.patch);
    lemma_patch_before(a.patch, a.patch, a.patch);
    lemma_patch_before(b.patch, b.patch, b.patch);
}

/// Two increasing sequences of edges with the same edges are equal.
pub proof fn lemma_ascending_unique(a: Seq<Edge>, b: Seq<Edge>)
    requires
        edges_ascending(a),
        edges_ascending(b),
        forall|e: Edge| #![trigger a.contains(e)] #![trigger b.contains(e)] a.contains(e) <==> b.contains(e),
    ensures
        a == b,
    decreases a.len(),
{
    if a.len() == 0 {
        if b.len() > 0 {
            assert(b.contains(b[0]));
        }
        assert(a =~= b);
    } else {
        assert(a.contains(a[0]));
        let j = choose|j: int| 0 <= j < b.len() && b[j] == a[0];
        assert(b.contains(b[0]));
        let i = choose|i: int| 0 <= i < a.len() && a[i] == b[0];
        if j > 0 {
            assert(edge_before(b[0], b[j]));
            if i > 0 {
                assert(edge_before(a[0], a[i]));
                lemma_edge_before(b[0], a[0], b[0]);
            } else {
                lemma_edge_before(b[0], b[0], b[0]);
            }
        }
        assert(a[0] == b[0]);
        let a1 = a.drop_first();
        let b1 = b.drop_first();
        assert forall|e: Edge| #![trigger a1.contains(e)] #![trigger b1.contains(e)] a1.contains(e) <==> b1.contains(e) by {
            if a1.contains(e) {
                let k = choose|k: int| 0 <= k < a1.len() && a1[k] == e;
                assert(edge_before(a[0], a[k + 1]));
                lemma_edge_before(e, e, e);
                assert(b.contains(e));
                let m = choose|m: int| 0 <= m < b.len() && b[m] == e;
                assert(m != 0);
                assert(b1[m - 1] == e);
            }
            if b1.contains(e) {
                let k = choose|k: int| 0 <= k < b1.len() && b1[k] == e;
                assert(edge_before(b[0], b[k + 1]));
                lemma_edge_before(e, e, e);
                assert(a.contains(e));
                let m = choose|m: int| 0 <= m < a.len() && a[m] == e;
                assert(m != 0);
                assert(a1[m - 1] == e);
            }
        }
        assert forall|x: int, y: int| 0 <= x < y < a1.len() implies edge_before(#[trigger] a1[x], #[trigger] a1[y]) by {
            assert(a1[x] == a[x + 1] && a1[y] == a[y + 1]);
        }
        assert forall|x: int, y: int| 0 <= x < y < b1.len() implies edge_before(#[trigger] b1[x], #[trigger] b1[y]) by {
            assert(b1[x] == b[x + 1] && b1[y] == b[y + 1]);
        }
        lemma_ascending_unique(a1, b1);
        assert(a =~= b) by {
            assert forall|k: int| 0 <= k < a.len() implies a[k] == b[k] by {
                if k > 0 {
                    assert(a[k] == a1[k - 1]);
                    assert(b[k] == b1[k - 1]);
                }
            }
        }
    }
}

/// The edges of a node that point to live nodes come first among all its edges, in the same
/// order: what `out_edges` returns is the start of what `all_out_edges` returns, and the rest
/// point to deleted nodes.
pub proof fn lemma_live_edges_first(all: Seq<Edge>, live: Seq<Edge>)
    requires
        edges_ascending(all),
        edges_ascending(live),
        forall|e: Edge| #[trigger] live.contains(e) <==> all.contains(e) && !(e.kind is Deleted),
    ensures
        live.len() <= all.len(),
        live == all.take(live.len() as int),
        forall|i: int| live.len() <= i < all.len() ==> (#[trigger] all[i]).kind is Deleted,
{
    // The edges to deleted nodes come last.
    let k = lemma_first_deleted(all);
    assert forall|e: Edge| #![trigger all.take(k).contains(e)] #![trigger live.contains(e)] all.take(k).contains(e) <==> live.contains(e) by {
        if all.take(k).contains(e) {
            let m = choose|m: int| 0 <= m < k && all.take(k)[m] == e;
            assert(all[m] == e);
        }
        if live.contains(e) {
            let m = choose|m: int| 0 <= m < all.len() && all[m] == e;
            assert(m < k);
            assert(all.take(k)[m] == e);
        }
    }
    assert forall|x: int, y: int| 0 <= x < y < all.take(k).len() implies edge_before(#[trigger] all.take(k)[x], #[trigger] all.take(k)[y]) by {
        assert(all.take(k)[x] == all[x] && all.take(k)[y] == all[y]);
    }
    lemma_ascending_unique(all.take(k), live);
}

/// The position of the first edge of `all` that points to a deleted node (its length if none).
proof fn lemma_first_deleted(all: Seq<Edge>) -> (k: int)
    requires
        edges_ascending(all),
    ensures
        0 <= k <= all.len(),
        forall|i: int| 0 <= i < k ==> !((#[trigger] all[i]).kind is Deleted),
        forall|i: int| k <= i < all.len() ==> (#[trigger] all[i]).kind is Deleted,
    decreases all.len(),
{
    if all.len() == 0 {
        0
    } else if all[0].kind is Deleted {
        assert forall|i: int| 0 <= i < all.len() implies (#[trigger] all[i]).kind is Deleted by {
            if i > 0 {
                assert(edge_before(all[0], all[i]));
            }
        }
        0
    } else {
        let rest = all.drop_first();
        assert forall|x: int, y: int| 0 <= x < y < rest.len() implies edge_before(#[trigger] rest[x], #[trigger] rest[y]) by {
            assert(rest[x] == all[x + 1] && rest[y] == all[y + 1]);
        }
        let k = lemma_first_deleted(rest);
        assert forall|i: int| 0 <= i < k + 1 implies !((#[trigger] all[i]).kind is Deleted) by {
            if i > 0 {
                assert(all[i] == rest[i - 1]);
            }
        }
        assert forall|i: int| k + 1 <= i < all.len() implies (#[trigger] all[i]).kind is Deleted by {
            assert(all[i] == rest[i - 1]);
        }
        k + 1
    }
}

impl Edge {
    /// Does this edge come before `other` in the order of edges?
    pub fn is_before(&self, other: &Edge) -> (r: bool)
        ensures
            r == edge_before(*self, *other),
    {
        let ra: u8 = match self.kind {
            EdgeKind::Live => 0,
            EdgeKind::Pseudo => 1,
            EdgeKind::Deleted => 2,
        };
        let rb: u8 = match other.kind {
            EdgeKind::Live => 0,
            EdgeKind::Pseudo => 1,
            EdgeKind::Deleted => 2,
        };
        if ra != rb {
            ra < rb
        } else if self.dest.is_before(&other.dest) {
            true
        } else if self.dest == other.dest {
            self.patch.is_before(&other.patch)
        } else {
            false
        }
    }

    /// Is this edge live or pseudo (not pointing to a deleted node)?
    pub fn not_deleted(&self) -> (r: bool)
        ensures
            r == !(self.kind is Deleted),
    {
        match self.kind {
            EdgeKind::Deleted => false,
            _ => true,
        }
    }

    /// A pseudo-edge pointing to `dest`.
    pub fn new_pseudo(dest: NodeId) -> (r: Edge)
        ensures
            r.kind is Pseudo,
            r.dest == dest,
            r.patch.spec_is_cur(),
    {
        Edge { kind: EdgeKind::Pseudo, dest, patch: PatchId::cur() }
    }

    /// A real edge (live or deleted) pointing to `dest`, introduced by `patch`.
    pub fn new_real(dest: NodeId, deleted: bool, patch: PatchId) -> (r: Edge)
        ensures
            r.kind == (if deleted { EdgeKind::Deleted } else { EdgeKind::Live }),
            r.dest == dest,
            r.patch == patch,
    {
        Edge { kind: if deleted { EdgeKind::Deleted } else { EdgeKind::Live }, dest, patch }
    }
}

/// An edge together with the node that it starts from.
pub type Arrow = (NodeId, Edge);

/// The part of a graggle that patches determine: its live nodes, its deleted nodes and its
/// real edges, each given as (source, destination, patch). Pseudo-edges are not part of it:
/// they follow from it.
pub struct Skeleton {
    pub live: Set<NodeId>,
    pub dead: Set<NodeId>,
    pub links: Set<(NodeId, NodeId, PatchId)>,
}

impl Skeleton {
    /// Is `n` a node, live or deleted?
    pub open spec fn has(self, n: NodeId) -> bool {
        self.live.contains(n) || self.dead.contains(n)
    }

    /// No node is both live and deleted, and every edge joins two nodes.
    pub open spec fn wf(self) -> bool {
        &&& forall|n: NodeId| !(#[trigger] self.live.contains(n) && self.dead.contains(n))
        &&& forall|t: (NodeId, NodeId, PatchId)|
            #[trigger] self.links.contains(t) ==> self.has(t.0) && self.has(t.1)
    }

    /// Is there a real edge from `a` to `b` (of any patch)?
    pub open spec fn link(self, a: NodeId, b: NodeId) -> bool {
        exists|p: PatchId| #[trigger] self.links.contains((a, b, p))
    }

    /// `p` is a walk along real edges whose inner nodes are all deleted.
    pub open spec fn walk(self, p: Seq<NodeId>) -> bool {
        &&& p.len() >= 2
        &&& forall|i: int| 0 <= i < p.len() - 1 ==> #[trigger] self.link(p[i], p[i + 1])
        &&& forall|i: int| 1 <= i < p.len() - 1 ==> self.dead.contains(#[trigger] p[i])
    }

    /// `x` can be reached from `u` by a walk whose inner nodes are all deleted.
    pub open spec fn reaches(self, u: NodeId, x: NodeId) -> bool {
        exists|p: Seq<NodeId>| #[trigger] self.walk(p) && p[0] == u && p.last() == x
    }

    /// There should be a pseudo-edge from `u` to `v`: both are live, distinct and not joined
    /// by a real edge, but a walk through deleted nodes leads from `u` to `v`.
    pub open spec fn pseudo_target(self, u: NodeId, v: NodeId) -> bool {
        &&& self.live.contains(u)
        &&& self.live.contains(v)
        &&& u != v
        &&& !self.link(u, v)
        &&& self.reaches(u, v)
    }

    /// `n` becomes a live node.
    pub open spec fn with_node(self, n: NodeId) -> Skeleton {
        Skeleton { live: self.live.insert(n), dead: self.dead, links: self.links }
    }

    /// The live node `n` becomes deleted.
    pub open spec fn with_deleted(self, n: NodeId) -> Skeleton {
        Skeleton { live: self.live.remove(n), dead: self.dead.insert(n), links: self.links }
    }

    /// The deleted node `n` becomes live again.
    pub open spec fn with_undeleted(self, n: NodeId) -> Skeleton {
        Skeleton { live: self.live.insert(n), dead: self.dead.remove(n), links: self.links }
    }

    /// An edge from `a` to `b`, introduced by `p`, is added.
    pub open spec fn with_link(self, a: NodeId, b: NodeId, p: PatchId) -> Skeleton {
        Skeleton { live: self.live, dead: self.dead, links: self.links.insert((a, b, p)) }
    }

    /// The edge from `a` to `b` introduced by `p` is removed.
    pub open spec fn without_link(self, a: NodeId, b: NodeId, p: PatchId) -> Skeleton {
        Skeleton { live: self.live, dead: self.dead, links: self.links.remove((a, b, p)) }
    }

    /// The live node `n` and every edge touching it are removed.
    pub open spec fn without_node(self, n: NodeId) -> Skeleton {
        Skeleton {
            live: self.live.remove(n),
            dead: self.dead,
            links: self.links.filter(|t: (NodeId, NodeId, PatchId)| t.0 != n && t.1 != n),
        }
    }

    /// All the pseudo-edges that this skeleton calls for.
    pub open spec fn pseudo_targets(self) -> Set<(NodeId, NodeId)> {
        Set::new(|t: (NodeId, NodeId)| self.pseudo_target(t.0, t.1))
    }
}

/// The pairs of `rel` that do not involve `n`.
pub open spec fn avoiding(rel: Set<(NodeId, NodeId)>, n: NodeId) -> Set<(NodeId, NodeId)> {
    rel.filter(|t: (NodeId, NodeId)| t.0 != n && t.1 != n)
}

/// The mathematical value of a graggle: its live nodes, its deleted nodes, its edges and its
/// back-edges (each given by the node it starts from).
pub struct GraggleView {
    pub live: Set<NodeId>,
    pub dead: Set<NodeId>,
    pub edges: Set<Arrow>,
    pub back_edges: Set<Arrow>,
}

/// The data of a graggle: its nodes, edges and back-edges, including pseudo-edges.
#[derive(Clone, Debug)]
pub struct GraggleData {
    nodes: Vec<NodeId>,
    deleted_nodes: Vec<NodeId>,
    edges: Vec<Arrow>,
    back_edges: Vec<Arrow>,
    // Set when the pseudo-edges may be out of date.
    dirty: bool,
}

impl View for GraggleData {
    type V = GraggleView;

    closed spec fn view(&self) -> GraggleView {
        GraggleView {
            live: self.nodes@.to_set(),
            dead: self.deleted_nodes@.to_set(),
            edges: self.edges@.to_set(),
            back_edges: self.back_edges@.to_set(),
        }
    }
}

/// The graggle with no nodes and no edges.
pub open spec fn empty_graggle() -> GraggleView {
    GraggleView {
        live: Set::empty(),
        dead: Set::empty(),
        edges: Set::empty(),
        back_edges: Set::empty(),
    }
}

/// Seen from `src`, the edge `e` has a mirror image seen from `e.dest`.
pub open spec fn mirror(dead: Set<NodeId>, src: NodeId, e: Edge) -> Arrow {
    (
        e.dest,
        Edge {
            kind: if e.kind is Pseudo {
                EdgeKind::Pseudo
            } else {
                kind_towards(dead, src)
            },
            dest: src,
            patch: e.patch,
        },
    )
}

/// The mirror images of the arrows of `s`.
pub open spec fn mirrors(dead: Set<NodeId>, s: Set<Arrow>) -> Set<Arrow> {
    Set::new(|b: Arrow| exists|a: Arrow| #[trigger] s.contains(a) && mirror(dead, a.0, a.1) == b)
}

/// The kind of a real edge pointing to `n`.
pub open spec fn kind_towards(dead: Set<NodeId>, n: NodeId) -> EdgeKind {
    if dead.contains(n) {
        EdgeKind::Deleted
    } else {
        EdgeKind::Live
    }
}

impl GraggleView {
    /// Is `n` a node, live or deleted?
    pub open spec fn has(self, n: NodeId) -> bool {
        self.live.contains(n) || self.dead.contains(n)
    }

    /// An edge leaving `src` joins two nodes; a pseudo-edge joins two live nodes and belongs
    /// to no patch; a real edge is marked deleted exactly when it points to a deleted node.
    pub open spec fn edge_ok(self, src: NodeId, e: Edge) -> bool {
        &&& self.has(src)
        &&& self.has(e.dest)
        &&& if e.kind is Pseudo {
            self.live.contains(src) && self.live.contains(e.dest) && e.patch.spec_is_cur()
        } else {
            e.kind == kind_towards(self.dead, e.dest)
        }
    }

    /// The shape every graggle keeps: live and deleted nodes are disjoint, every edge is sound,
    /// and the back-edges are the mirror images of the edges.
    pub open spec fn shape_ok(self) -> bool {
        &&& forall|n: NodeId| !(#[trigger] self.live.contains(n) && self.dead.contains(n))
        &&& forall|a: Arrow| #[trigger] self.edges.contains(a) ==> self.edge_ok(a.0, a.1)
        &&& self.back_edges == mirrors(self.dead, self.edges)
    }

    /// No edge leads from a node to itself.
    pub open spec fn loop_free(self) -> bool {
        forall|a: Arrow| #[trigger] self.edges.contains(a) ==> a.0 != a.1.dest
    }

    /// The part of the graggle that patches determine.
    pub open spec fn skeleton(self) -> Skeleton {
        Skeleton {
            live: self.live,
            dead: self.dead,
            links: Set::new(
                |t: (NodeId, NodeId, PatchId)|
                    exists|e: Edge|
                        #[trigger] self.edges.contains((t.0, e)) && !(e.kind is Pseudo) && e.dest
                            == t.1 && e.patch == t.2,
            ),
        }
    }

    /// The pairs of nodes joined by a pseudo-edge.
    pub open spec fn pseudo_rel(self) -> Set<(NodeId, NodeId)> {
        Set::new(
            |t: (NodeId, NodeId)|
                exists|e: Edge| #[trigger] self.edges.contains((t.0, e)) && e.kind is Pseudo && e.dest == t.1,
        )
    }
}


/// One of the operations that change a graggle's structure: the methods of `GraggleData` with
/// the same names.
pub enum GraggleOp {
    AddNode(NodeId),
    DeleteNode(NodeId),
    UndeleteNode(NodeId),
    UnaddNode(NodeId),
    AddEdge(NodeId, NodeId, PatchId),
    UnaddEdge(NodeId, NodeId, PatchId),
    ResolvePseudoEdges,
}

/// The skeleton and the pseudo-edges of a graggle after `op`, as the method's contract gives
/// them.
pub open spec fn op_step(st: (Skeleton, Set<(NodeId, NodeId)>), op: GraggleOp) -> (Skeleton, Set<(NodeId, NodeId)>) {
    let (s, ps) = st;
    match op {
        GraggleOp::AddNode(n) => (s.with_node(n), ps),
        GraggleOp::DeleteNode(n) => (s.with_deleted(n), avoiding(ps, n)),
        GraggleOp::UndeleteNode(n) => (s.with_undeleted(n), ps),
        GraggleOp::UnaddNode(n) => (s.without_node(n), avoiding(ps, n)),
        GraggleOp::AddEdge(a, b, p) => (s.with_link(a, b, p), ps),
        GraggleOp::UnaddEdge(a, b, p) => (s.without_link(a, b, p), ps),
        GraggleOp::ResolvePseudoEdges => (s, s.pseudo_targets()),
    }
}

/// The method for `op` may be called on a graggle with the skeleton `s`; an edge is only added
/// between two different nodes.
pub open spec fn op_allowed(s: Skeleton, op: GraggleOp) -> bool {
    match op {
        GraggleOp::AddNode(n) => !s.dead.contains(n),
        GraggleOp::DeleteNode(n) => s.live.contains(n),
        GraggleOp::UndeleteNode(n) => s.dead.contains(n),
        GraggleOp::UnaddNode(n) => s.live.contains(n),
        GraggleOp::AddEdge(a, b, p) => s.has(a) && s.has(b) && a != b,
        GraggleOp::UnaddEdge(a, b, p) => s.has(a) && s.has(b),
        GraggleOp::ResolvePseudoEdges => true,
    }
}

/// The skeleton and pseudo-edges after the operations `ops`, starting from an empty graggle.
pub open spec fn run_ops(ops: Seq<GraggleOp>) -> (Skeleton, Set<(NodeId, NodeId)>)
    decreases ops.len(),
{
    if ops.len() == 0 {
        (Skeleton { live: Set::empty(), dead: Set::empty(), links: Set::empty() }, Set::empty())
    } else {
        op_step(run_ops(ops.drop_last()), ops.last())
    }
}

/// Each of `ops` may be done on the graggle that the ones before it left.
pub open spec fn ops_allowed(ops: Seq<GraggleOp>) -> bool {
    forall|i: int| 0 <= i < ops.len() ==> op_allowed(run_ops(ops.take(i)).0, #[trigger] ops[i])
}

/// No real edge and no pseudo-edge leads from a node to itself.
spec fn no_self_links(st: (Skeleton, Set<(NodeId, NodeId)>)) -> bool {
    &&& forall|t: (NodeId, NodeId, PatchId)| #[trigger] st.0.links.contains(t) ==> t.0 != t.1
    &&& forall|t: (NodeId, NodeId)| #[trigger] st.1.contains(t) ==> t.0 != t.1
}

proof fn lemma_run_no_self_links(ops: Seq<GraggleOp>)
    requires
        ops_allowed(ops),
    ensures
        no_self_links(run_ops(ops)),
    decreases ops.len(),
{
    if ops.len() > 0 {
        let init = ops.drop_last();
        assert forall|i: int| 0 <= i < init.len() implies op_allowed(run_ops(init.take(i)).0, #[trigger] init[i]) by {
            assert(init.take(i) =~= ops.take(i));
            assert(init[i] == ops[i]);
        }
        lemma_run_no_self_links(init);
        let last = ops.len() - 1;
        assert(ops.take(last) =~= init);
        assert(op_allowed(run_ops(init).0, ops[last]));
    }
}

/// A graggle that a sequence of these operations built from an empty one, each done where its
/// method allows it and each added edge joining two different nodes, has no edge from a node
/// to itself: together with the well-formedness that every method keeps, its consistency check
/// passes.
pub proof fn lemma_ops_keep_consistent(ops: Seq<GraggleOp>, g: GraggleView)
    requires
        ops_allowed(ops),
        g.skeleton() == run_ops(ops).0,
        g.pseudo_rel() == run_ops(ops).1,
    ensures
        g.loop_free(),
{
    lemma_run_no_self_links(ops);
    assert forall|a: Arrow| #[trigger] g.edges.contains(a) implies a.0 != a.1.dest by {
        if a.1.kind is Pseudo {
            assert(g.pseudo_rel().contains((a.0, a.1.dest)));
        } else {
            assert(g.skeleton().links.contains((a.0, a.1.dest, a.1.patch)));
        }
    }
}

/// Does the arrow `a` start or end at `n`?
spec fn touches(a: Arrow, n: NodeId) -> bool {
    a.0 == n || a.1.dest == n
}

/// Is `a` removed when the edges touching `n` are cleaned up? Pseudo-edges touching `n` are
/// always removed; with `all`, every edge touching `n` is.
spec fn dropped(a: Arrow, n: NodeId, all: bool) -> bool {
    touches(a, n) && (all || a.1.kind is Pseudo)
}

/// The arrows of `s` that survive the clean-up of the edges touching `n`, relabelled with
/// the kind `k` where they are real edges pointing to `n`.
spec fn rewritten(s: Set<Arrow>, n: NodeId, k: EdgeKind, all: bool) -> Set<Arrow> {
    Set::new(|y: Arrow| exists|a: Arrow| #[trigger] s.contains(a) && !dropped(a, n, all) && relabel(a, n, k) == y)
}

/// The arrow `a`, with the kind `k` if it is a real edge pointing to `n`.
spec fn relabel(a: Arrow, n: NodeId, k: EdgeKind) -> Arrow {
    if a.1.dest == n && !(a.1.kind is Pseudo) {
        (a.0, Edge { kind: k, dest: a.1.dest, patch: a.1.patch })
    } else {
        a
    }
}

fn node_in(v: &Vec<NodeId>, n: &NodeId) -> (r: bool)
    ensures
        r == v@.contains(*n),
{
    let mut i: usize = 0;
    while i < v.len()
        invariant
            i <= v.len(),
            forall|j: int| 0 <= j < i ==> v@[j] != *n,
        decreases v.len() - i,
    {
        if v[i] == *n {
            return true;
        }
        i = i + 1;
    }
    false
}

fn arrow_eq(a: &Arrow, b: &Arrow) -> (r: bool)
    ensures
        r == (*a == *b),
{
    a.0 == b.0 && a.1 == b.1
}

fn arrow_in(v: &Vec<Arrow>, x: &Arrow) -> (r: bool)
    ensures
        r == v@.contains(*x),
{
    let mut i: usize = 0;
    while i < v.len()
        invariant
            i <= v.len(),
            forall|j: int| 0 <= j < i ==> v@[j] != *x,
        decreases v.len() - i,
    {
        if arrow_eq(&v[i], x) {
            return true;
        }
        i = i + 1;
    }
    false
}

fn without_node(v: &Vec<NodeId>, n: &NodeId) -> (r: Vec<NodeId>)
    ensures
        r@.to_set() == v@.to_set().remove(*n),
{
    let mut r: Vec<NodeId> = Vec::new();
    let mut i: usize = 0;
    while i < v.len()
        invariant
            i <= v.len(),
            forall|x: NodeId| r@.contains(x) <==> (x != *n && exists|j: int| 0 <= j < i && v@[j] == x),
        decreases v.len() - i,
    {
        let x = v[i];
        let ghost r0 = r@;
        if !(x == *n) {
            r.push(x);
            proof {
                assert forall|y: NodeId| r@.contains(y) <==> (r0.contains(y) || y == x) by {
                    if r@.contains(y) {
                        let k = choose|k: int| 0 <= k < r@.len() && r@[k] == y;
                        if k < r0.len() {
                            assert(r0[k] == y);
                        }
                    }
                    if r0.contains(y) {
                        let k = choose|k: int| 0 <= k < r0.len() && r0[k] == y;
                        assert(r@[k] == y);
                    }
                    if y == x {
                        assert(r@[r0.len() as int] == y);
                    }
                }
            }
        }
        proof {
            assert forall|y: NodeId| r@.contains(y) <==> (y != *n && exists|j: int| 0 <= j < i + 1 && v@[j] == y) by {
                if y != *n && (exists|j: int| 0 <= j < i + 1 && v@[j] == y) {
                    let j = choose|j: int| 0 <= j < i + 1 && v@[j] == y;
                    if j < i {
                        assert(r0.contains(y));
                    }
                }
                if r0.contains(y) {
                    assert(exists|j: int| 0 <= j < i && v@[j] == y);
                }
            }
        }
        i = i + 1;
    }
    proof {
        assert(r@.to_set() =~= v@.to_set().remove(*n)) by {
            assert forall|y: NodeId| v@.contains(y) implies exists|j: int| 0 <= j < v.len() && v@[j] == y by {}
        }
    }
    r
}


proof fn lemma_push_contains<T>(s: Seq<T>, x: T)
    ensures
        forall|y: T| #[trigger] s.push(x).contains(y) <==> (s.contains(y) || y == x),
{
    assert forall|y: T| #[trigger] s.push(x).contains(y) <==> (s.contains(y) || y == x) by {
        if s.push(x).contains(y) {
            let k = choose|k: int| 0 <= k < s.push(x).len() && s.push(x)[k] == y;
            if k < s.len() {
                assert(s[k] == y);
            }
        }
        if s.contains(y) {
            let k = choose|k: int| 0 <= k < s.len() && s[k] == y;
            assert(s.push(x)[k] == y);
        }
        if y == x {
            assert(s.push(x)[s.len() as int] == y);
        }
    }
}

fn insert_arrow(v: &mut Vec<Arrow>, x: Arrow)
    ensures
        final(v)@.to_set() == old(v)@.to_set().insert(x),
{
    if !arrow_in(v, &x) {
        v.push(x);
        proof {
            lemma_push_contains(old(v)@, x);
        }
    }
    proof {
        assert(v@.to_set() =~= old(v)@.to_set().insert(x));
    }
}

fn remove_arrow(v: &Vec<Arrow>, x: &Arrow) -> (r: Vec<Arrow>)
    ensures
        r@.to_set() == v@.to_set().remove(*x),
{
    let mut r: Vec<Arrow> = Vec::new();
    let mut i: usize = 0;
    while i < v.len()
        invariant
            i <= v.len(),
            forall|y: Arrow| r@.contains(y) <==> (y != *x && exists|j: int| 0 <= j < i && v@[j] == y),
        decreases v.len() - i,
    {
        let y = v[i];
        let ghost r0 = r@;
        if !arrow_eq(&y, x) {
            r.push(y);
            proof {
                lemma_push_contains(r0, y);
            }
        }
        proof {
            assert forall|z: Arrow| r@.contains(z) <==> (z != *x && exists|j: int| 0 <= j < i + 1 && v@[j] == z) by {
                if z != *x && (exists|j: int| 0 <= j < i + 1 && v@[j] == z) {
                    let j = choose|j: int| 0 <= j < i + 1 && v@[j] == z;
                    if j < i {
                        assert(r0.contains(z));
                    }
                }
                if r0.contains(z) {
                    assert(exists|j: int| 0 <= j < i && v@[j] == z);
                }
            }
        }
        i = i + 1;
    }
    proof {
        assert(r@.to_set() =~= v@.to_set().remove(*x)) by {
            assert forall|y: Arrow| v@.contains(y) implies exists|j: int| 0 <= j < v.len() && v@[j] == y by {}
        }
    }
    r
}

/// The arrows of `v` that survive the clean-up of the edges touching `n`, relabelled with the
/// kind `k` where they are real edges pointing to `n`.
fn rewrite(v: &Vec<Arrow>, n: &NodeId, k: EdgeKind, all: bool) -> (r: Vec<Arrow>)
    ensures
        r@.to_set() == rewritten(v@.to_set(), *n, k, all),
{
    let mut r: Vec<Arrow> = Vec::new();
    let mut i: usize = 0;
    while i < v.len()
        invariant
            i <= v.len(),
            forall|y: Arrow| r@.contains(y) <==> exists|j: int|
                0 <= j < i && !dropped(v@[j], *n, all) && relabel(v@[j], *n, k) == y,
        decreases v.len() - i,
    {
        let a = v[i];
        let ghost r0 = r@;
        let touching = a.0 == *n || a.1.dest == *n;
        let pseudo = match a.1.kind {
            EdgeKind::Pseudo => true,
            _ => false,
        };
        if !(touching && (all || pseudo)) {
            let b = if a.1.dest == *n && !pseudo {
                (a.0, Edge { kind: k, dest: a.1.dest, patch: a.1.patch })
            } else {
                a
            };
            assert(b == relabel(a, *n, k));
            r.push(b);
            proof {
                lemma_push_contains(r0, b);
            }
        }
        proof {
            assert forall|z: Arrow| r@.contains(z) <==> exists|j: int|
                0 <= j < i + 1 && !dropped(v@[j], *n, all) && relabel(v@[j], *n, k) == z by {
                if exists|j: int| 0 <= j < i + 1 && !dropped(v@[j], *n, all) && relabel(v@[j], *n, k) == z {
                    let j = choose|j: int| 0 <= j < i + 1 && !dropped(v@[j], *n, all) && relabel(v@[j], *n, k) == z;
                    if j < i {
                        assert(r0.contains(z));
                    }
                }
                if r0.contains(z) {
                    let j = choose|j: int| 0 <= j < i && !dropped(v@[j], *n, all) && relabel(v@[j], *n, k) == z;
                    assert(0 <= j < i + 1);
                }
            }
        }
        i = i + 1;
    }
    proof {
        assert forall|y: Arrow| #[trigger] r@.to_set().contains(y) <==> exists|a: Arrow|
            #[trigger] v@.to_set().contains(a) && !dropped(a, *n, all) && relabel(a, *n, k) == y by {
            if r@.contains(y) {
                let j = choose|j: int| 0 <= j < v.len() && !dropped(v@[j], *n, all) && relabel(v@[j], *n, k) == y;
                assert(v@.to_set().contains(v@[j]));
            }
            if exists|a: Arrow| #[trigger] v@.to_set().contains(a) && !dropped(a, *n, all) && relabel(a, *n, k) == y {
                let a = choose|a: Arrow| #[trigger] v@.to_set().contains(a) && !dropped(a, *n, all) && relabel(a, *n, k) == y;
                let j = choose|j: int| 0 <= j < v.len() && v@[j] == a;
                assert(r@.contains(y));
            }
        }
        assert(r@.to_set() =~= rewritten(v@.to_set(), *n, k, all));
    }
    r
}


proof fn lemma_mirror_twice(dead: Set<NodeId>, a: Arrow)
    requires
        !(a.1.kind is Pseudo) ==> a.1.kind == kind_towards(dead, a.1.dest),
    ensures
        ({
            let m = mirror(dead, a.0, a.1);
            mirror(dead, m.0, m.1) == a
        }),
{
}

proof fn lemma_edge_transfers(g1: GraggleView, g2: GraggleView, a: Arrow)
    requires
        g1.shape_ok(),
        g2.shape_ok(),
        g1.skeleton() == g2.skeleton(),
        g1.pseudo_rel() == g2.pseudo_rel(),
        g1.edges.contains(a),
    ensures
        g2.edges.contains(a),
{
    let (s, e) = a;
    if e.kind is Pseudo {
        assert(g1.pseudo_rel().contains((s, e.dest)));
        assert(g2.pseudo_rel().contains((s, e.dest)));
        let e2 = choose|e2: Edge| #[trigger] g2.edges.contains((s, e2)) && e2.kind is Pseudo && e2.dest == e.dest;
        assert(g2.edge_ok(s, e2));
        assert(g1.edge_ok(s, e));
        lemma_cur_unique(e.patch, e2.patch);
        assert(e2 == e);
    } else {
        assert(g1.skeleton().links.contains((s, e.dest, e.patch)));
        assert(g2.skeleton().links.contains((s, e.dest, e.patch)));
        let e2 = choose|e2: Edge|
            #[trigger] g2.edges.contains((s, e2)) && !(e2.kind is Pseudo) && e2.dest == e.dest && e2.patch == e.patch;
        assert(g2.edge_ok(s, e2));
        assert(g1.edge_ok(s, e));
        assert(g1.dead == g2.dead);
        assert(e2 == e);
    }
}

/// A graggle is determined by its skeleton (nodes and real edges) and its pseudo-edges.
pub proof fn lemma_view_determined(g1: GraggleView, g2: GraggleView)
    requires
        g1.shape_ok(),
        g2.shape_ok(),
        g1.skeleton() == g2.skeleton(),
        g1.pseudo_rel() == g2.pseudo_rel(),
    ensures
        g1 == g2,
{
    assert(g1.live == g2.live && g1.dead == g2.dead) by {
        assert(g1.skeleton().live == g2.skeleton().live);
    }
    assert forall|a: Arrow| g1.edges.contains(a) implies g2.edges.contains(a) by {
        lemma_edge_transfers(g1, g2, a);
    }
    assert forall|a: Arrow| g2.edges.contains(a) implies g1.edges.contains(a) by {
        lemma_edge_transfers(g2, g1, a);
    }
    assert(g1.edges =~= g2.edges);
}



/// A graggle is like a file, except that its lines are not necessarily in a linear order:
/// they form a directed graph. This is a read-only view into a graggle.
///
/// The lines of a graggle are live or deleted (deleted lines are not removed, only marked).
/// Some of the methods here ignore the deleted lines, others expose them.
#[derive(Clone, Copy, Debug)]
pub struct Graggle<'a> {
    data: &'a GraggleData,
}

impl<'a> View for Graggle<'a> {
    type V = GraggleView;

    closed spec fn view(&self) -> GraggleView {
        self.data@
    }
}

impl<'a> Graggle<'a> {
    /// The live nodes of this graggle, in the order in which they are stored.
    pub closed spec fn spec_node_list(&self) -> Seq<NodeId> {
        self.data.nodes@
    }

    /// All the live nodes of this graggle.
    pub fn nodes(&self) -> (r: Vec<NodeId>)
        ensures
            r@.to_set() == self@.live,
            r@ == self.spec_node_list(),
    {
        let mut r: Vec<NodeId> = Vec::new();
        let mut i: usize = 0;
        while i < self.data.nodes.len()
            invariant
                i <= self.data.nodes.len(),
                r@ == self.data.nodes@.take(i as int),
            decreases self.data.nodes.len() - i,
        {
            r.push(self.data.nodes[i]);
            proof {
                assert(r@ =~= self.data.nodes@.take(i + 1));
            }
            i = i + 1;
        }
        proof {
            assert(r@ =~= self.data.nodes@);
        }
        r
    }

    /// All the deleted nodes of this graggle.
    pub(crate) fn deleted_nodes(&self) -> (r: Vec<NodeId>)
        ensures
            r@.to_set() == self@.dead,
    {
        let mut r: Vec<NodeId> = Vec::new();
        let mut i: usize = 0;
        while i < self.data.deleted_nodes.len()
            invariant
                i <= self.data.deleted_nodes.len(),
                r@ == self.data.deleted_nodes@.take(i as int),
            decreases self.data.deleted_nodes.len() - i,
        {
            r.push(self.data.deleted_nodes[i]);
            proof {
                assert(r@ =~= self.data.deleted_nodes@.take(i + 1));
            }
            i = i + 1;
        }
        proof {
            assert(r@ =~= self.data.deleted_nodes@);
        }
        r
    }

    /// The edges leaving `node` that point to live nodes (real or pseudo), in increasing
    /// order: live edges before pseudo-edges.
    pub fn out_edges(&self, node: &NodeId) -> (r: Vec<Edge>)
        ensures
            edges_ascending(r@),
            forall|e: Edge| #[trigger] r@.contains(e) <==> (self@.edges.contains((*node, e)) && !(e.kind is Deleted)),
    {
        sort_edges(edges_from(&self.data.edges, node, false))
    }

    /// The live out-neighbors of `node`: those that an edge (real or pseudo) leads to.
    pub fn out_neighbors(&self, node: &NodeId) -> (r: Vec<NodeId>)
        ensures
            forall|n: NodeId| #[trigger] r@.contains(n) <==> exists|e: Edge|
                #[trigger] self@.edges.contains((*node, e)) && !(e.kind is Deleted) && e.dest == n,
    {
        let es = self.out_edges(node);
        let r = dests(&es);
        proof {
            assert forall|n: NodeId| #[trigger] r@.contains(n) <==> exists|e: Edge|
                #[trigger] self@.edges.contains((*node, e)) && !(e.kind is Deleted) && e.dest == n by {
                if r@.contains(n) {
                    let e = choose|e: Edge| es@.contains(e) && e.dest == n;
                    assert(self@.edges.contains((*node, e)));
                }
                if exists|e: Edge| #[trigger] self@.edges.contains((*node, e)) && !(e.kind is Deleted) && e.dest == n {
                    let e = choose|e: Edge| #[trigger] self@.edges.contains((*node, e)) && !(e.kind is Deleted) && e.dest == n;
                    assert(es@.contains(e));
                }
            }
        }
        r
    }

    /// The live in-neighbors of `node`: those with an edge (real or pseudo) leading to it.
    pub fn in_neighbors(&self, node: &NodeId) -> (r: Vec<NodeId>)
        ensures
            forall|n: NodeId| #[trigger] r@.contains(n) <==> exists|e: Edge|
                #[trigger] self@.back_edges.contains((*node, e)) && !(e.kind is Deleted) && e.dest == n,
    {
        let es = self.in_edges(node);
        let r = dests(&es);
        proof {
            assert forall|n: NodeId| #[trigger] r@.contains(n) <==> exists|e: Edge|
                #[trigger] self@.back_edges.contains((*node, e)) && !(e.kind is Deleted) && e.dest == n by {
                if r@.contains(n) {
                    let e = choose|e: Edge| es@.contains(e) && e.dest == n;
                    assert(self@.back_edges.contains((*node, e)));
                }
                if exists|e: Edge| #[trigger] self@.back_edges.contains((*node, e)) && !(e.kind is Deleted) && e.dest == n {
                    let e = choose|e: Edge| #[trigger] self@.back_edges.contains((*node, e)) && !(e.kind is Deleted) && e.dest == n;
                    assert(es@.contains(e));
                }
            }
        }
        r
    }

    /// All the edges leaving `node`, including those that point to deleted nodes, in
    /// increasing order: live edges, then pseudo-edges, then edges to deleted nodes.
    pub fn all_out_edges(&self, node: &NodeId) -> (r: Vec<Edge>)
        ensures
            edges_ascending(r@),
            forall|e: Edge| #[trigger] r@.contains(e) <==> self@.edges.contains((*node, e)),
    {
        self.data.all_out_edges(node)
    }

    /// The back-edges leaving `node` that point to live nodes, in increasing order.
    pub fn in_edges(&self, node: &NodeId) -> (r: Vec<Edge>)
        ensures
            edges_ascending(r@),
            forall|e: Edge| #[trigger] r@.contains(e) <==> (self@.back_edges.contains((*node, e)) && !(e.kind is Deleted)),
    {
        sort_edges(edges_from(&self.data.back_edges, node, false))
    }

    /// All the back-edges leaving `node`, including those that point to deleted nodes, in
    /// increasing order.
    pub fn all_in_edges(&self, node: &NodeId) -> (r: Vec<Edge>)
        ensures
            edges_ascending(r@),
            forall|e: Edge| #[trigger] r@.contains(e) <==> self@.back_edges.contains((*node, e)),
    {
        self.data.all_in_edges(node)
    }

    /// Does `node` belong to this graggle (live or deleted)?
    pub fn has_node(&self, node: &NodeId) -> (r: bool)
        ensures
            r == self@.has(*node),
    {
        node_in(&self.data.nodes, node) || node_in(&self.data.deleted_nodes, node)
    }

    /// Is `node` live? It must belong to the graggle.
    pub fn is_live(&self, node: &NodeId) -> (r: bool)
        requires
            self@.has(*node),
        ensures
            r == self@.live.contains(*node),
    {
        node_in(&self.data.nodes, node)
    }
}

/// One arrow of a sound graggle, rewritten around the node `n` whose status changes: it stays
/// sound, and its mirror image is rewritten into the mirror image of the rewritten arrow.
proof fn lemma_rewrite_arrow(g: GraggleView, h: GraggleView, n: NodeId, k: EdgeKind, all: bool, x: Arrow)
    requires
        g.edge_ok(x.0, x.1),
        !dropped(x, n, all),
        forall|m: NodeId| m != n ==> (h.live.contains(m) == g.live.contains(m) && h.dead.contains(m) == g.dead.contains(m)),
        !all ==> h.has(n) && k == kind_towards(h.dead, n),
        all ==> !h.has(n),
    ensures
        ({
            let y = relabel(x, n, k);
            let m = mirror(g.dead, x.0, x.1);
            &&& h.edge_ok(y.0, y.1)
            &&& !dropped(m, n, all)
            &&& relabel(m, n, k) == mirror(h.dead, y.0, y.1)
        }),
{
}

/// Rewriting the edges and back-edges of a sound graggle around the node `n`, whose status
/// changes (and no other node's does), gives a sound graggle with the same real edges (but
/// those touching `n`, when all of them go) and the pseudo-edges that avoid `n`.
proof fn lemma_rewrite_shape(g: GraggleView, h: GraggleView, n: NodeId, k: EdgeKind, all: bool)
    requires
        g.shape_ok(),
        h.edges == rewritten(g.edges, n, k, all),
        h.back_edges == rewritten(g.back_edges, n, k, all),
        forall|m: NodeId| m != n ==> (h.live.contains(m) == g.live.contains(m) && h.dead.contains(m) == g.dead.contains(m)),
        forall|m: NodeId| !(#[trigger] h.live.contains(m) && h.dead.contains(m)),
        !all ==> h.has(n) && k == kind_towards(h.dead, n),
        all ==> !h.has(n),
    ensures
        h.shape_ok(),
        h.skeleton().links == (if all {
            g.skeleton().links.filter(|t: (NodeId, NodeId, PatchId)| t.0 != n && t.1 != n)
        } else {
            g.skeleton().links
        }),
        h.pseudo_rel() == avoiding(g.pseudo_rel(), n),
{
    assert forall|a: Arrow| #[trigger] h.edges.contains(a) implies h.edge_ok(a.0, a.1) by {
        let x = choose|x: Arrow| #[trigger] g.edges.contains(x) && !dropped(x, n, all) && relabel(x, n, k) == a;
        lemma_rewrite_arrow(g, h, n, k, all, x);
    }
    assert forall|b: Arrow| #[trigger] h.back_edges.contains(b) implies mirrors(h.dead, h.edges).contains(b) by {
        let m = choose|m: Arrow| #[trigger] g.back_edges.contains(m) && !dropped(m, n, all) && relabel(m, n, k) == b;
        assert(mirrors(g.dead, g.edges).contains(m));
        let x = choose|x: Arrow| #[trigger] g.edges.contains(x) && mirror(g.dead, x.0, x.1) == m;
        lemma_rewrite_arrow(g, h, n, k, all, x);
        let y = relabel(x, n, k);
        assert(h.edges.contains(y));
    }
    assert forall|b: Arrow| #[trigger] mirrors(h.dead, h.edges).contains(b) implies h.back_edges.contains(b) by {
        let y = choose|y: Arrow| #[trigger] h.edges.contains(y) && mirror(h.dead, y.0, y.1) == b;
        let x = choose|x: Arrow| #[trigger] g.edges.contains(x) && !dropped(x, n, all) && relabel(x, n, k) == y;
        lemma_rewrite_arrow(g, h, n, k, all, x);
        let m = mirror(g.dead, x.0, x.1);
        assert(mirrors(g.dead, g.edges).contains(m));
        assert(g.back_edges.contains(m));
    }
    assert(h.back_edges =~= mirrors(h.dead, h.edges));
    let gl = g.skeleton().links;
    let want = if all {
        gl.filter(|t: (NodeId, NodeId, PatchId)| t.0 != n && t.1 != n)
    } else {
        gl
    };
    assert forall|t: (NodeId, NodeId, PatchId)| #[trigger] h.skeleton().links.contains(t) implies want.contains(t) by {
        let e = choose|e: Edge| #[trigger] h.edges.contains((t.0, e)) && !(e.kind is Pseudo) && e.dest == t.1 && e.patch == t.2;
        let x = choose|x: Arrow| #[trigger] g.edges.contains(x) && !dropped(x, n, all) && relabel(x, n, k) == (t.0, e);
        assert(g.edges.contains((t.0, x.1)));
    }
    assert forall|t: (NodeId, NodeId, PatchId)| #[trigger] want.contains(t) implies h.skeleton().links.contains(t) by {
        let e = choose|e: Edge| #[trigger] g.edges.contains((t.0, e)) && !(e.kind is Pseudo) && e.dest == t.1 && e.patch == t.2;
        let y = relabel((t.0, e), n, k);
        assert(h.edges.contains(y));
        assert(h.edges.contains((t.0, y.1)));
    }
    assert(h.skeleton().links =~= want);
    assert forall|t: (NodeId, NodeId)| #[trigger] h.pseudo_rel().contains(t) implies avoiding(g.pseudo_rel(), n).contains(t) by {
        let e = choose|e: Edge| #[trigger] h.edges.contains((t.0, e)) && e.kind is Pseudo && e.dest == t.1;
        let x = choose|x: Arrow| #[trigger] g.edges.contains(x) && !dropped(x, n, all) && relabel(x, n, k) == (t.0, e);
        assert(g.edges.contains((t.0, x.1)));
    }
    assert forall|t: (NodeId, NodeId)| #[trigger] avoiding(g.pseudo_rel(), n).contains(t) implies h.pseudo_rel().contains(t) by {
        let e = choose|e: Edge| #[trigger] g.edges.contains((t.0, e)) && e.kind is Pseudo && e.dest == t.1;
        assert(h.edges.contains((t.0, e)));
    }
    assert(h.pseudo_rel() =~= avoiding(g.pseudo_rel(), n));
}


fn is_pseudo(a: &Arrow) -> (r: bool)
    ensures
        r == (a.1.kind is Pseudo),
{
    match a.1.kind {
        EdgeKind::Pseudo => true,
        _ => false,
    }
}

/// The real (not pseudo) arrows of `v`.
fn without_pseudo(v: &Vec<Arrow>) -> (r: Vec<Arrow>)
    ensures
        r@.to_set() == v@.to_set().filter(|a: Arrow| !(a.1.kind is Pseudo)),
{
    let mut r: Vec<Arrow> = Vec::new();
    let mut i: usize = 0;
    while i < v.len()
        invariant
            i <= v.len(),
            forall|y: Arrow| r@.contains(y) <==> (!(y.1.kind is Pseudo) && exists|j: int| 0 <= j < i && v@[j] == y),
        decreases v.len() - i,
    {
        let y = v[i];
        let ghost r0 = r@;
        if !is_pseudo(&y) {
            r.push(y);
            proof {
                lemma_push_contains(r0, y);
            }
        }
        proof {
            assert forall|z: Arrow| r@.contains(z) <==> (!(z.1.kind is Pseudo) && exists|j: int| 0 <= j < i + 1 && v@[j] == z) by {
                if !(z.1.kind is Pseudo) && (exists|j: int| 0 <= j < i + 1 && v@[j] == z) {
                    let j = choose|j: int| 0 <= j < i + 1 && v@[j] == z;
                    if j < i {
                        assert(r0.contains(z));
                    }
                }
                if r0.contains(z) {
                    assert(exists|j: int| 0 <= j < i && v@[j] == z);
                }
            }
        }
        i = i + 1;
    }
    proof {
        assert(r@.to_set() =~= v@.to_set().filter(|a: Arrow| !(a.1.kind is Pseudo))) by {
            assert forall|y: Arrow| v@.contains(y) implies exists|j: int| 0 <= j < v.len() && v@[j] == y by {}
        }
    }
    r
}

/// A sequence without repetitions, all of whose elements occur in `a`, is no longer than `a`.
proof fn lemma_unique_within<T>(s: Seq<T>, a: Seq<T>)
    requires
        s.no_duplicates(),
        forall|x: T| s.contains(x) ==> a.contains(x),
    ensures
        s.len() <= a.len(),
{
    s.unique_seq_to_set();
    a.lemma_cardinality_of_set();
    assert(s.to_set().subset_of(a.to_set()));
    vstd::set_lib::lemma_len_subset(s.to_set(), a.to_set());
}

/// Dropping the pseudo-edges of a sound graggle leaves a sound graggle with the same skeleton
/// and no pseudo-edge.
proof fn lemma_drop_pseudo(g: GraggleView, h: GraggleView)
    requires
        g.shape_ok(),
        h.live == g.live,
        h.dead == g.dead,
        h.edges == g.edges.filter(|a: Arrow| !(a.1.kind is Pseudo)),
        h.back_edges == g.back_edges.filter(|a: Arrow| !(a.1.kind is Pseudo)),
    ensures
        h.shape_ok(),
        h.skeleton() == g.skeleton(),
        h.pseudo_rel() == Set::<(NodeId, NodeId)>::empty(),
{
    assert forall|a: Arrow| #[trigger] h.edges.contains(a) implies h.edge_ok(a.0, a.1) by {
        assert(g.edges.contains(a));
    }
    assert forall|b: Arrow| #[trigger] h.back_edges.contains(b) implies mirrors(h.dead, h.edges).contains(b) by {
        assert(mirrors(g.dead, g.edges).contains(b));
        let a = choose|a: Arrow| #[trigger] g.edges.contains(a) && mirror(g.dead, a.0, a.1) == b;
        assert(h.edges.contains(a));
    }
    assert forall|b: Arrow| #[trigger] mirrors(h.dead, h.edges).contains(b) implies h.back_edges.contains(b) by {
        let a = choose|a: Arrow| #[trigger] h.edges.contains(a) && mirror(h.dead, a.0, a.1) == b;
        assert(mirrors(g.dead, g.edges).contains(b));
    }
    assert(h.back_edges =~= mirrors(h.dead, h.edges));
    assert(h.skeleton().links =~= g.skeleton().links) by {
        assert forall|t: (NodeId, NodeId, PatchId)| #[trigger] g.skeleton().links.contains(t) implies h.skeleton().links.contains(t) by {
            let e = choose|e: Edge| #[trigger] g.edges.contains((t.0, e)) && !(e.kind is Pseudo) && e.dest == t.1 && e.patch == t.2;
            assert(h.edges.contains((t.0, e)));
        }
    }
    assert(h.pseudo_rel() =~= Set::<(NodeId, NodeId)>::empty());
}

/// Adding a pseudo-edge (and its mirror image) between two live nodes of a sound graggle
/// keeps it sound and keeps its skeleton.
proof fn lemma_add_pseudo(g: GraggleView, h: GraggleView, u: NodeId, e: Edge, b: Edge)
    requires
        g.shape_ok(),
        g.live.contains(u),
        g.live.contains(e.dest),
        e.kind is Pseudo,
        e.patch.spec_is_cur(),
        b.kind is Pseudo,
        b.patch.spec_is_cur(),
        b.dest == u,
        h.live == g.live,
        h.dead == g.dead,
        h.edges == g.edges.insert((u, e)),
        h.back_edges == g.back_edges.insert((e.dest, b)),
    ensures
        h.shape_ok(),
        h.skeleton() == g.skeleton(),
        h.pseudo_rel() == g.pseudo_rel().insert((u, e.dest)),
{
    lemma_cur_unique(e.patch, b.patch);
    assert((e.dest, b) == mirror(g.dead, u, e));
    assert forall|a: Arrow| #[trigger] h.edges.contains(a) implies h.edge_ok(a.0, a.1) by {
        if a != (u, e) {
            assert(g.edges.contains(a));
        }
    }
    assert forall|c: Arrow| #[trigger] h.back_edges.contains(c) implies mirrors(h.dead, h.edges).contains(c) by {
        if c != (e.dest, b) {
            assert(mirrors(g.dead, g.edges).contains(c));
            let a = choose|a: Arrow| #[trigger] g.edges.contains(a) && mirror(g.dead, a.0, a.1) == c;
            assert(h.edges.contains(a));
        } else {
            assert(h.edges.contains((u, e)));
        }
    }
    assert forall|c: Arrow| #[trigger] mirrors(h.dead, h.edges).contains(c) implies h.back_edges.contains(c) by {
        let a = choose|a: Arrow| #[trigger] h.edges.contains(a) && mirror(h.dead, a.0, a.1) == c;
        if a != (u, e) {
            assert(mirrors(g.dead, g.edges).contains(c));
        }
    }
    assert(h.back_edges =~= mirrors(h.dead, h.edges));
    assert(h.skeleton().links =~= g.skeleton().links) by {
        assert forall|t: (NodeId, NodeId, PatchId)| #[trigger] g.skeleton().links.contains(t) implies h.skeleton().links.contains(t) by {
            let f = choose|f: Edge| #[trigger] g.edges.contains((t.0, f)) && !(f.kind is Pseudo) && f.dest == t.1 && f.patch == t.2;
            assert(h.edges.contains((t.0, f)));
        }
        assert forall|t: (NodeId, NodeId, PatchId)| #[trigger] h.skeleton().links.contains(t) implies g.skeleton().links.contains(t) by {
            let f = choose|f: Edge| #[trigger] h.edges.contains((t.0, f)) && !(f.kind is Pseudo) && f.dest == t.1 && f.patch == t.2;
            assert(g.edges.contains((t.0, f)));
        }
    }
    assert(h.pseudo_rel() =~= g.pseudo_rel().insert((u, e.dest))) by {
        assert(h.edges.contains((u, e)));
        assert forall|t: (NodeId, NodeId)| #[trigger] g.pseudo_rel().contains(t) implies h.pseudo_rel().contains(t) by {
            let f = choose|f: Edge| #[trigger] g.edges.contains((t.0, f)) && f.kind is Pseudo && f.dest == t.1;
            assert(h.edges.contains((t.0, f)));
        }
        assert forall|t: (NodeId, NodeId)| #[trigger] h.pseudo_rel().contains(t) && t != (u, e.dest) implies g.pseudo_rel().contains(t) by {
            let f = choose|f: Edge| #[trigger] h.edges.contains((t.0, f)) && f.kind is Pseudo && f.dest == t.1;
            assert(g.edges.contains((t.0, f)));
        }
    }
}

/// A set that holds the real successors of `u`, and the real successors of each deleted node
/// in it, holds every node that `u` reaches through deleted nodes.
proof fn lemma_closed_holds_reach(g: GraggleView, u: NodeId, vis: Set<NodeId>, p: Seq<NodeId>, i: int)
    requires
        forall|a: Arrow| #[trigger] g.edges.contains(a) && a.0 == u && !(a.1.kind is Pseudo) ==> vis.contains(a.1.dest),
        forall|a: Arrow| #[trigger] g.edges.contains(a) && vis.contains(a.0) && g.dead.contains(a.0) && !(a.1.kind is Pseudo) ==> vis.contains(a.1.dest),
        g.skeleton().walk(p),
        p[0] == u,
        1 <= i < p.len(),
    ensures
        vis.contains(p[i]),
    decreases i,
{
    let sk = g.skeleton();
    let k = i - 1;
    assert(sk.link(p[k], p[k + 1]));
    let q = choose|q: PatchId| #[trigger] sk.links.contains((p[i - 1], p[i], q));
    let e = choose|e: Edge| #[trigger] g.edges.contains((p[i - 1], e)) && !(e.kind is Pseudo) && e.dest == p[i] && e.patch == q;
    if i > 1 {
        lemma_closed_holds_reach(g, u, vis, p, i - 1);
        assert(g.dead.contains(p[i - 1]));
    }
}

proof fn lemma_concat_contains<T>(a: Seq<T>, b: Seq<T>, x: T)
    requires
        a.contains(x) || b.contains(x),
    ensures
        (a + b).contains(x),
{
    if a.contains(x) {
        let i = choose|i: int| 0 <= i < a.len() && a[i] == x;
        assert((a + b)[i] == x);
    } else {
        let i = choose|i: int| 0 <= i < b.len() && b[i] == x;
        assert((a + b)[a.len() + i] == x);
    }
}

/// A real edge gives a one-step walk.
proof fn lemma_edge_link(g: GraggleView, a: Arrow)
    requires
        g.edges.contains(a),
        !(a.1.kind is Pseudo),
    ensures
        g.skeleton().link(a.0, a.1.dest),
{
    assert(g.skeleton().links.contains((a.0, a.1.dest, a.1.patch)));
}


/// The skeleton of a sound graggle is sound: no node is both live and deleted, and every real
/// edge joins two nodes.
pub proof fn lemma_skeleton_wf(g: GraggleView)
    requires
        g.shape_ok(),
    ensures
        g.skeleton().wf(),
{
    assert forall|t: (NodeId, NodeId, PatchId)| #[trigger] g.skeleton().links.contains(t) implies g.skeleton().has(t.0)
        && g.skeleton().has(t.1) by {
        let e = choose|e: Edge| #[trigger] g.edges.contains((t.0, e)) && !(e.kind is Pseudo) && e.dest == t.1 && e.patch == t.2;
        assert(g.edge_ok(t.0, e));
    }
}

/// Two graggles whose pseudo-edges are up to date are equal as soon as their skeletons are:
/// applying changes and resolving pseudo-edges gives the same graggle in whatever way the
/// same skeleton is reached.
pub proof fn lemma_clean_determined(g1: &GraggleData, g2: &GraggleData)
    requires
        g1.wf(),
        g2.wf(),
        !g1.is_dirty(),
        !g2.is_dirty(),
        g1@.skeleton() == g2@.skeleton(),
    ensures
        g1@ == g2@,
{
    lemma_view_determined(g1@, g2@);
}


/// The edges of `v`, each once, in increasing order.
fn sort_edges(v: Vec<Edge>) -> (r: Vec<Edge>)
    ensures
        edges_ascending(r@),
        forall|e: Edge| #[trigger] r@.contains(e) <==> v@.contains(e),
{
    let mut r: Vec<Edge> = Vec::new();
    let mut i: usize = 0;
    while i < v.len()
        invariant
            i <= v.len(),
            edges_ascending(r@),
            forall|e: Edge| #[trigger] r@.contains(e) <==> v@.take(i as int).contains(e),
        decreases v.len() - i,
    {
        let x = v[i];
        let mut k: usize = 0;
        while k < r.len() && r[k].is_before(&x)
            invariant
                k <= r.len(),
                forall|l: int| 0 <= l < k ==> edge_before(#[trigger] r@[l], x),
            decreases r.len() - k,
        {
            k = k + 1;
        }
        let ghost r0 = r@;
        let ghost t0 = v@.take(i as int);
        let ghost t1 = v@.take(i + 1);
        proof {
            assert(t1 =~= t0.push(x));
        }
        if k < r.len() && r[k] == x {
            proof {
                assert forall|e: Edge| #[trigger] r@.contains(e) <==> t1.contains(e) by {
                    if e == x {
                        assert(r@[k as int] == x);
                    }
                    if t1.contains(e) && e != x {
                        let l = choose|l: int| 0 <= l < i + 1 && t1[l] == e;
                        assert(t0[l] == e);
                    }
                    if t0.contains(e) {
                        let l = choose|l: int| 0 <= l < i && t0[l] == e;
                        assert(t1[l] == e);
                    }
                }
            }
        } else {
            proof {
                assert forall|e: Edge| r0.contains(e) <==> #[trigger] t0.contains(e) by {
                    assert(r@.contains(e) <==> v@.take(i as int).contains(e));
                }
                if k < r0.len() {
                    lemma_edge_before(r0[k as int], x, x);
                    assert(edge_before(x, r0[k as int]));
                    assert forall|j: int| k <= j < r0.len() implies edge_before(x, #[trigger] r0[j]) by {
                        if j > k {
                            lemma_edge_before(x, r0[k as int], r0[j]);
                        }
                    }
                }
            }
            r.insert(k, x);
            proof {
                assert(r@ == r0.insert(k as int, x));
                assert forall|a: int, b: int| 0 <= a < b < r@.len() implies edge_before(#[trigger] r@[a], #[trigger] r@[b]) by {
                    if a < k && b < k {
                        assert(r@[a] == r0[a] && r@[b] == r0[b]);
                    } else if a < k && b == k {
                        assert(r@[a] == r0[a]);
                    } else if a < k {
                        assert(r@[a] == r0[a] && r@[b] == r0[b - 1]);
                        lemma_edge_before(r0[a], x, r0[b - 1]);
                    } else if a == k {
                        assert(r@[b] == r0[b - 1]);
                    } else {
                        assert(r@[a] == r0[a - 1] && r@[b] == r0[b - 1]);
                    }
                }
                assert forall|e: Edge| #[trigger] r@.contains(e) <==> t1.contains(e) by {
                    if r@.contains(e) {
                        let l = choose|l: int| 0 <= l < r@.len() && r@[l] == e;
                        if l < k {
                            assert(r0[l] == e);
                            assert(r0.contains(e));
                        } else if l > k {
                            assert(r0[l - 1] == e);
                            assert(r0.contains(e));
                        }
                        if e != x {
                            let m = choose|m: int| 0 <= m < i && t0[m] == e;
                            assert(t1[m] == e);
                        } else {
                            assert(t1[i as int] == x);
                        }
                    }
                    if t1.contains(e) {
                        let l = choose|l: int| 0 <= l < i + 1 && t1[l] == e;
                        if l < i {
                            assert(t0[l] == e);
                            assert(t0.contains(e));
                            assert(r0.contains(e));
                            let m = choose|m: int| 0 <= m < r0.len() && r0[m] == e;
                            if m < k {
                                assert(r@[m] == e);
                            } else {
                                assert(r@[m + 1] == e);
                            }
                        } else {
                            assert(r@[k as int] == x);
                        }
                    }
                }
            }
        }
        i = i + 1;
    }
    proof {
        assert(v@.take(v.len() as int) =~= v@);
    }
    r
}

/// The edges of `v` that leave `node`; with `all` false, only those not pointing to a deleted
/// node.
fn edges_from(v: &Vec<Arrow>, node: &NodeId, all: bool) -> (r: Vec<Edge>)
    ensures
        forall|e: Edge| #[trigger] r@.contains(e) <==> (v@.to_set().contains((*node, e)) && (all || !(e.kind is Deleted))),
{
    let mut r: Vec<Edge> = Vec::new();
    let mut i: usize = 0;
    while i < v.len()
        invariant
            i <= v.len(),
            forall|e: Edge| #[trigger] r@.contains(e) <==> exists|j: int|
                0 <= j < i && v@[j] == (*node, e) && (all || !(e.kind is Deleted)),
        decreases v.len() - i,
    {
        let a = v[i];
        let ghost r0 = r@;
        if a.0 == *node && (all || a.1.not_deleted()) {
            r.push(a.1);
            proof {
                lemma_push_contains(r0, a.1);
            }
        }
        proof {
            assert forall|e: Edge| #[trigger] r@.contains(e) <==> exists|j: int|
                0 <= j < i + 1 && v@[j] == (*node, e) && (all || !(e.kind is Deleted)) by {
                if exists|j: int| 0 <= j < i + 1 && v@[j] == (*node, e) && (all || !(e.kind is Deleted)) {
                    let j = choose|j: int| 0 <= j < i + 1 && v@[j] == (*node, e) && (all || !(e.kind is Deleted));
                    if j < i {
                        assert(r0.contains(e));
                    }
                }
                if r0.contains(e) {
                    let j = choose|j: int| 0 <= j < i && v@[j] == (*node, e) && (all || !(e.kind is Deleted));
                    assert(0 <= j < i + 1);
                }
            }
        }
        i = i + 1;
    }
    proof {
        assert forall|e: Edge| #[trigger] r@.contains(e) <==> (v@.to_set().contains((*node, e)) && (all || !(e.kind is Deleted))) by {
            if v@.contains((*node, e)) {
                let j = choose|j: int| 0 <= j < v@.len() && v@[j] == (*node, e);
            }
        }
    }
    r
}

fn copy_vec<T: Copy>(v: &Vec<T>) -> (r: Vec<T>)
    ensures
        r@ == v@,
{
    let mut r: Vec<T> = Vec::new();
    let mut i: usize = 0;
    while i < v.len()
        invariant
            i <= v.len(),
            r@ == v@.take(i as int),
        decreases v.len() - i,
    {
        r.push(v[i]);
        i = i + 1;
        assert(r@ =~= v@.take(i as int));
    }
    assert(v@.take(v.len() as int) =~= v@);
    r
}

/// The destinations of `es`.
fn dests(es: &Vec<Edge>) -> (r: Vec<NodeId>)
    ensures
        forall|n: NodeId| #[trigger] r@.contains(n) <==> exists|e: Edge| es@.contains(e) && e.dest == n,
{
    let mut r: Vec<NodeId> = Vec::new();
    let mut i: usize = 0;
    while i < es.len()
        invariant
            i <= es.len(),
            r@.len() == i,
            forall|j: int| 0 <= j < i ==> r@[j] == es@[j].dest,
        decreases es.len() - i,
    {
        r.push(es[i].dest);
        i = i + 1;
    }
    proof {
        assert forall|n: NodeId| #[trigger] r@.contains(n) <==> exists|e: Edge| es@.contains(e) && e.dest == n by {
            if r@.contains(n) {
                let j = choose|j: int| 0 <= j < r@.len() && r@[j] == n;
                assert(es@.contains(es@[j]));
            }
            if exists|e: Edge| es@.contains(e) && e.dest == n {
                let e = choose|e: Edge| es@.contains(e) && e.dest == n;
                let j = choose|j: int| 0 <= j < es@.len() && es@[j] == e;
                assert(r@[j] == n);
            }
        }
    }
    r
}


spec fn node_in_spec(v: Seq<NodeId>, n: NodeId) -> bool {
    v.contains(n)
}

/// Checks that the arrow `a` of a graggle with the live nodes `live` and the deleted nodes
/// `dead` is sound.
fn arrow_ok(live: &Vec<NodeId>, dead: &Vec<NodeId>, a: &Arrow) -> (r: bool)
    ensures
        r == (GraggleView {
            live: live@.to_set(),
            dead: dead@.to_set(),
            edges: Set::empty(),
            back_edges: Set::empty(),
        }).edge_ok(a.0, a.1),
{
    let src_live = node_in(live, &a.0);
    let src_dead = node_in(dead, &a.0);
    let dest_live = node_in(live, &a.1.dest);
    let dest_dead = node_in(dead, &a.1.dest);
    if !(src_live || src_dead) || !(dest_live || dest_dead) {
        return false;
    }
    match a.1.kind {
        EdgeKind::Pseudo => src_live && dest_live && a.1.patch.is_cur(),
        EdgeKind::Deleted => dest_dead,
        EdgeKind::Live => !dest_dead,
    }
}

/// The mirror image of `a` in a graggle with the deleted nodes `dead`.
fn mirror_of(dead: &Vec<NodeId>, a: &Arrow) -> (r: Arrow)
    ensures
        r == mirror(dead@.to_set(), a.0, a.1),
{
    let kind = match a.1.kind {
        EdgeKind::Pseudo => EdgeKind::Pseudo,
        _ => if node_in(dead, &a.0) {
            EdgeKind::Deleted
        } else {
            EdgeKind::Live
        },
    };
    (a.1.dest, Edge { kind, dest: a.0, patch: a.1.patch })
}

impl GraggleData {
    /// Are the pseudo-edges possibly out of date?
    pub closed spec fn is_dirty(&self) -> bool {
        self.dirty
    }

    /// The invariant of a graggle: its shape is sound and, unless it is dirty, its pseudo-edges
    /// are exactly those that its skeleton calls for.
    pub open spec fn wf(&self) -> bool {
        &&& self@.shape_ok()
        &&& !self.is_dirty() ==> self@.pseudo_rel() == self@.skeleton().pseudo_targets()
    }

    /// Adds a new live node to the graggle.
    pub fn add_node(&mut self, id: NodeId)
        requires
            old(self).wf(),
            !old(self)@.dead.contains(id),
        ensures
            final(self).wf(),
            final(self).is_dirty(),
            final(self)@.skeleton() == old(self)@.skeleton().with_node(id),
            final(self)@.pseudo_rel() == old(self)@.pseudo_rel(),
    {
        if !node_in(&self.nodes, &id) {
            self.nodes.push(id);
            proof {
                lemma_push_contains(old(self).nodes@, id);
            }
        }
        self.dirty = true;
        proof {
            assert(self@.live =~= old(self)@.live.insert(id));
            assert(self@.edges == old(self)@.edges);
            assert forall|a: Arrow| #[trigger] self@.edges.contains(a) implies self@.edge_ok(a.0, a.1) by {
                assert(old(self)@.edge_ok(a.0, a.1));
            }
            assert(self@.skeleton().links =~= old(self)@.skeleton().links);
            assert(self@.pseudo_rel() =~= old(self)@.pseudo_rel());
        }
    }

    /// Given a live node, marks it as deleted: the node doesn't vanish, it turns into a
    /// tombstone. The edges pointing to it are marked as deleted, and the pseudo-edges touching
    /// it are removed.
    pub fn delete_node(&mut self, id: &NodeId)
        requires
            old(self).wf(),
            old(self)@.live.contains(*id),
        ensures
            final(self).wf(),
            final(self).is_dirty(),
            final(self)@.skeleton() == old(self)@.skeleton().with_deleted(*id),
            final(self)@.pseudo_rel() == avoiding(old(self)@.pseudo_rel(), *id),
    {
        let ghost g = old(self)@;
        let n = *id;
        self.nodes = without_node(&self.nodes, id);
        self.deleted_nodes.push(n);
        proof {
            lemma_push_contains(old(self).deleted_nodes@, n);
        }
        self.edges = rewrite(&self.edges, id, EdgeKind::Deleted, false);
        self.back_edges = rewrite(&self.back_edges, id, EdgeKind::Deleted, false);
        self.dirty = true;
        proof {
            let h = self@;
            assert(h.live =~= g.live.remove(n));
            assert(h.dead =~= g.dead.insert(n));
            lemma_rewrite_shape(g, h, n, EdgeKind::Deleted, false);
            assert(h.skeleton() == g.skeleton().with_deleted(n));
        }
    }

    /// Given a deleted node, marks it as live again, together with the edges pointing to it.
    pub fn undelete_node(&mut self, id: &NodeId)
        requires
            old(self).wf(),
            old(self)@.dead.contains(*id),
        ensures
            final(self).wf(),
            final(self).is_dirty(),
            final(self)@.skeleton() == old(self)@.skeleton().with_undeleted(*id),
            final(self)@.pseudo_rel() == old(self)@.pseudo_rel(),
    {
        let ghost g = old(self)@;
        let n = *id;
        self.deleted_nodes = without_node(&self.deleted_nodes, id);
        self.nodes.push(n);
        proof {
            lemma_push_contains(old(self).nodes@, n);
        }
        self.edges = rewrite(&self.edges, id, EdgeKind::Live, false);
        self.back_edges = rewrite(&self.back_edges, id, EdgeKind::Live, false);
        self.dirty = true;
        proof {
            let h = self@;
            assert(h.live =~= g.live.insert(n));
            assert(h.dead =~= g.dead.remove(n));
            lemma_rewrite_shape(g, h, n, EdgeKind::Live, false);
            assert(h.skeleton() == g.skeleton().with_undeleted(n));
            assert forall|t: (NodeId, NodeId)| #[trigger] g.pseudo_rel().contains(t) implies t.0 != n && t.1 != n by {
                let e = choose|e: Edge| #[trigger] g.edges.contains((t.0, e)) && e.kind is Pseudo && e.dest == t.1;
                assert(g.edge_ok(t.0, e));
            }
            assert(avoiding(g.pseudo_rel(), n) =~= g.pseudo_rel());
        }
    }

    /// Removes a live node and every edge (real or pseudo) touching it. This undoes the
    /// [`add_node`](Self::add_node) of a patch being unapplied.
    pub fn unadd_node(&mut self, id: &NodeId)
        requires
            old(self).wf(),
            old(self)@.live.contains(*id),
        ensures
            final(self).wf(),
            final(self).is_dirty(),
            final(self)@.skeleton() == old(self)@.skeleton().without_node(*id),
            final(self)@.pseudo_rel() == avoiding(old(self)@.pseudo_rel(), *id),
    {
        let ghost g = old(self)@;
        let n = *id;
        self.nodes = without_node(&self.nodes, id);
        self.edges = rewrite(&self.edges, id, EdgeKind::Live, true);
        self.back_edges = rewrite(&self.back_edges, id, EdgeKind::Live, true);
        self.dirty = true;
        proof {
            let h = self@;
            assert(h.live =~= g.live.remove(n));
            lemma_rewrite_shape(g, h, n, EdgeKind::Live, true);
            assert(h.skeleton().links =~= g.skeleton().without_node(n).links);
            assert(h.skeleton() == g.skeleton().without_node(n));
        }
    }

    /// Adds an edge from `from` to `to`, introduced by `patch`. Both nodes must be in the
    /// graggle, live or deleted.
    pub fn add_edge(&mut self, from: NodeId, to: NodeId, patch: PatchId)
        requires
            old(self).wf(),
            old(self)@.has(from),
            old(self)@.has(to),
        ensures
            final(self).wf(),
            final(self).is_dirty(),
            final(self)@.skeleton() == old(self)@.skeleton().with_link(from, to, patch),
            final(self)@.pseudo_rel() == old(self)@.pseudo_rel(),
    {
        let ghost g = old(self)@;
        let from_deleted = !node_in(&self.nodes, &from);
        let to_deleted = !node_in(&self.nodes, &to);
        let fwd = (from, Edge::new_real(to, to_deleted, patch));
        let back = (to, Edge::new_real(from, from_deleted, patch));
        insert_arrow(&mut self.edges, fwd);
        insert_arrow(&mut self.back_edges, back);
        self.dirty = true;
        proof {
            let h = self@;
            assert(!(g.live.contains(to) && g.dead.contains(to)));
            assert(!(g.live.contains(from) && g.dead.contains(from)));
            assert(g.edge_ok(fwd.0, fwd.1));
            assert(back == mirror(g.dead, fwd.0, fwd.1));
            assert(h.back_edges =~= mirrors(h.dead, h.edges)) by {
                assert forall|b: Arrow| #[trigger] mirrors(h.dead, h.edges).contains(b) implies h.back_edges.contains(b) by {
                    let a = choose|a: Arrow| #[trigger] h.edges.contains(a) && mirror(h.dead, a.0, a.1) == b;
                    if a != fwd {
                        assert(mirrors(g.dead, g.edges).contains(b));
                    }
                }
                assert forall|b: Arrow| #[trigger] h.back_edges.contains(b) implies mirrors(h.dead, h.edges).contains(b) by {
                    if b != back {
                        assert(mirrors(g.dead, g.edges).contains(b));
                        let a = choose|a: Arrow| #[trigger] g.edges.contains(a) && mirror(g.dead, a.0, a.1) == b;
                        assert(h.edges.contains(a));
                    } else {
                        assert(h.edges.contains(fwd));
                    }
                }
            }
            assert(h.skeleton().links =~= g.skeleton().links.insert((from, to, patch))) by {
                assert(h.edges.contains((from, fwd.1)));
                assert forall|t: (NodeId, NodeId, PatchId)| #[trigger] g.skeleton().links.contains(t) implies h.skeleton().links.contains(t) by {
                    let e = choose|e: Edge| #[trigger] g.edges.contains((t.0, e)) && !(e.kind is Pseudo) && e.dest == t.1 && e.patch == t.2;
                    assert(h.edges.contains((t.0, e)));
                }
                assert forall|t: (NodeId, NodeId, PatchId)| #[trigger] h.skeleton().links.contains(t) && t != (from, to, patch)
                    implies g.skeleton().links.contains(t) by {
                    let e = choose|e: Edge| #[trigger] h.edges.contains((t.0, e)) && !(e.kind is Pseudo) && e.dest == t.1 && e.patch == t.2;
                    assert(g.edges.contains((t.0, e)));
                }
            }
            assert(h.pseudo_rel() =~= g.pseudo_rel()) by {
                assert forall|t: (NodeId, NodeId)| #[trigger] g.pseudo_rel().contains(t) implies h.pseudo_rel().contains(t) by {
                    let e = choose|e: Edge| #[trigger] g.edges.contains((t.0, e)) && e.kind is Pseudo && e.dest == t.1;
                    assert(h.edges.contains((t.0, e)));
                }
                assert forall|t: (NodeId, NodeId)| #[trigger] h.pseudo_rel().contains(t) implies g.pseudo_rel().contains(t) by {
                    let e = choose|e: Edge| #[trigger] h.edges.contains((t.0, e)) && e.kind is Pseudo && e.dest == t.1;
                    assert(g.edges.contains((t.0, e)));
                }
            }
        }
    }

    /// Removes the edge from `from` to `to` introduced by `patch`. Both nodes must be in the
    /// graggle, live or deleted: an edge must be removed before its nodes are.
    pub fn unadd_edge(&mut self, from: &NodeId, to: &NodeId, patch: PatchId)
        requires
            old(self).wf(),
            old(self)@.has(*from),
            old(self)@.has(*to),
        ensures
            final(self).wf(),
            final(self).is_dirty(),
            final(self)@.skeleton() == old(self)@.skeleton().without_link(*from, *to, patch),
            final(self)@.pseudo_rel() == old(self)@.pseudo_rel(),
    {
        let ghost g = old(self)@;
        let from_deleted = node_in(&self.deleted_nodes, from);
        let to_deleted = node_in(&self.deleted_nodes, to);
        let fwd = (*from, Edge::new_real(*to, to_deleted, patch));
        let back = (*to, Edge::new_real(*from, from_deleted, patch));
        self.edges = remove_arrow(&self.edges, &fwd);
        self.back_edges = remove_arrow(&self.back_edges, &back);
        self.dirty = true;
        proof {
            let h = self@;
            assert(back == mirror(g.dead, fwd.0, fwd.1));
            assert(h.back_edges =~= mirrors(h.dead, h.edges)) by {
                assert forall|b: Arrow| #[trigger] mirrors(h.dead, h.edges).contains(b) implies h.back_edges.contains(b) by {
                    let a = choose|a: Arrow| #[trigger] h.edges.contains(a) && mirror(h.dead, a.0, a.1) == b;
                    assert(mirrors(g.dead, g.edges).contains(b));
                    assert(g.edge_ok(a.0, a.1));
                    lemma_mirror_twice(g.dead, a);
                    lemma_mirror_twice(g.dead, fwd);
                }
                assert forall|b: Arrow| #[trigger] h.back_edges.contains(b) implies mirrors(h.dead, h.edges).contains(b) by {
                    assert(mirrors(g.dead, g.edges).contains(b));
                    let a = choose|a: Arrow| #[trigger] g.edges.contains(a) && mirror(g.dead, a.0, a.1) == b;
                    assert(h.edges.contains(a));
                }
            }
            assert(h.skeleton().links =~= g.skeleton().links.remove((*from, *to, patch))) by {
                assert forall|t: (NodeId, NodeId, PatchId)| #[trigger] g.skeleton().links.contains(t) && t != (*from, *to, patch)
                    implies h.skeleton().links.contains(t) by {
                    let e = choose|e: Edge| #[trigger] g.edges.contains((t.0, e)) && !(e.kind is Pseudo) && e.dest == t.1 && e.patch == t.2;
                    assert(h.edges.contains((t.0, e)));
                }
                assert forall|t: (NodeId, NodeId, PatchId)| #[trigger] h.skeleton().links.contains(t)
                    implies t != (*from, *to, patch) by {
                    let e = choose|e: Edge| #[trigger] h.edges.contains((t.0, e)) && !(e.kind is Pseudo) && e.dest == t.1 && e.patch == t.2;
                    assert(g.edge_ok(t.0, e));
                }
            }
            assert(h.pseudo_rel() =~= g.pseudo_rel()) by {
                assert forall|t: (NodeId, NodeId)| #[trigger] g.pseudo_rel().contains(t) implies h.pseudo_rel().contains(t) by {
                    let e = choose|e: Edge| #[trigger] g.edges.contains((t.0, e)) && e.kind is Pseudo && e.dest == t.1;
                    assert(h.edges.contains((t.0, e)));
                }
            }
        }
    }

    /// Every node that `u` reaches by a walk along real edges whose inner nodes are deleted.
    fn reach_from(&self, u: &NodeId) -> (r: Vec<NodeId>)
        requires
            self@.shape_ok(),
        ensures
            forall|x: NodeId| r@.contains(x) <==> self@.skeleton().reaches(*u, x),
    {
        let ghost g = self@;
        let ghost sk = g.skeleton();
        let mut vis: Vec<NodeId> = Vec::new();
        let mut k: usize = 0;
        while k < self.edges.len()
            invariant
                self@ == g,
                sk == g.skeleton(),
                g.shape_ok(),
                k <= self.edges.len(),
                vis@.no_duplicates(),
                forall|x: NodeId| #[trigger] vis@.contains(x) ==> sk.reaches(*u, x) && g.has(x),
                forall|j: int| 0 <= j < k && self.edges@[j].0 == *u && !(self.edges@[j].1.kind is Pseudo)
                    ==> vis@.contains(#[trigger] self.edges@[j].1.dest),
            decreases self.edges.len() - k,
        {
            let a = self.edges[k];
            if a.0 == *u && !is_pseudo(&a) && !node_in(&vis, &a.1.dest) {
                let ghost v0 = vis@;
                proof {
                    assert(g.edges.contains(a));
                    assert(g.edge_ok(a.0, a.1));
                    lemma_edge_link(g, a);
                    let w = seq![*u, a.1.dest];
                    assert(sk.walk(w));
                    assert(sk.reaches(*u, a.1.dest));
                }
                vis.push(a.1.dest);
                proof {
                    lemma_push_contains(v0, a.1.dest);
                }
            }
            k = k + 1;
        }
        let mut done: usize = 0;
        while done < vis.len()
            invariant
                self@ == g,
                sk == g.skeleton(),
                g.shape_ok(),
                done <= vis.len(),
                vis@.no_duplicates(),
                forall|x: NodeId| #[trigger] vis@.contains(x) ==> sk.reaches(*u, x) && g.has(x),
                forall|a: Arrow| #[trigger] g.edges.contains(a) && a.0 == *u && !(a.1.kind is Pseudo) ==> vis@.contains(a.1.dest),
                forall|j: int, a: Arrow|
                    0 <= j < done && #[trigger] g.edges.contains(a) && a.0 == #[trigger] vis@[j] && g.dead.contains(vis@[j])
                        && !(a.1.kind is Pseudo) ==> vis@.contains(a.1.dest),
            decreases self.nodes.len() + self.deleted_nodes.len() - done,
        {
            proof {
                assert forall|x: NodeId| vis@.contains(x) implies (self.nodes@ + self.deleted_nodes@).contains(x) by {
                    assert(g.has(x));
                    lemma_concat_contains(self.nodes@, self.deleted_nodes@, x);
                }
                lemma_unique_within(vis@, self.nodes@ + self.deleted_nodes@);
            }
            let x = vis[done];
            if node_in(&self.deleted_nodes, &x) {
                let mut k: usize = 0;
                while k < self.edges.len()
                    invariant
                        self@ == g,
                        sk == g.skeleton(),
                        g.shape_ok(),
                        k <= self.edges.len(),
                        done < vis.len(),
                        vis@[done as int] == x,
                        g.dead.contains(x),
                        vis@.no_duplicates(),
                        forall|y: NodeId| #[trigger] vis@.contains(y) ==> sk.reaches(*u, y) && g.has(y),
                        forall|a: Arrow| #[trigger] g.edges.contains(a) && a.0 == *u && !(a.1.kind is Pseudo) ==> vis@.contains(a.1.dest),
                        forall|j: int, a: Arrow|
                            0 <= j < done && #[trigger] g.edges.contains(a) && a.0 == #[trigger] vis@[j] && g.dead.contains(vis@[j])
                                && !(a.1.kind is Pseudo) ==> vis@.contains(a.1.dest),
                        forall|j: int| 0 <= j < k && self.edges@[j].0 == x && !(self.edges@[j].1.kind is Pseudo)
                            ==> vis@.contains(#[trigger] self.edges@[j].1.dest),
                    decreases self.edges.len() - k,
                {
                    let a = self.edges[k];
                    if a.0 == x && !is_pseudo(&a) && !node_in(&vis, &a.1.dest) {
                        let ghost v0 = vis@;
                        proof {
                            assert(g.edges.contains(a));
                            assert(g.edge_ok(a.0, a.1));
                            lemma_edge_link(g, a);
                            assert(v0.contains(x));
                            let p = choose|p: Seq<NodeId>| #[trigger] sk.walk(p) && p[0] == *u && p.last() == x;
                            let w = p.push(a.1.dest);
                            assert(w[w.len() - 2] == x);
                            assert forall|i: int| 0 <= i < w.len() - 1 implies #[trigger] sk.link(w[i], w[i + 1]) by {
                                if i < w.len() - 2 {
                                    assert(sk.link(p[i], p[i + 1]));
                                }
                            }
                            assert forall|i: int| 1 <= i < w.len() - 1 implies sk.dead.contains(#[trigger] w[i]) by {
                                if i < w.len() - 2 {
                                    assert(sk.dead.contains(p[i]));
                                }
                            }
                            assert(sk.walk(w));
                            assert(sk.reaches(*u, a.1.dest));
                        }
                        vis.push(a.1.dest);
                        proof {
                            lemma_push_contains(v0, a.1.dest);
                            assert forall|j: int| 0 <= j < v0.len() implies vis@[j] == v0[j] by {}
                        }
                    }
                    k = k + 1;
                }
                proof {
                    assert forall|a: Arrow| #[trigger] g.edges.contains(a) && a.0 == x && !(a.1.kind is Pseudo)
                        implies vis@.contains(a.1.dest) by {
                        let j = choose|j: int| 0 <= j < self.edges@.len() && self.edges@[j] == a;
                        assert(self.edges@[j].1.dest == a.1.dest);
                    }
                }
            }
            done = done + 1;
        }
        proof {
            let vs = vis@.to_set();
            assert forall|a: Arrow| #[trigger] g.edges.contains(a) && vs.contains(a.0) && g.dead.contains(a.0) && !(a.1.kind is Pseudo)
                implies vs.contains(a.1.dest) by {
                let j = choose|j: int| 0 <= j < vis@.len() && vis@[j] == a.0;
                assert(vis@.contains(a.1.dest));
            }
            assert forall|x: NodeId| sk.reaches(*u, x) implies vis@.contains(x) by {
                let p = choose|p: Seq<NodeId>| #[trigger] sk.walk(p) && p[0] == *u && p.last() == x;
                lemma_closed_holds_reach(g, *u, vs, p, p.len() - 1);
            }
        }
        vis
    }

    /// Is there a live edge from `u` to `v`?
    fn has_live_edge(&self, u: &NodeId, v: &NodeId) -> (r: bool)
        ensures
            r == exists|e: Edge| #[trigger] self@.edges.contains((*u, e)) && e.kind is Live && e.dest == *v,
    {
        let mut k: usize = 0;
        while k < self.edges.len()
            invariant
                k <= self.edges.len(),
                forall|j: int| 0 <= j < k ==> !(self.edges@[j].0 == *u && self.edges@[j].1.kind is Live && self.edges@[j].1.dest == *v),
            decreases self.edges.len() - k,
        {
            let a = self.edges[k];
            let live = match a.1.kind {
                EdgeKind::Live => true,
                _ => false,
            };
            if a.0 == *u && live && a.1.dest == *v {
                proof {
                    assert(self@.edges.contains((*u, a.1)));
                }
                return true;
            }
            k = k + 1;
        }
        proof {
            assert forall|e: Edge| #[trigger] self@.edges.contains((*u, e)) && e.kind is Live implies e.dest != *v by {
                let j = choose|j: int| 0 <= j < self.edges@.len() && self.edges@[j] == (*u, e);
            }
        }
        false
    }

    /// Recomputes the pseudo-edges: afterwards there is a pseudo-edge from `u` to `v` exactly
    /// when both are live, distinct and not joined by an edge, and some walk from `u` to `v`
    /// passes through deleted nodes only.
    pub fn resolve_pseudo_edges(&mut self)
        requires
            old(self).wf(),
        ensures
            final(self).wf(),
            !final(self).is_dirty(),
            final(self)@.skeleton() == old(self)@.skeleton(),
            final(self)@.pseudo_rel() == old(self)@.skeleton().pseudo_targets(),
    {
        let ghost g = old(self)@;
        let ghost sk = g.skeleton();
        self.edges = without_pseudo(&self.edges);
        self.back_edges = without_pseudo(&self.back_edges);
        proof {
            lemma_drop_pseudo(g, self@);
        }
        let ghost nodes0 = self.nodes@;
        let mut i: usize = 0;
        while i < self.nodes.len()
            invariant
                self.nodes@ == nodes0,
                self@.shape_ok(),
                self@.skeleton() == sk,
                sk.wf(),
                self@.live == sk.live,
                i <= self.nodes.len(),
                self@.pseudo_rel() == Set::new(|t: (NodeId, NodeId)|
                    sk.pseudo_target(t.0, t.1) && exists|j: int| 0 <= j < i && self.nodes@[j] == t.0),
            decreases self.nodes.len() - i,
        {
            let u = self.nodes[i];
            let r = self.reach_from(&u);
            let ghost rel0 = self@.pseudo_rel();
            let mut j: usize = 0;
            while j < r.len()
                invariant
                    self.nodes@ == nodes0,
                    rel0 == Set::new(|t: (NodeId, NodeId)|
                        sk.pseudo_target(t.0, t.1) && exists|j: int| 0 <= j < i && self.nodes@[j] == t.0),
                    self@.shape_ok(),
                    self@.skeleton() == sk,
                    sk.wf(),
                    self@.live == sk.live,
                    i < self.nodes.len(),
                    self.nodes@[i as int] == u,
                    j <= r.len(),
                    forall|x: NodeId| r@.contains(x) <==> sk.reaches(u, x),
                    self@.pseudo_rel() == rel0.union(Set::new(|t: (NodeId, NodeId)|
                        t.0 == u && sk.pseudo_target(u, t.1) && exists|l: int| 0 <= l < j && r@[l] == t.1)),
                decreases r.len() - j,
            {
                let v = r[j];
                let ghost before = self@;
                if node_in(&self.nodes, &v) && !(v == u) && !self.has_live_edge(&u, &v) {
                    proof {
                        assert(self@.live.contains(u));
                        assert(!sk.link(u, v)) by {
                            if sk.link(u, v) {
                                let q = choose|q: PatchId| #[trigger] sk.links.contains((u, v, q));
                                let e = choose|e: Edge| #[trigger] self@.edges.contains((u, e)) && !(e.kind is Pseudo) && e.dest == v && e.patch == q;
                                assert(self@.edge_ok(u, e));
                            }
                        }
                        assert(sk.pseudo_target(u, v));
                    }
                    let e = Edge::new_pseudo(v);
                    let b = Edge::new_pseudo(u);
                    insert_arrow(&mut self.edges, (u, e));
                    insert_arrow(&mut self.back_edges, (v, b));
                    proof {
                        lemma_add_pseudo(before, self@, u, e, b);
                    }
                } else {
                    proof {
                        assert(!sk.pseudo_target(u, v)) by {
                            if self@.live.contains(v) && v != u {
                                let e = choose|e: Edge| #[trigger] self@.edges.contains((u, e)) && e.kind is Live && e.dest == v;
                                assert(sk.links.contains((u, v, e.patch)));
                            }
                        }
                    }
                }
                proof {
                    assert(self@.pseudo_rel() =~= rel0.union(Set::new(|t: (NodeId, NodeId)|
                        t.0 == u && sk.pseudo_target(u, t.1) && exists|l: int| 0 <= l < j + 1 && r@[l] == t.1))) by {
                        assert forall|t: (NodeId, NodeId)| (t.0 == u && sk.pseudo_target(u, t.1) && exists|l: int| 0 <= l < j + 1 && r@[l] == t.1)
                            implies self@.pseudo_rel().contains(t) by {
                            let l = choose|l: int| 0 <= l < j + 1 && r@[l] == t.1;
                            if l < j {
                                assert(before.pseudo_rel().contains(t));
                            }
                        }
                    }
                }
                j = j + 1;
            }
            proof {
                assert(self@.pseudo_rel() =~= Set::new(|t: (NodeId, NodeId)|
                    sk.pseudo_target(t.0, t.1) && exists|j: int| 0 <= j < i + 1 && self.nodes@[j] == t.0)) by {
                    assert forall|t: (NodeId, NodeId)| sk.pseudo_target(t.0, t.1) && (exists|l: int| 0 <= l < i + 1 && self.nodes@[l] == t.0)
                        implies self@.pseudo_rel().contains(t) by {
                        let l = choose|l: int| 0 <= l < i + 1 && self.nodes@[l] == t.0;
                        if l < i {
                            assert(rel0.contains(t));
                        } else {
                            assert(r@.contains(t.1));
                            let m = choose|m: int| 0 <= m < r@.len() && r@[m] == t.1;
                        }
                    }
                    assert forall|t: (NodeId, NodeId)| self@.pseudo_rel().contains(t)
                        implies sk.pseudo_target(t.0, t.1) && (exists|l: int| 0 <= l < i + 1 && self.nodes@[l] == t.0) by {
                        if !rel0.contains(t) {
                            assert(self.nodes@[i as int] == t.0);
                        } else {
                            let l = choose|l: int| 0 <= l < i && self.nodes@[l] == t.0;
                            assert(0 <= l < i + 1);
                        }
                    }
                }
            }
            i = i + 1;
        }
        self.dirty = false;
        proof {
            assert(self@.pseudo_rel() =~= sk.pseudo_targets()) by {
                assert forall|t: (NodeId, NodeId)| sk.pseudo_target(t.0, t.1) implies self@.pseudo_rel().contains(t) by {
                    assert(self@.live.contains(t.0));
                    let l = choose|l: int| 0 <= l < self.nodes@.len() && self.nodes@[l] == t.0;
                }
            }
        }
    }

    /// A copy of this graggle.
    pub fn duplicate(&self) -> (r: GraggleData)
        ensures
            r@ == self@,
            r.is_dirty() == self.is_dirty(),
            self.wf() ==> r.wf(),
    {
        GraggleData {
            nodes: copy_vec(&self.nodes),
            deleted_nodes: copy_vec(&self.deleted_nodes),
            edges: copy_vec(&self.edges),
            back_edges: copy_vec(&self.back_edges),
            dirty: self.dirty,
        }
    }

    /// A read-only view of this graggle.
    pub fn as_graggle(&self) -> (r: Graggle<'_>)
        ensures
            r@ == self@,
    {
        Graggle { data: self }
    }

    /// All the edges leaving `node`, including pseudo-edges and those pointing to deleted
    /// nodes, in increasing order.
    pub fn all_out_edges(&self, node: &NodeId) -> (r: Vec<Edge>)
        ensures
            edges_ascending(r@),
            forall|e: Edge| #[trigger] r@.contains(e) <==> self@.edges.contains((*node, e)),
    {
        sort_edges(edges_from(&self.edges, node, true))
    }

    /// All the back-edges leaving `node`, in increasing order: they point to the nodes that
    /// have an edge to `node`.
    pub fn all_in_edges(&self, node: &NodeId) -> (r: Vec<Edge>)
        ensures
            edges_ascending(r@),
            forall|e: Edge| #[trigger] r@.contains(e) <==> self@.back_edges.contains((*node, e)),
    {
        sort_edges(edges_from(&self.back_edges, node, true))
    }

    /// Checks the invariants of this graggle: live and deleted nodes are disjoint; every edge
    /// joins two nodes, leads from a node to another one and is marked deleted exactly when
    /// it points to a deleted node; back-edges mirror edges; and, unless the pseudo-edges may
    /// be out of date, the pseudo-edges are exactly those that the real edges call for.
    #[verifier::spinoff_prover]
    pub fn assert_consistent(&self) -> (r: bool)
        ensures
            r == (self.wf() && self@.loop_free()),
    {
        let ghost g = self@;
        // Live and deleted nodes are disjoint.
        let mut i: usize = 0;
        while i < self.nodes.len()
            invariant
                self@ == g,
                i <= self.nodes.len(),
                forall|j: int| 0 <= j < i ==> !self.deleted_nodes@.contains(#[trigger] self.nodes@[j]),
            decreases self.nodes.len() - i,
        {
            if node_in(&self.deleted_nodes, &self.nodes[i]) {
                proof {
                    assert(self.nodes@.contains(self.nodes@[i as int]));
                    assert(g.live.contains(self.nodes@[i as int]));
                }
                return false;
            }
            i = i + 1;
        }
        proof {
            assert forall|n: NodeId| !(#[trigger] g.live.contains(n) && g.dead.contains(n)) by {
                if g.live.contains(n) {
                    let j = choose|j: int| 0 <= j < self.nodes@.len() && self.nodes@[j] == n;
                }
            }
        }
        // Every edge is sound, is no loop, and has its mirror image among the back-edges.
        let mut i: usize = 0;
        while i < self.edges.len()
            invariant
                self@ == g,
                i <= self.edges.len(),
                forall|j: int| 0 <= j < i ==> #[trigger] g.edge_ok(self.edges@[j].0, self.edges@[j].1)
                    && g.back_edges.contains(mirror(g.dead, self.edges@[j].0, self.edges@[j].1))
                    && self.edges@[j].0 != self.edges@[j].1.dest,
            decreases self.edges.len() - i,
        {
            let a = self.edges[i];
            if !arrow_ok(&self.nodes, &self.deleted_nodes, &a) || !arrow_in(&self.back_edges, &mirror_of(&self.deleted_nodes, &a))
                || a.0 == a.1.dest {
                proof {
                    assert(g.edges.contains(a));
                    if g.shape_ok() {
                        assert(mirrors(g.dead, g.edges).contains(mirror(g.dead, a.0, a.1)));
                    }
                }
                return false;
            }
            proof {
                assert(a == self.edges@[i as int]);
                assert(g.edge_ok(a.0, a.1));
                assert forall|j: int| 0 <= j < i + 1 implies #[trigger] g.edge_ok(self.edges@[j].0, self.edges@[j].1)
                    && g.back_edges.contains(mirror(g.dead, self.edges@[j].0, self.edges@[j].1))
                    && self.edges@[j].0 != self.edges@[j].1.dest by {
                    if j == i {
                        assert(self.edges@[j] == a);
                    }
                }
            }
            i = i + 1;
        }
        proof {
            assert forall|a: Arrow| #[trigger] g.edges.contains(a) implies g.edge_ok(a.0, a.1)
                && g.back_edges.contains(mirror(g.dead, a.0, a.1)) && a.0 != a.1.dest by {
                let j = choose|j: int| 0 <= j < self.edges@.len() && self.edges@[j] == a;
                assert(g.edge_ok(self.edges@[j].0, self.edges@[j].1));
            }
        }
        // Every back-edge is sound and is the mirror image of an edge.
        let mut i: usize = 0;
        while i < self.back_edges.len()
            invariant
                self@ == g,
                i <= self.back_edges.len(),
                forall|j: int| 0 <= j < i ==> #[trigger] g.edge_ok(self.back_edges@[j].0, self.back_edges@[j].1)
                    && g.edges.contains(mirror(g.dead, self.back_edges@[j].0, self.back_edges@[j].1)),
            decreases self.back_edges.len() - i,
        {
            let b = self.back_edges[i];
            if !arrow_ok(&self.nodes, &self.deleted_nodes, &b) || !arrow_in(&self.edges, &mirror_of(&self.deleted_nodes, &b)) {
                proof {
                    assert(g.back_edges.contains(b));
                    if g.shape_ok() {
                        assert(mirrors(g.dead, g.edges).contains(b));
                        let a = choose|a: Arrow| #[trigger] g.edges.contains(a) && mirror(g.dead, a.0, a.1) == b;
                        assert(g.edge_ok(a.0, a.1));
                        lemma_mirror_twice(g.dead, a);
                    }
                }
                return false;
            }
            proof {
                assert(b == self.back_edges@[i as int]);
                assert(g.edge_ok(b.0, b.1));
                assert(g.edges.contains(mirror(g.dead, b.0, b.1)));
                assert forall|j: int| 0 <= j < i + 1 implies #[trigger] g.edge_ok(self.back_edges@[j].0, self.back_edges@[j].1)
                    && g.edges.contains(mirror(g.dead, self.back_edges@[j].0, self.back_edges@[j].1)) by {
                    if j == i {
                        assert(self.back_edges@[j] == b);
                    }
                }
            }
            i = i + 1;
        }
        proof {
            assert forall|b: Arrow| #[trigger] g.back_edges.contains(b) implies mirrors(g.dead, g.edges).contains(b) by {
                let j = choose|j: int| 0 <= j < self.back_edges@.len() && self.back_edges@[j] == b;
                assert(g.edge_ok(self.back_edges@[j].0, self.back_edges@[j].1));
                lemma_mirror_twice(g.dead, b);
                assert(g.edges.contains(mirror(g.dead, b.0, b.1)));
            }
            assert forall|b: Arrow| #[trigger] mirrors(g.dead, g.edges).contains(b) implies g.back_edges.contains(b) by {
                let a = choose|a: Arrow| #[trigger] g.edges.contains(a) && mirror(g.dead, a.0, a.1) == b;
            }
            assert(g.back_edges =~= mirrors(g.dead, g.edges));
            assert(g.shape_ok());
        }
        if self.dirty {
            return true;
        }
        // The pseudo-edges are those that the skeleton calls for.
        let ghost sk = g.skeleton();
        let mut i: usize = 0;
        while i < self.nodes.len()
            invariant
                self@ == g,
                !self.dirty,
                sk == g.skeleton(),
                g.shape_ok(),
                i <= self.nodes.len(),
                forall|t: (NodeId, NodeId)| (exists|j: int| 0 <= j < i && self.nodes@[j] == t.0)
                    ==> (g.pseudo_rel().contains(t) <==> sk.pseudo_target(t.0, t.1)),
            decreases self.nodes.len() - i,
        {
            let u = self.nodes[i];
            let r = self.reach_from(&u);
            // Every pseudo-edge called for is there.
            let mut j: usize = 0;
            while j < r.len()
                invariant
                    self@ == g,
                    !self.dirty,
                    sk == g.skeleton(),
                    g.shape_ok(),
                    g.live.contains(u),
                    j <= r.len(),
                    forall|x: NodeId| r@.contains(x) <==> sk.reaches(u, x),
                    forall|l: int| 0 <= l < j && #[trigger] sk.pseudo_target(u, r@[l]) ==> g.pseudo_rel().contains((u, r@[l])),
                decreases r.len() - j,
            {
                let v = r[j];
                if node_in(&self.nodes, &v) && !(v == u) && !self.has_live_edge(&u, &v) {
                    let pe = Edge::new_pseudo(v);
                    if !arrow_in(&self.edges, &(u, pe)) {
                        proof {
                            assert(!sk.link(u, v)) by {
                                if sk.link(u, v) {
                                    let q = choose|q: PatchId| #[trigger] sk.links.contains((u, v, q));
                                    let e = choose|e: Edge| #[trigger] g.edges.contains((u, e)) && !(e.kind is Pseudo) && e.dest == v && e.patch == q;
                                    assert(g.edge_ok(u, e));
                                }
                            }
                            assert(r@.contains(v));
                            assert(sk.pseudo_target(u, v));
                            if g.pseudo_rel().contains((u, v)) {
                                let e = choose|e: Edge| #[trigger] g.edges.contains((u, e)) && e.kind is Pseudo && e.dest == v;
                                assert(g.edge_ok(u, e));
                                lemma_cur_unique(e.patch, pe.patch);
                            }
                            assert(!self.wf());
                        }
                        return false;
                    }
                    proof {
                        assert(g.edges.contains((u, pe)));
                    }
                } else {
                    proof {
                        if g.live.contains(v) && v != u {
                            let e = choose|e: Edge| #[trigger] g.edges.contains((u, e)) && e.kind is Live && e.dest == v;
                            assert(sk.links.contains((u, v, e.patch)));
                        }
                        assert(!sk.pseudo_target(u, v));
                    }
                }
                j = j + 1;
            }
            // Every pseudo-edge that is there is called for.
            let mut k: usize = 0;
            while k < self.edges.len()
                invariant
                    self@ == g,
                    !self.dirty,
                    sk == g.skeleton(),
                    g.shape_ok(),
                    g.live.contains(u),
                    k <= self.edges.len(),
                    forall|x: NodeId| r@.contains(x) <==> sk.reaches(u, x),
                    forall|l: int| 0 <= l < k && self.edges@[l].0 == u && #[trigger] self.edges@[l].1.kind is Pseudo
                        ==> sk.pseudo_target(u, self.edges@[l].1.dest),
                decreases self.edges.len() - k,
            {
                let a = self.edges[k];
                if a.0 == u && is_pseudo(&a) {
                    let v = a.1.dest;
                    if !node_in(&r, &v) || v == u || self.has_live_edge(&u, &v) {
                        proof {
                            assert(g.edges.contains(a));
                            assert(g.pseudo_rel().contains((u, v)));
                            if node_in_spec(r@, v) == false {
                                assert(!sk.reaches(u, v));
                            } else if v == u {
                            } else {
                                let e = choose|e: Edge| #[trigger] g.edges.contains((u, e)) && e.kind is Live && e.dest == v;
                                assert(sk.links.contains((u, v, e.patch)));
                            }
                            assert(!sk.pseudo_target(u, v));
                            assert(!self.wf());
                        }
                        return false;
                    }
                    proof {
                        assert(g.edges.contains(a));
                        assert(g.edge_ok(u, a.1));
                        assert(!sk.link(u, v)) by {
                            if sk.link(u, v) {
                                let q = choose|q: PatchId| #[trigger] sk.links.contains((u, v, q));
                                let e = choose|e: Edge| #[trigger] g.edges.contains((u, e)) && !(e.kind is Pseudo) && e.dest == v && e.patch == q;
                                assert(g.edge_ok(u, e));
                            }
                        }
                    }
                }
                k = k + 1;
            }
            proof {
                assert forall|t: (NodeId, NodeId)| (exists|j: int| 0 <= j < i + 1 && self.nodes@[j] == t.0)
                    implies (g.pseudo_rel().contains(t) <==> sk.pseudo_target(t.0, t.1)) by {
                    let j = choose|j: int| 0 <= j < i + 1 && self.nodes@[j] == t.0;
                    if j == i {
                        if sk.pseudo_target(t.0, t.1) {
                            assert(r@.contains(t.1));
                            let l = choose|l: int| 0 <= l < r@.len() && r@[l] == t.1;
                            assert(sk.pseudo_target(u, r@[l]));
                        }
                        if g.pseudo_rel().contains(t) {
                            let e = choose|e: Edge| #[trigger] g.edges.contains((t.0, e)) && e.kind is Pseudo && e.dest == t.1;
                            let l = choose|l: int| 0 <= l < self.edges@.len() && self.edges@[l] == (t.0, e);
                            assert(self.edges@[l].1.kind is Pseudo);
                        }
                    }
                }
            }
            i = i + 1;
        }
        proof {
            assert(g.pseudo_rel() =~= sk.pseudo_targets()) by {
                assert forall|t: (NodeId, NodeId)| g.pseudo_rel().contains(t) implies sk.pseudo_target(t.0, t.1) by {
                    let e = choose|e: Edge| #[trigger] g.edges.contains((t.0, e)) && e.kind is Pseudo && e.dest == t.1;
                    assert(g.edge_ok(t.0, e));
                    let j = choose|j: int| 0 <= j < self.nodes@.len() && self.nodes@[j] == t.0;
                }
                assert forall|t: (NodeId, NodeId)| sk.pseudo_target(t.0, t.1) implies g.pseudo_rel().contains(t) by {
                    let j = choose|j: int| 0 <= j < self.nodes@.len() && self.nodes@[j] == t.0;
                }
            }
        }
        true
    }

    /// Creates an empty graggle.
    pub fn new() -> (r: GraggleData)
        ensures
            r.wf(),
            r@.live == Set::<NodeId>::empty(),
            r@.dead == Set::<NodeId>::empty(),
            r@.edges == Set::<Arrow>::empty(),
            r@.back_edges == Set::<Arrow>::empty(),
    {
        let r = GraggleData {
            nodes: Vec::new(),
            deleted_nodes: Vec::new(),
            edges: Vec::new(),
            back_edges: Vec::new(),
            dirty: false,
        };
        proof {
            assert(r@.live =~= Set::<NodeId>::empty());
            assert(r@.dead =~= Set::<NodeId>::empty());
            assert(r@.edges =~= Set::<Arrow>::empty());
            assert(r@.back_edges =~= Set::<Arrow>::empty());
            assert(mirrors(r@.dead, r@.edges) =~= Set::<Arrow>::empty());
            assert(r@.pseudo_rel() =~= r@.skeleton().pseudo_targets());
        }
        r
    }
}

} // verus!
