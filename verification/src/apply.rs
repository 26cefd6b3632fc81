//! Applying the changes of a patch to a graggle, and unapplying them again.

use vstd::prelude::*;

use crate::change::{Change, ChangeView, Changes};
use crate::graggle::{GraggleData, Skeleton};
use crate::ids::{NodeId, PatchId};

verus! {

/// What one change does to a skeleton, when it belongs to the patch `p`.
pub open spec fn apply_one(s: Skeleton, c: ChangeView, p: PatchId) -> Skeleton {
    match c {
        ChangeView::NewNode { id, .. } => s.with_node(id),
        ChangeView::DeleteNode { id } => s.with_deleted(id),
        ChangeView::NewEdge { src, dest } => s.with_link(src, dest, p),
    }
}

/// The change `c` can be applied to a graggle with the skeleton `s`: a new node is not a
/// deleted one, a deleted node is live, and an edge joins two nodes.
pub open spec fn apply_one_ok(s: Skeleton, c: ChangeView) -> bool {
    match c {
        ChangeView::NewNode { id, .. } => !s.dead.contains(id),
        ChangeView::DeleteNode { id } => s.live.contains(id),
        ChangeView::NewEdge { src, dest } => s.has(src) && s.has(dest),
    }
}

/// What the changes `cs` of the patch `p` do to a skeleton, one after the other.
pub open spec fn apply_all(s: Skeleton, cs: Seq<ChangeView>, p: PatchId) -> Skeleton
    decreases cs.len(),
{
    if cs.len() == 0 {
        s
    } else {
        apply_one(apply_all(s, cs.drop_last(), p), cs.last(), p)
    }
}

/// Each change of `cs` can be applied where it comes.
pub open spec fn applicable(s: Skeleton, cs: Seq<ChangeView>, p: PatchId) -> bool {
    forall|i: int| 0 <= i < cs.len() ==> apply_one_ok(apply_all(s, cs.take(i), p), #[trigger] cs[i])
}

/// The first pass of unapplying one change: a deleted node comes back and an edge goes.
pub open spec fn undo_one(s: Skeleton, c: ChangeView, p: PatchId) -> Skeleton {
    match c {
        ChangeView::DeleteNode { id } => s.with_undeleted(id),
        ChangeView::NewEdge { src, dest } => s.without_link(src, dest, p),
        ChangeView::NewNode { .. } => s,
    }
}

/// The first pass of unapplying `c` can be done on a graggle with the skeleton `s`.
pub open spec fn undo_one_ok(s: Skeleton, c: ChangeView) -> bool {
    match c {
        ChangeView::DeleteNode { id } => s.dead.contains(id),
        ChangeView::NewEdge { src, dest } => s.has(src) && s.has(dest),
        ChangeView::NewNode { .. } => true,
    }
}

/// The first pass of unapplying `cs`, one change after the other.
pub open spec fn undo_all(s: Skeleton, cs: Seq<ChangeView>, p: PatchId) -> Skeleton
    decreases cs.len(),
{
    if cs.len() == 0 {
        s
    } else {
        undo_one(undo_all(s, cs.drop_last(), p), cs.last(), p)
    }
}

/// The second pass of unapplying one change: a new node goes.
pub open spec fn unadd_one(s: Skeleton, c: ChangeView) -> Skeleton {
    match c {
        ChangeView::NewNode { id, .. } => s.without_node(id),
        _ => s,
    }
}

/// The second pass of unapplying `c` can be done on a graggle with the skeleton `s`.
pub open spec fn unadd_one_ok(s: Skeleton, c: ChangeView) -> bool {
    match c {
        ChangeView::NewNode { id, .. } => s.live.contains(id),
        _ => true,
    }
}

/// The second pass of unapplying `cs`, one change after the other.
pub open spec fn unadd_all(s: Skeleton, cs: Seq<ChangeView>) -> Skeleton
    decreases cs.len(),
{
    if cs.len() == 0 {
        s
    } else {
        unadd_one(unadd_all(s, cs.drop_last()), cs.last())
    }
}

/// What unapplying the changes `cs` of the patch `p` does to a skeleton: first the deleted
/// nodes come back and the edges go, then the new nodes go.
pub open spec fn unapply_all(s: Skeleton, cs: Seq<ChangeView>, p: PatchId) -> Skeleton {
    unadd_all(undo_all(s, cs, p), cs)
}

/// Each step of unapplying `cs` can be done where it comes.
pub open spec fn unapplicable(s: Skeleton, cs: Seq<ChangeView>, p: PatchId) -> bool {
    &&& forall|i: int| 0 <= i < cs.len() ==> undo_one_ok(undo_all(s, cs.take(i), p), #[trigger] cs[i])
    &&& forall|i: int|
        0 <= i < cs.len() ==> unadd_one_ok(unadd_all(undo_all(s, cs, p), cs.take(i)), #[trigger] cs[i])
}

proof fn lemma_take_step<T>(cs: Seq<T>, i: int)
    requires
        0 <= i < cs.len(),
    ensures
        cs.take(i + 1).drop_last() == cs.take(i),
        cs.take(i + 1).last() == cs[i],
        cs.take(i + 1).len() == i + 1,
{
    assert(cs.take(i + 1).drop_last() =~= cs.take(i));
}

/// The node that `c` adds, if it adds one.
pub open spec fn new_id(c: ChangeView) -> Option<NodeId> {
    match c {
        ChangeView::NewNode { id, .. } => Some(id),
        _ => None,
    }
}

/// The node that `c` deletes, if it deletes one.
pub open spec fn del_id(c: ChangeView) -> Option<NodeId> {
    match c {
        ChangeView::DeleteNode { id } => Some(id),
        _ => None,
    }
}

/// The edge that `c` adds as part of the patch `p`, if it adds one.
pub open spec fn link_of(c: ChangeView, p: PatchId) -> Option<(NodeId, NodeId, PatchId)> {
    match c {
        ChangeView::NewEdge { src, dest } => Some((src, dest, p)),
        _ => None,
    }
}

/// The nodes that the first `i` changes of `cs` add.
pub open spec fn added_upto(cs: Seq<ChangeView>, i: int) -> Set<NodeId> {
    Set::new(|n: NodeId| exists|j: int| 0 <= j < i && #[trigger] new_id(cs[j]) == Some(n))
}

/// The nodes that the first `i` changes of `cs` delete.
pub open spec fn deleted_upto(cs: Seq<ChangeView>, i: int) -> Set<NodeId> {
    Set::new(|n: NodeId| exists|j: int| 0 <= j < i && #[trigger] del_id(cs[j]) == Some(n))
}

/// The edges that the first `i` changes of `cs` add as part of the patch `p`.
pub open spec fn linked_upto(cs: Seq<ChangeView>, p: PatchId, i: int) -> Set<(NodeId, NodeId, PatchId)> {
    Set::new(|t: (NodeId, NodeId, PatchId)| exists|j: int| 0 <= j < i && #[trigger] link_of(cs[j], p) == Some(t))
}

/// The patch `p` with the changes `cs` is new to a graggle with the skeleton `s`: the nodes it
/// adds are distinct and not yet in the graggle, the nodes it deletes are distinct live
/// nodes, and the edges it adds are not yet there.
pub open spec fn fresh_patch(s: Skeleton, cs: Seq<ChangeView>, p: PatchId) -> bool {
    &&& forall|j: int| 0 <= j < cs.len() && (#[trigger] new_id(cs[j])) is Some ==> !s.has(new_id(cs[j])->0)
    &&& forall|j: int, k: int|
        0 <= j < k < cs.len() && (#[trigger] new_id(cs[j])) is Some ==> new_id(cs[j]) != #[trigger] new_id(cs[k])
    &&& forall|j: int| 0 <= j < cs.len() && (#[trigger] del_id(cs[j])) is Some ==> s.live.contains(del_id(cs[j])->0)
    &&& forall|j: int, k: int|
        0 <= j < k < cs.len() && (#[trigger] del_id(cs[j])) is Some ==> del_id(cs[j]) != #[trigger] del_id(cs[k])
    &&& forall|j: int| 0 <= j < cs.len() && (#[trigger] link_of(cs[j], p)) is Some ==> !s.links.contains(link_of(cs[j], p)->0)
}

/// Unapplying the patch `p` with the changes `cs` can undo applying it to a graggle with the
/// skeleton `s`: the nodes it adds are not yet in the graggle and each is added once, and the
/// edges it adds are not yet there.
pub open spec fn reversible(s: Skeleton, cs: Seq<ChangeView>, p: PatchId) -> bool {
    &&& forall|j: int| 0 <= j < cs.len() && (#[trigger] new_id(cs[j])) is Some ==> !s.has(new_id(cs[j])->0)
    &&& forall|j: int, k: int|
        0 <= j < k < cs.len() && (#[trigger] new_id(cs[j])) is Some ==> new_id(cs[j]) != #[trigger] new_id(cs[k])
    &&& forall|j: int| 0 <= j < cs.len() && (#[trigger] link_of(cs[j], p)) is Some ==> !s.links.contains(link_of(cs[j], p)->0)
}

proof fn lemma_upto_step(cs: Seq<ChangeView>, p: PatchId, i: int)
    requires
        0 <= i < cs.len(),
    ensures
        added_upto(cs, i + 1) == (match new_id(cs[i]) {
            Some(n) => added_upto(cs, i).insert(n),
            None => added_upto(cs, i),
        }),
        deleted_upto(cs, i + 1) == (match del_id(cs[i]) {
            Some(n) => deleted_upto(cs, i).insert(n),
            None => deleted_upto(cs, i),
        }),
        linked_upto(cs, p, i + 1) == (match link_of(cs[i], p) {
            Some(t) => linked_upto(cs, p, i).insert(t),
            None => linked_upto(cs, p, i),
        }),
{
    let a1 = added_upto(cs, i + 1);
    let a2 = match new_id(cs[i]) {
        Some(n) => added_upto(cs, i).insert(n),
        None => added_upto(cs, i),
    };
    assert forall|n: NodeId| a1.contains(n) <==> a2.contains(n) by {
        if a1.contains(n) {
            let j = choose|j: int| 0 <= j < i + 1 && #[trigger] new_id(cs[j]) == Some(n);
            if j < i {
                assert(added_upto(cs, i).contains(n));
            }
        }
        if added_upto(cs, i).contains(n) {
            let j = choose|j: int| 0 <= j < i && #[trigger] new_id(cs[j]) == Some(n);
            assert(0 <= j < i + 1);
        }
    }
    assert(a1 =~= a2);
    let d1 = deleted_upto(cs, i + 1);
    let d2 = match del_id(cs[i]) {
        Some(n) => deleted_upto(cs, i).insert(n),
        None => deleted_upto(cs, i),
    };
    assert forall|n: NodeId| d1.contains(n) <==> d2.contains(n) by {
        if d1.contains(n) {
            let j = choose|j: int| 0 <= j < i + 1 && #[trigger] del_id(cs[j]) == Some(n);
            if j < i {
                assert(deleted_upto(cs, i).contains(n));
            }
        }
        if deleted_upto(cs, i).contains(n) {
            let j = choose|j: int| 0 <= j < i && #[trigger] del_id(cs[j]) == Some(n);
            assert(0 <= j < i + 1);
        }
    }
    assert(d1 =~= d2);
    let l1 = linked_upto(cs, p, i + 1);
    let l2 = match link_of(cs[i], p) {
        Some(t) => linked_upto(cs, p, i).insert(t),
        None => linked_upto(cs, p, i),
    };
    assert forall|t: (NodeId, NodeId, PatchId)| l1.contains(t) <==> l2.contains(t) by {
        if l1.contains(t) {
            let j = choose|j: int| 0 <= j < i + 1 && #[trigger] link_of(cs[j], p) == Some(t);
            if j < i {
                assert(linked_upto(cs, p, i).contains(t));
            }
        }
        if linked_upto(cs, p, i).contains(t) {
            let j = choose|j: int| 0 <= j < i && #[trigger] link_of(cs[j], p) == Some(t);
            assert(0 <= j < i + 1);
        }
    }
    assert(l1 =~= l2);
}

/// The skeleton after the first `i` changes of a fresh patch.
pub proof fn lemma_apply_closed(s: Skeleton, cs: Seq<ChangeView>, p: PatchId, i: int)
    requires
        s.wf(),
        fresh_patch(s, cs, p),
        0 <= i <= cs.len(),
    ensures
        apply_all(s, cs.take(i), p) == (Skeleton {
            live: s.live.union(added_upto(cs, i)).difference(deleted_upto(cs, i)),
            dead: s.dead.union(deleted_upto(cs, i)),
            links: s.links.union(linked_upto(cs, p, i)),
        }),
    decreases i,
{
    if i == 0 {
        assert(cs.take(0) =~= Seq::<ChangeView>::empty());
        assert(added_upto(cs, 0) =~= Set::<NodeId>::empty());
        assert(deleted_upto(cs, 0) =~= Set::<NodeId>::empty());
        assert(linked_upto(cs, p, 0) =~= Set::<(NodeId, NodeId, PatchId)>::empty());
        assert(s.live.union(Set::<NodeId>::empty()).difference(Set::<NodeId>::empty()) =~= s.live);
        assert(s.dead.union(Set::<NodeId>::empty()) =~= s.dead);
        assert(s.links.union(Set::<(NodeId, NodeId, PatchId)>::empty()) =~= s.links);
    } else {
        lemma_apply_closed(s, cs, p, i - 1);
        lemma_take_step(cs, i - 1);
        lemma_upto_step(cs, p, i - 1);
        let prev = apply_all(s, cs.take(i - 1), p);
        let next = apply_all(s, cs.take(i), p);
        assert(next == apply_one(prev, cs[i - 1], p));
        let want = Skeleton {
            live: s.live.union(added_upto(cs, i)).difference(deleted_upto(cs, i)),
            dead: s.dead.union(deleted_upto(cs, i)),
            links: s.links.union(linked_upto(cs, p, i)),
        };
        match cs[i - 1] {
            ChangeView::NewNode { id, .. } => {
                assert(new_id(cs[i - 1]) == Some(id));
                assert(!deleted_upto(cs, i).contains(id)) by {
                    if deleted_upto(cs, i).contains(id) {
                        let j = choose|j: int| 0 <= j < i && #[trigger] del_id(cs[j]) == Some(id);
                        assert(s.live.contains(id));
                    }
                }
                assert(next.live =~= want.live);
            },
            ChangeView::DeleteNode { id } => {
                assert(del_id(cs[i - 1]) == Some(id));
                assert(next.live =~= want.live);
                assert(next.dead =~= want.dead);
            },
            ChangeView::NewEdge { src, dest } => {
                assert(link_of(cs[i - 1], p) == Some((src, dest, p)));
                assert(next.links =~= want.links);
            },
        }
    }
}

/// The skeleton after the first `i` changes of an applicable patch.
proof fn lemma_apply_closed_app(s: Skeleton, cs: Seq<ChangeView>, p: PatchId, i: int)
    requires
        applicable(s, cs, p),
        0 <= i <= cs.len(),
    ensures
        apply_all(s, cs.take(i), p) == (Skeleton {
            live: s.live.union(added_upto(cs, i)).difference(deleted_upto(cs, i)),
            dead: s.dead.union(deleted_upto(cs, i)),
            links: s.links.union(linked_upto(cs, p, i)),
        }),
    decreases i,
{
    if i == 0 {
        assert(cs.take(0) =~= Seq::<ChangeView>::empty());
        assert(added_upto(cs, 0) =~= Set::<NodeId>::empty());
        assert(deleted_upto(cs, 0) =~= Set::<NodeId>::empty());
        assert(linked_upto(cs, p, 0) =~= Set::<(NodeId, NodeId, PatchId)>::empty());
        assert(s.live.union(Set::<NodeId>::empty()).difference(Set::<NodeId>::empty()) =~= s.live);
        assert(s.dead.union(Set::<NodeId>::empty()) =~= s.dead);
        assert(s.links.union(Set::<(NodeId, NodeId, PatchId)>::empty()) =~= s.links);
    } else {
        lemma_apply_closed_app(s, cs, p, i - 1);
        lemma_take_step(cs, i - 1);
        lemma_upto_step(cs, p, i - 1);
        let prev = apply_all(s, cs.take(i - 1), p);
        let next = apply_all(s, cs.take(i), p);
        assert(next == apply_one(prev, cs[i - 1], p));
        assert(apply_one_ok(prev, cs[i - 1]));
        let want = Skeleton {
            live: s.live.union(added_upto(cs, i)).difference(deleted_upto(cs, i)),
            dead: s.dead.union(deleted_upto(cs, i)),
            links: s.links.union(linked_upto(cs, p, i)),
        };
        match cs[i - 1] {
            ChangeView::NewNode { id, .. } => {
                assert(new_id(cs[i - 1]) == Some(id));
                assert(!prev.dead.contains(id));
                assert(next.live =~= want.live);
            },
            ChangeView::DeleteNode { id } => {
                assert(del_id(cs[i - 1]) == Some(id));
                assert(next.live =~= want.live);
                assert(next.dead =~= want.dead);
            },
            ChangeView::NewEdge { src, dest } => {
                assert(link_of(cs[i - 1], p) == Some((src, dest, p)));
                assert(next.links =~= want.links);
            },
        }
    }
}

/// The skeleton after the first pass of unapplying the first `i` changes.
proof fn lemma_undo_closed(s: Skeleton, cs: Seq<ChangeView>, p: PatchId, i: int)
    requires
        0 <= i <= cs.len(),
    ensures
        undo_all(s, cs.take(i), p) == (Skeleton {
            live: s.live.union(deleted_upto(cs, i)),
            dead: s.dead.difference(deleted_upto(cs, i)),
            links: s.links.difference(linked_upto(cs, p, i)),
        }),
    decreases i,
{
    if i == 0 {
        assert(cs.take(0) =~= Seq::<ChangeView>::empty());
        assert(deleted_upto(cs, 0) =~= Set::<NodeId>::empty());
        assert(linked_upto(cs, p, 0) =~= Set::<(NodeId, NodeId, PatchId)>::empty());
        assert(s.live.union(Set::<NodeId>::empty()) =~= s.live);
        assert(s.dead.difference(Set::<NodeId>::empty()) =~= s.dead);
        assert(s.links.difference(Set::<(NodeId, NodeId, PatchId)>::empty()) =~= s.links);
    } else {
        lemma_undo_closed(s, cs, p, i - 1);
        lemma_take_step(cs, i - 1);
        lemma_upto_step(cs, p, i - 1);
        let next = undo_all(s, cs.take(i), p);
        let want = Skeleton {
            live: s.live.union(deleted_upto(cs, i)),
            dead: s.dead.difference(deleted_upto(cs, i)),
            links: s.links.difference(linked_upto(cs, p, i)),
        };
        match cs[i - 1] {
            ChangeView::NewNode { id, .. } => {},
            ChangeView::DeleteNode { id } => {
                assert(del_id(cs[i - 1]) == Some(id));
                assert(next.live =~= want.live);
                assert(next.dead =~= want.dead);
            },
            ChangeView::NewEdge { src, dest } => {
                assert(link_of(cs[i - 1], p) == Some((src, dest, p)));
                assert(next.links =~= want.links);
            },
        }
    }
}

/// The skeleton after the second pass of unapplying the first `i` changes.
proof fn lemma_unadd_closed(s: Skeleton, cs: Seq<ChangeView>, p: PatchId, i: int)
    requires
        0 <= i <= cs.len(),
    ensures
        unadd_all(s, cs.take(i)) == (Skeleton {
            live: s.live.difference(added_upto(cs, i)),
            dead: s.dead,
            links: s.links.filter(|t: (NodeId, NodeId, PatchId)| !added_upto(cs, i).contains(t.0) && !added_upto(cs, i).contains(t.1)),
        }),
    decreases i,
{
    if i == 0 {
        assert(cs.take(0) =~= Seq::<ChangeView>::empty());
        assert(added_upto(cs, 0) =~= Set::<NodeId>::empty());
        assert(s.live.difference(Set::<NodeId>::empty()) =~= s.live);
        assert(s.links.filter(|t: (NodeId, NodeId, PatchId)| !added_upto(cs, 0).contains(t.0) && !added_upto(cs, 0).contains(t.1)) =~= s.links);
    } else {
        lemma_unadd_closed(s, cs, p, i - 1);
        lemma_take_step(cs, i - 1);
        lemma_upto_step(cs, p, i - 1);
        let next = unadd_all(s, cs.take(i));
        let want = Skeleton {
            live: s.live.difference(added_upto(cs, i)),
            dead: s.dead,
            links: s.links.filter(|t: (NodeId, NodeId, PatchId)| !added_upto(cs, i).contains(t.0) && !added_upto(cs, i).contains(t.1)),
        };
        match cs[i - 1] {
            ChangeView::NewNode { id, .. } => {
                assert(new_id(cs[i - 1]) == Some(id));
                assert(next.live =~= want.live);
                assert(next.links =~= want.links);
            },
            _ => {
                assert(new_id(cs[i - 1]) is None);
                assert(next.links =~= want.links);
            },
        }
    }
}

/// Unapplying a patch undoes applying it: when the nodes and edges that the patch adds are new
/// to the graggle and it adds each node once, its changes can be unapplied after they were
/// applied, and this gives back the skeleton that the graggle had before. This holds also of a
/// patch that deletes a node it adds itself.
pub proof fn lemma_unapply_undoes_apply(s: Skeleton, cs: Seq<ChangeView>, p: PatchId)
    requires
        s.wf(),
        applicable(s, cs, p),
        reversible(s, cs, p),
    ensures
        unapplicable(apply_all(s, cs, p), cs, p),
        unapply_all(apply_all(s, cs, p), cs, p) == s,
{
    let n = cs.len() as int;
    assert(cs.take(n) =~= cs);
    lemma_apply_closed_app(s, cs, p, n);
    let s1 = apply_all(s, cs, p);
    let nn = added_upto(cs, n);
    let dd = deleted_upto(cs, n);
    let ee = linked_upto(cs, p, n);
    // A deleted node was live when it was deleted: in the graggle before, or added by the patch.
    assert forall|x: NodeId| dd.contains(x) implies s.live.contains(x) || nn.contains(x) by {
        let j = choose|j: int| 0 <= j < n && #[trigger] del_id(cs[j]) == Some(x);
        lemma_apply_closed_app(s, cs, p, j);
        assert(apply_one_ok(apply_all(s, cs.take(j), p), cs[j]));
        if added_upto(cs, j).contains(x) {
            let k = choose|k: int| 0 <= k < j && #[trigger] new_id(cs[k]) == Some(x);
            assert(nn.contains(x));
        }
    }
    assert forall|x: NodeId| nn.contains(x) implies !s.has(x) by {
        let j = choose|j: int| 0 <= j < n && #[trigger] new_id(cs[j]) == Some(x);
    }
    // The first pass.
    assert forall|i: int| 0 <= i < cs.len() implies undo_one_ok(undo_all(s1, cs.take(i), p), #[trigger] cs[i]) by {
        lemma_undo_closed(s1, cs, p, i);
        let u = undo_all(s1, cs.take(i), p);
        match cs[i] {
            ChangeView::DeleteNode { id } => {
                assert(del_id(cs[i]) == Some(id));
                assert(dd.contains(id));
                assert(!deleted_upto(cs, i).contains(id)) by {
                    lemma_apply_closed_app(s, cs, p, i);
                    assert(apply_one_ok(apply_all(s, cs.take(i), p), cs[i]));
                }
            },
            ChangeView::NewEdge { src, dest } => {
                lemma_apply_closed_app(s, cs, p, i);
                assert(apply_one_ok(apply_all(s, cs.take(i), p), cs[i]));
                assert forall|x: NodeId| added_upto(cs, i).contains(x) implies nn.contains(x) by {
                    let j = choose|j: int| 0 <= j < i && #[trigger] new_id(cs[j]) == Some(x);
                }
                assert forall|x: NodeId| deleted_upto(cs, i).contains(x) implies dd.contains(x) by {
                    let j = choose|j: int| 0 <= j < i && #[trigger] del_id(cs[j]) == Some(x);
                }
                assert(u.has(src));
                assert(u.has(dest));
            },
            ChangeView::NewNode { .. } => {},
        }
    }
    lemma_undo_closed(s1, cs, p, n);
    let s2 = undo_all(s1, cs, p);
    assert(s2.live =~= s.live.union(nn));
    assert(s2.dead =~= s.dead) by {
        assert forall|x: NodeId| dd.contains(x) implies !s.dead.contains(x) by {
            if s.live.contains(x) {
                assert(!(s.live.contains(x) && s.dead.contains(x)));
            } else {
                assert(!s.has(x));
            }
        }
    }
    assert(s2.links =~= s.links) by {
        assert forall|t: (NodeId, NodeId, PatchId)| ee.contains(t) implies !s.links.contains(t) by {
            let j = choose|j: int| 0 <= j < n && #[trigger] link_of(cs[j], p) == Some(t);
        }
    }
    // The second pass.
    assert forall|i: int| 0 <= i < cs.len() implies unadd_one_ok(unadd_all(s2, cs.take(i)), #[trigger] cs[i]) by {
        lemma_unadd_closed(s2, cs, p, i);
        match cs[i] {
            ChangeView::NewNode { id, .. } => {
                assert(new_id(cs[i]) == Some(id));
                assert(nn.contains(id));
                assert(!added_upto(cs, i).contains(id)) by {
                    if added_upto(cs, i).contains(id) {
                        let j = choose|j: int| 0 <= j < i && #[trigger] new_id(cs[j]) == Some(id);
                        assert(new_id(cs[j]) != new_id(cs[i]));
                    }
                }
            },
            _ => {},
        }
    }
    lemma_unadd_closed(s2, cs, p, n);
    let s3 = unadd_all(s2, cs);
    assert(s3.live =~= s.live);
    assert(s3.links =~= s.links) by {
        assert forall|t: (NodeId, NodeId, PatchId)| #[trigger] s.links.contains(t) implies !nn.contains(t.0) && !nn.contains(t.1) by {
            assert(s.has(t.0) && s.has(t.1));
        }
    }
}

/// Applies the changes of the patch `patch` to a graggle, one after the other.
#[verifier::spinoff_prover]
#[verifier::rlimit(30)]
pub fn apply_changes(graggle: &mut GraggleData, changes: &Changes, patch: PatchId)
    requires
        old(graggle).wf(),
        applicable(old(graggle)@.skeleton(), changes@, patch),
    ensures
        final(graggle).wf(),
        final(graggle)@.skeleton() == apply_all(old(graggle)@.skeleton(), changes@, patch),
        final(graggle)@.pseudo_rel().subset_of(old(graggle)@.pseudo_rel()),
        changes@.len() > 0 ==> final(graggle).is_dirty(),
{
    let ghost s0 = old(graggle)@.skeleton();
    let ghost cs = changes@;
    let mut i: usize = 0;
    while i < changes.changes.len()
        invariant
            cs == changes@,
            applicable(s0, cs, patch),
            i <= cs.len(),
            graggle.wf(),
            graggle@.skeleton() == apply_all(s0, cs.take(i as int), patch),
            graggle@.pseudo_rel().subset_of(old(graggle)@.pseudo_rel()),
            i > 0 ==> graggle.is_dirty(),
        decreases cs.len() - i,
    {
        proof {
            lemma_take_step(cs, i as int);
            assert(apply_one_ok(apply_all(s0, cs.take(i as int), patch), cs[i as int]));
            assert(cs[i as int] == changes.changes@[i as int]@);
        }
        let ghost before = graggle@.pseudo_rel();
        match &changes.changes[i] {
            Change::NewNode { id, .. } => {
                graggle.add_node(*id);
            },
            Change::DeleteNode { id } => {
                graggle.delete_node(id);
            },
            Change::NewEdge { src, dest } => {
                graggle.add_edge(*src, *dest, patch);
            },
        }
        proof {
            assert(graggle@.pseudo_rel().subset_of(before));
        }
        i = i + 1;
    }
    proof {
        assert(cs.take(cs.len() as int) =~= cs);
    }
}

/// Unapplies the changes of the patch `patch` from a graggle: first the deleted nodes come
/// back and the new edges go, then the new nodes go (an edge must go before its nodes do).
#[verifier::spinoff_prover]
#[verifier::rlimit(30)]
pub fn unapply_changes(graggle: &mut GraggleData, changes: &Changes, patch: PatchId)
    requires
        old(graggle).wf(),
        unapplicable(old(graggle)@.skeleton(), changes@, patch),
    ensures
        final(graggle).wf(),
        final(graggle)@.skeleton() == unapply_all(old(graggle)@.skeleton(), changes@, patch),
        final(graggle)@.pseudo_rel().subset_of(old(graggle)@.pseudo_rel()),
{
    let ghost s0 = old(graggle)@.skeleton();
    let ghost cs = changes@;
    let mut i: usize = 0;
    while i < changes.changes.len()
        invariant
            cs == changes@,
            unapplicable(s0, cs, patch),
            i <= cs.len(),
            graggle.wf(),
            graggle@.skeleton() == undo_all(s0, cs.take(i as int), patch),
            graggle@.pseudo_rel().subset_of(old(graggle)@.pseudo_rel()),
        decreases cs.len() - i,
    {
        proof {
            lemma_take_step(cs, i as int);
            assert(undo_one_ok(undo_all(s0, cs.take(i as int), patch), cs[i as int]));
            assert(cs[i as int] == changes.changes@[i as int]@);
        }
        let ghost before = graggle@.pseudo_rel();
        match &changes.changes[i] {
            Change::DeleteNode { id } => {
                graggle.undelete_node(id);
            },
            Change::NewEdge { src, dest } => {
                graggle.unadd_edge(src, dest, patch);
            },
            Change::NewNode { .. } => {},
        }
        proof {
            assert(graggle@.pseudo_rel().subset_of(before));
        }
        i = i + 1;
    }
    proof {
        assert(cs.take(cs.len() as int) =~= cs);
    }
    let ghost s1 = undo_all(s0, cs, patch);
    let mut i: usize = 0;
    while i < changes.changes.len()
        invariant
            cs == changes@,
            unapplicable(s0, cs, patch),
            s1 == undo_all(s0, cs, patch),
            i <= cs.len(),
            graggle.wf(),
            graggle@.skeleton() == unadd_all(s1, cs.take(i as int)),
            graggle@.pseudo_rel().subset_of(old(graggle)@.pseudo_rel()),
        decreases cs.len() - i,
    {
        proof {
            lemma_take_step(cs, i as int);
            assert(unadd_one_ok(unadd_all(s1, cs.take(i as int)), cs[i as int]));
            assert(cs[i as int] == changes.changes@[i as int]@);
        }
        let ghost before = graggle@.pseudo_rel();
        match &changes.changes[i] {
            Change::NewNode { id, .. } => {
                graggle.unadd_node(id);
            },
            _ => {},
        }
        proof {
            assert(graggle@.pseudo_rel().subset_of(before));
        }
        i = i + 1;
    }
    proof {
        assert(cs.take(cs.len() as int) =~= cs);
    }
}

/// Can the changes of the patch `patch` be applied to `graggle`, one after the other? Each new
/// node must not be a deleted node, each deleted node must be live, and each edge must join two
/// nodes, at the point where the change comes.
#[verifier::spinoff_prover]
pub fn changes_applicable(graggle: &GraggleData, changes: &Changes, patch: PatchId) -> (r: bool)
    requires
        graggle.wf(),
    ensures
        r == applicable(graggle@.skeleton(), changes@, patch),
{
    let ghost s0 = graggle@.skeleton();
    let ghost cs = changes@;
    let mut g = graggle.duplicate();
    let mut i: usize = 0;
    while i < changes.changes.len()
        invariant
            cs == changes@,
            s0 == graggle@.skeleton(),
            i <= cs.len(),
            g.wf(),
            g@.skeleton() == apply_all(s0, cs.take(i as int), patch),
            forall|j: int| 0 <= j < i ==> apply_one_ok(apply_all(s0, cs.take(j), patch), #[trigger] cs[j]),
        decreases cs.len() - i,
    {
        proof {
            lemma_take_step(cs, i as int);
            assert(cs[i as int] == changes.changes@[i as int]@);
        }
        let ok = match &changes.changes[i] {
            Change::NewNode { id, .. } => {
                let v = g.as_graggle();
                !v.has_node(id) || v.is_live(id)
            },
            Change::DeleteNode { id } => {
                let v = g.as_graggle();
                v.has_node(id) && v.is_live(id)
            },
            Change::NewEdge { src, dest } => {
                let v = g.as_graggle();
                v.has_node(src) && v.has_node(dest)
            },
        };
        proof {
            assert(ok == apply_one_ok(apply_all(s0, cs.take(i as int), patch), cs[i as int]));
        }
        if !ok {
            proof {
                assert(!applicable(s0, cs, patch));
            }
            return false;
        }
        match &changes.changes[i] {
            Change::NewNode { id, .. } => {
                g.add_node(*id);
            },
            Change::DeleteNode { id } => {
                g.delete_node(id);
            },
            Change::NewEdge { src, dest } => {
                g.add_edge(*src, *dest, patch);
            },
        }
        i = i + 1;
    }
    true
}

/// Can the changes of the patch `patch` be unapplied from `graggle`? In the first pass each
/// deleted node must be deleted and each edge must join two nodes; in the second, each new
/// node must be live.
#[verifier::spinoff_prover]
#[verifier::rlimit(40)]
pub fn changes_unapplicable(graggle: &GraggleData, changes: &Changes, patch: PatchId) -> (r: bool)
    requires
        graggle.wf(),
    ensures
        r == unapplicable(graggle@.skeleton(), changes@, patch),
{
    let ghost s0 = graggle@.skeleton();
    let ghost cs = changes@;
    let mut g = graggle.duplicate();
    let mut i: usize = 0;
    while i < changes.changes.len()
        invariant
            cs == changes@,
            s0 == graggle@.skeleton(),
            i <= cs.len(),
            g.wf(),
            g@.skeleton() == undo_all(s0, cs.take(i as int), patch),
            forall|j: int| 0 <= j < i ==> undo_one_ok(undo_all(s0, cs.take(j), patch), #[trigger] cs[j]),
        decreases cs.len() - i,
    {
        proof {
            lemma_take_step(cs, i as int);
            assert(cs[i as int] == changes.changes@[i as int]@);
        }
        let ok = match &changes.changes[i] {
            Change::NewNode { .. } => true,
            Change::DeleteNode { id } => {
                let v = g.as_graggle();
                v.has_node(id) && !v.is_live(id)
            },
            Change::NewEdge { src, dest } => {
                let v = g.as_graggle();
                v.has_node(src) && v.has_node(dest)
            },
        };
        proof {
            assert(ok == undo_one_ok(undo_all(s0, cs.take(i as int), patch), cs[i as int]));
        }
        if !ok {
            proof {
                assert(!unapplicable(s0, cs, patch));
            }
            return false;
        }
        match &changes.changes[i] {
            Change::DeleteNode { id } => {
                g.undelete_node(id);
            },
            Change::NewEdge { src, dest } => {
                g.unadd_edge(src, dest, patch);
            },
            Change::NewNode { .. } => {},
        }
        i = i + 1;
    }
    proof {
        assert(cs.take(cs.len() as int) =~= cs);
    }
    let ghost s1 = undo_all(s0, cs, patch);
    let mut i: usize = 0;
    while i < changes.changes.len()
        invariant
            cs == changes@,
            s0 == graggle@.skeleton(),
            s1 == undo_all(s0, cs, patch),
            forall|j: int| 0 <= j < cs.len() ==> undo_one_ok(undo_all(s0, cs.take(j), patch), #[trigger] cs[j]),
            i <= cs.len(),
            g.wf(),
            g@.skeleton() == unadd_all(s1, cs.take(i as int)),
            forall|j: int| 0 <= j < i ==> unadd_one_ok(unadd_all(s1, cs.take(j)), #[trigger] cs[j]),
        decreases cs.len() - i,
    {
        proof {
            lemma_take_step(cs, i as int);
            assert(cs[i as int] == changes.changes@[i as int]@);
        }
        match &changes.changes[i] {
            Change::NewNode { id, .. } => {
                let ok = {
                    let v = g.as_graggle();
                    v.has_node(id) && v.is_live(id)
                };
                if !ok {
                    proof {
                        assert(!unadd_one_ok(unadd_all(s1, cs.take(i as int)), cs[i as int]));
                        assert(!unapplicable(s0, cs, patch));
                    }
                    return false;
                }
                g.unadd_node(id);
            },
            _ => {},
        }
        i = i + 1;
    }
    true
}

} // verus!
