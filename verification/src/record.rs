//! Recording an edit of a file as a patch: when a patch made from a diff between the lines of a
//! totally ordered graggle and a new text is applied, the graggle's lines are the new text.

use vstd::prelude::*;

use crate::apply::{added_upto, applicable, apply_all, apply_one_ok, del_id, deleted_upto, fresh_patch, lemma_apply_closed, link_of, linked_upto, new_id};
use crate::change::{changes_from_diff, diff_fits, last_line_after, line_changes, ChangeView, LastLine};
use crate::diff::{diff_upto, dst_indices, is_valid_diff, keep_ok, lemma_valid_diff_in_range, src_indices, upto, LineDiff};
use crate::file::File;
use crate::graggle::{lemma_skeleton_wf, Edge, GraggleData, GraggleView, Skeleton};
use crate::repo::{file_lines, is_file_order};
use crate::storage::{contents_after, contents_fit};
use crate::resolver::linked;
use crate::ids::{NodeId, PatchId};

verus! {

/// The live nodes `a` and `b` follow each other in the graggle with the skeleton `s`: a real
/// edge, or a pseudo-edge skipping deleted nodes, leads from `a` to `b`.
pub open spec fn slinked(s: Skeleton, a: NodeId, b: NodeId) -> bool {
    s.link(a, b) || s.pseudo_target(a, b)
}

/// `ids` is the order of the lines of the graggle with the skeleton `s`, seen through its real
/// edges and the pseudo-edges that it calls for: its live nodes, each once, each joined to the
/// next, and no edge going backwards.
pub open spec fn skel_order(s: Skeleton, ids: Seq<NodeId>) -> bool {
    &&& ids.no_duplicates()
    &&& forall|n: NodeId| #[trigger] ids.contains(n) <==> s.live.contains(n)
    &&& forall|i: int| 0 <= i < ids.len() - 1 ==> slinked(s, #[trigger] ids[i], ids[i + 1])
    &&& forall|i: int, j: int|
        0 <= i < ids.len() && 0 <= j < ids.len() && slinked(s, #[trigger] ids[i], #[trigger] ids[j]) ==> i < j
}

/// A walk through deleted nodes from a live node to a different live node gives an edge or a
/// pseudo-edge between them.
proof fn lemma_reach_slinked(s: Skeleton, u: NodeId, v: NodeId)
    requires
        s.live.contains(u),
        s.live.contains(v),
        u != v,
        s.reaches(u, v),
    ensures
        slinked(s, u, v),
{
}

/// Along a sequence of real edges of `s` between two live nodes, where the live nodes are in
/// the order `f`, the position of the start is at most that of the end, and below it when the
/// two differ. `k` marks a prefix that is already known to be a walk through deleted nodes.
proof fn lemma_path_forward(s: Skeleton, f: Seq<NodeId>, w: Seq<NodeId>, k: int)
    requires
        s.wf(),
        skel_order(s, f),
        1 <= k < w.len(),
        forall|i: int| 0 <= i < w.len() - 1 ==> #[trigger] s.link(w[i], w[i + 1]),
        s.live.contains(w[0]),
        s.live.contains(w.last()),
        forall|i: int| 1 <= i < k ==> s.dead.contains(#[trigger] w[i]),
    ensures
        forall|a: int, b: int| 0 <= a < f.len() && 0 <= b < f.len() && f[a] == w[0] && f[b] == w.last() ==> a <= b
            && (w[0] != w.last() ==> a < b),
    decreases w.len() - k,
{
    let pre = w.subrange(0, k + 1);
    assert(s.walk(pre)) by {
        assert forall|i: int| 0 <= i < pre.len() - 1 implies #[trigger] s.link(pre[i], pre[i + 1]) by {
            assert(pre[i] == w[i] && pre[i + 1] == w[i + 1]);
        }
        assert forall|i: int| 1 <= i < pre.len() - 1 implies s.dead.contains(#[trigger] pre[i]) by {
            assert(pre[i] == w[i]);
        }
    }
    assert(s.reaches(w[0], w[k]));
    if k == w.len() - 1 {
        if w[0] != w.last() {
            lemma_reach_slinked(s, w[0], w.last());
        }
        assert forall|a: int, b: int| 0 <= a < f.len() && 0 <= b < f.len() && f[a] == w[0] && f[b] == w.last() implies a <= b
            && (w[0] != w.last() ==> a < b) by {
            if w[0] != w.last() {
                assert(slinked(s, f[a], f[b]));
            }
        }
    } else {
        // The node w[k] is a node of `s`: it ends a real edge.
        let j = k - 1;
        assert(s.link(w[j], w[j + 1]));
        let pk = choose|pk: PatchId| #[trigger] s.links.contains((w[j], w[j + 1], pk));
        assert(s.has(w[k]));
        if s.dead.contains(w[k]) {
            lemma_path_forward(s, f, w, k + 1);
        } else {
            let rest = w.subrange(k, w.len() as int);
            assert(rest[0] == w[k]);
            assert(rest.last() == w.last());
            assert forall|i: int| 0 <= i < rest.len() - 1 implies #[trigger] s.link(rest[i], rest[i + 1]) by {
                assert(rest[i] == w[k + i] && rest[i + 1] == w[k + i + 1]);
            }
            lemma_path_forward(s, f, rest, 1);
            assert(f.contains(w[k]));
            let c = choose|c: int| 0 <= c < f.len() && f[c] == w[k];
            if w[0] != w[k] {
                lemma_reach_slinked(s, w[0], w[k]);
            }
            assert forall|a: int, b: int| 0 <= a < f.len() && 0 <= b < f.len() && f[a] == w[0] && f[b] == w.last() implies a <= b
                && (w[0] != w.last() ==> a < b) by {
                if w[0] != w[k] {
                    assert(slinked(s, f[a], f[c]));
                }
            }
        }
    }
}

/// `t` is an edge of the patch `p` between two lines `o[j]` and `o[j + 1]` that follow each
/// other in the new order, one of which is not a line of `f`.
pub open spec fn new_link(f: Seq<NodeId>, o: Seq<NodeId>, p: PatchId, t: (NodeId, NodeId, PatchId)) -> bool {
    exists|j: int| 0 <= j < o.len() - 1 && t == (#[trigger] o[j], o[j + 1], p) && (!f.contains(o[j]) || !f.contains(o[j + 1]))
}

/// `s2` is what the skeleton `s`, whose lines are in the order `f`, becomes when they are
/// edited into the lines `o`: the lines of `f` that `o` keeps stay live, in the same order;
/// the other lines of `f` are deleted; the lines of `o` that are not in `f` are new, and each
/// is joined by an edge of the patch `p` to the lines next to it.
pub open spec fn edited(s: Skeleton, f: Seq<NodeId>, o: Seq<NodeId>, p: PatchId, s2: Skeleton) -> bool {
    &&& o.no_duplicates()
    &&& forall|n: NodeId| #[trigger] o.contains(n) && !f.contains(n) ==> !s.has(n)
    &&& forall|a: int, b: int, i: int, j: int|
        #![trigger o[a], o[b], f[i], f[j]]
        0 <= a < b < o.len() && 0 <= i < f.len() && 0 <= j < f.len() && o[a] == f[i] && o[b] == f[j] ==> i < j
    &&& forall|n: NodeId| #[trigger] s2.live.contains(n) <==> o.contains(n)
    &&& forall|n: NodeId| #[trigger] s2.dead.contains(n) <==> s.dead.contains(n) || (f.contains(n) && !o.contains(n))
    &&& forall|t: (NodeId, NodeId, PatchId)| #[trigger] s2.links.contains(t) <==> s.links.contains(t) || new_link(f, o, p, t)
}

/// The lines `f[i]` to `f[c]` are joined in `s2` by a walk through deleted nodes, when the lines
/// between them are deleted in `s2` and the edges of `s` are edges of `s2`.
proof fn lemma_walk_along(s: Skeleton, s2: Skeleton, f: Seq<NodeId>, i: int, c: int)
    requires
        skel_order(s, f),
        0 <= i < c < f.len(),
        s.dead.subset_of(s2.dead),
        s.links.subset_of(s2.links),
        forall|m: int| i < m < c ==> s2.dead.contains(#[trigger] f[m]),
    ensures
        s2.reaches(f[i], f[c]),
    decreases c - i,
{
    let m = c - 1;
    assert(slinked(s, f[m], f[m + 1]));
    let seg: Seq<NodeId> = if s.link(f[m], f[m + 1]) {
        seq![f[m], f[m + 1]]
    } else {
        choose|q: Seq<NodeId>| #[trigger] s.walk(q) && q[0] == f[m] && q.last() == f[m + 1]
    };
    assert(s.walk(seg) && seg[0] == f[m] && seg.last() == f[c]) by {
        if s.link(f[m], f[m + 1]) {
            assert(seg[0] == f[m] && seg[1] == f[m + 1]);
            assert(s.link(seg[0], seg[1]));
        }
    }
    assert forall|x: int| 0 <= x < seg.len() - 1 implies #[trigger] s2.link(seg[x], seg[x + 1]) by {
        assert(s.link(seg[x], seg[x + 1]));
        let q = choose|q: PatchId| #[trigger] s.links.contains((seg[x], seg[x + 1], q));
        assert(s2.links.contains((seg[x], seg[x + 1], q)));
    }
    if m == i {
        assert(s2.walk(seg));
    } else {
        lemma_walk_along(s, s2, f, i, m);
        let pre = choose|q: Seq<NodeId>| #[trigger] s2.walk(q) && q[0] == f[i] && q.last() == f[m];
        let w = pre + seg.drop_first();
        assert(w[0] == f[i]);
        assert(w.last() == f[c]);
        assert forall|x: int| 0 <= x < w.len() - 1 implies #[trigger] s2.link(w[x], w[x + 1]) by {
            if x < pre.len() - 1 {
                assert(w[x] == pre[x] && w[x + 1] == pre[x + 1]);
            } else if x == pre.len() - 1 {
                assert(w[x] == f[m] && w[x + 1] == seg[1]);
                assert(s2.link(seg[0], seg[1]));
            } else {
                let y = x - pre.len() + 1;
                assert(w[x] == seg[y] && w[x + 1] == seg[y + 1]);
            }
        }
        assert forall|x: int| 1 <= x < w.len() - 1 implies s2.dead.contains(#[trigger] w[x]) by {
            if x < pre.len() - 1 {
                assert(w[x] == pre[x]);
            } else if x == pre.len() - 1 {
                assert(w[x] == f[m]);
            } else {
                let y = x - pre.len() + 1;
                assert(w[x] == seg[y]);
                assert(s.dead.contains(seg[y]));
            }
        }
        assert(s2.walk(w));
    }
}

/// Kept lines keep their order, both ways; lines of `o` that were in `s` are lines of `f`;
/// and no line is both live and deleted in `s2`.
proof fn lemma_edited_basics(s: Skeleton, f: Seq<NodeId>, o: Seq<NodeId>, p: PatchId, s2: Skeleton)
    requires
        s.wf(),
        skel_order(s, f),
        edited(s, f, o, p, s2),
    ensures
        forall|n: NodeId| o.contains(n) && s.has(n) ==> f.contains(n) && s.live.contains(n),
        forall|n: NodeId| !(#[trigger] s2.live.contains(n) && s2.dead.contains(n)),
        forall|a: int, b: int, i: int, j: int|
            #![trigger o[a], o[b], f[i], f[j]]
            0 <= a < o.len() && 0 <= b < o.len() && 0 <= i < f.len() && 0 <= j < f.len() && o[a] == f[i] && o[b] == f[j]
            && i < j ==> a < b,
{
    assert forall|n: NodeId| !(#[trigger] s2.live.contains(n) && s2.dead.contains(n)) by {
        if s2.live.contains(n) && s.dead.contains(n) {
            assert(s.has(n));
        }
    }
    assert forall|a: int, b: int, i: int, j: int|
        #![trigger o[a], o[b], f[i], f[j]]
        0 <= a < o.len() && 0 <= b < o.len() && 0 <= i < f.len() && 0 <= j < f.len() && o[a] == f[i] && o[b] == f[j]
        && i < j implies a < b by {
        if a == b {
            assert(f[i] == f[j]);
        } else if b < a {
            assert(o[b] == f[j] && o[a] == f[i]);
        }
    }
}

/// In the edited skeleton, each line of `o` is joined to the next.
proof fn lemma_edited_consecutive(s: Skeleton, f: Seq<NodeId>, o: Seq<NodeId>, p: PatchId, s2: Skeleton, j: int)
    requires
        s.wf(),
        skel_order(s, f),
        edited(s, f, o, p, s2),
        0 <= j < o.len() - 1,
    ensures
        slinked(s2, o[j], o[j + 1]),
{
    lemma_edited_basics(s, f, o, p, s2);
    let x = o[j];
    let y = o[j + 1];
    if !f.contains(x) || !f.contains(y) {
        assert(new_link(f, o, p, (x, y, p)));
        assert(s2.links.contains((x, y, p)));
    } else {
        let i1 = choose|i1: int| 0 <= i1 < f.len() && f[i1] == x;
        let i2 = choose|i2: int| 0 <= i2 < f.len() && f[i2] == y;
        assert(o[j] == f[i1] && o[j + 1] == f[i2]);
        assert(i1 < i2) by {
            if i2 < i1 {
                assert(o[j + 1] == f[i2] && o[j] == f[i1]);
            } else if i1 == i2 {
                assert(o[j] != o[j + 1]);
            }
        }
        assert forall|m: int| i1 < m < i2 implies s2.dead.contains(#[trigger] f[m]) by {
            if o.contains(f[m]) {
                let c = choose|c: int| 0 <= c < o.len() && o[c] == f[m];
                assert(o[c] == f[m]);
                if c <= j {
                    if c == j {
                        assert(f[m] == f[i1]);
                    }
                } else if c >= j + 1 {
                    if c == j + 1 {
                        assert(f[m] == f[i2]);
                    }
                }
            }
            assert(f.contains(f[m]));
        }
        assert(s.dead.subset_of(s2.dead));
        assert(s.links.subset_of(s2.links));
        lemma_walk_along(s, s2, f, i1, i2);
        assert(o.contains(x) && o.contains(y));
        assert(x != y) by {
            assert(o[j] != o[j + 1]);
        }
        lemma_reach_slinked(s2, x, y);
    }
}

/// Two lines of `o` joined by an edge of `s` come in the same order in `o` as in `f`.
proof fn lemma_edited_old_link(s: Skeleton, f: Seq<NodeId>, o: Seq<NodeId>, p: PatchId, s2: Skeleton, a: int, b: int)
    requires
        s.wf(),
        skel_order(s, f),
        edited(s, f, o, p, s2),
        0 <= a < o.len(),
        0 <= b < o.len(),
        s.link(o[a], o[b]),
    ensures
        a < b,
{
    let x = o[a];
    let y = o[b];
    let q = choose|q: PatchId| #[trigger] s.links.contains((x, y, q));
    assert(s.has(x) && s.has(y));
    assert(o.contains(x) && o.contains(y));
    assert(f.contains(x) && f.contains(y));
    let i1 = choose|i1: int| 0 <= i1 < f.len() && f[i1] == x;
    let i2 = choose|i2: int| 0 <= i2 < f.len() && f[i2] == y;
    assert(slinked(s, f[i1], f[i2]));
    assert(i1 < i2);
    if b <= a {
        if a == b {
            assert(f[i1] == f[i2]);
        } else {
            assert(o[b] == f[i2] && o[a] == f[i1]);
        }
    }
}

/// In the edited skeleton, no real edge goes backwards along `o`.
#[verifier::rlimit(40)]
#[verifier::spinoff_prover]
proof fn lemma_edited_forward_link(s: Skeleton, f: Seq<NodeId>, o: Seq<NodeId>, p: PatchId, s2: Skeleton, a: int, b: int)
    requires
        s.wf(),
        skel_order(s, f),
        edited(s, f, o, p, s2),
        0 <= a < o.len(),
        0 <= b < o.len(),
        s2.link(o[a], o[b]),
    ensures
        a < b,
{
    let x = o[a];
    let y = o[b];
    let q = choose|q: PatchId| #[trigger] s2.links.contains((x, y, q));
    if new_link(f, o, p, (x, y, q)) {
        let j = choose|j: int| 0 <= j < o.len() - 1 && (x, y, q) == (#[trigger] o[j], o[j + 1], p)
            && (!f.contains(o[j]) || !f.contains(o[j + 1]));
        assert(o[a] == o[j]);
        assert(o[b] == o[j + 1]);
    } else {
        assert(s.links.contains((x, y, q)));
        lemma_edited_old_link(s, f, o, p, s2, a, b);
    }
}

/// A walk through deleted nodes of the edited skeleton, from one line to another, uses only
/// edges of `s`.
proof fn lemma_edited_walk_old(s: Skeleton, f: Seq<NodeId>, o: Seq<NodeId>, p: PatchId, s2: Skeleton, w: Seq<NodeId>)
    requires
        s.wf(),
        skel_order(s, f),
        edited(s, f, o, p, s2),
        s2.walk(w),
        w.len() >= 3,
    ensures
        forall|i: int| 0 <= i < w.len() - 1 ==> #[trigger] s.link(w[i], w[i + 1]),
{
    lemma_edited_basics(s, f, o, p, s2);
    assert forall|i: int| 0 <= i < w.len() - 1 implies #[trigger] s.link(w[i], w[i + 1]) by {
        assert(s2.link(w[i], w[i + 1]));
        let q = choose|q: PatchId| #[trigger] s2.links.contains((w[i], w[i + 1], q));
        if new_link(f, o, p, (w[i], w[i + 1], q)) {
            let j = choose|j: int| 0 <= j < o.len() - 1 && (w[i], w[i + 1], q) == (#[trigger] o[j], o[j + 1], p)
                && (!f.contains(o[j]) || !f.contains(o[j + 1]));
            assert(o.contains(o[j]) && o.contains(o[j + 1]));
            if i >= 1 {
                assert(s2.dead.contains(w[i]));
                assert(s2.live.contains(w[i]));
            } else {
                assert(s2.dead.contains(w[1]));
                assert(s2.live.contains(w[1]));
            }
        } else {
            assert(s.links.contains((w[i], w[i + 1], q)));
        }
    }
}

/// In the edited skeleton, no edge or pseudo-edge goes backwards along `o`.
proof fn lemma_edited_forward(s: Skeleton, f: Seq<NodeId>, o: Seq<NodeId>, p: PatchId, s2: Skeleton, a: int, b: int)
    requires
        s.wf(),
        skel_order(s, f),
        edited(s, f, o, p, s2),
        0 <= a < o.len(),
        0 <= b < o.len(),
        slinked(s2, o[a], o[b]),
    ensures
        a < b,
{
    let x = o[a];
    let y = o[b];
    if s2.link(x, y) {
        lemma_edited_forward_link(s, f, o, p, s2, a, b);
    } else {
        lemma_edited_basics(s, f, o, p, s2);
        let w = choose|w: Seq<NodeId>| #[trigger] s2.walk(w) && w[0] == x && w.last() == y;
        assert(w.len() >= 3) by {
            if w.len() == 2 {
                let z = 0int;
                assert(s2.link(w[z], w[z + 1]));
                assert(w[z + 1] == w.last());
            }
        }
        lemma_edited_walk_old(s, f, o, p, s2, w);
        let k = 0int;
        assert(s.link(w[k], w[k + 1]));
        let q0 = choose|q: PatchId| #[trigger] s.links.contains((w[k], w[k + 1], q));
        assert(s.has(x));
        let km = w.len() - 2;
        assert(s.link(w[km], w[km + 1]));
        let q1 = choose|q: PatchId| #[trigger] s.links.contains((w[km], w[km + 1], q));
        assert(s.has(y));
        assert(o.contains(x) && o.contains(y));
        lemma_path_forward(s, f, w, 1);
        let i1 = choose|i1: int| 0 <= i1 < f.len() && f[i1] == x;
        let i2 = choose|i2: int| 0 <= i2 < f.len() && f[i2] == y;
        assert(i1 < i2);
        assert(o[a] == f[i1] && o[b] == f[i2]);
    }
}

/// Editing the lines of a graggle gives a graggle whose lines are the edited ones, in their
/// order: when the live lines of a skeleton are in the order `f` and they are edited into the
/// lines `o` (old lines kept in their order, the others deleted, new lines joined to their
/// neighbours), the live lines of the result are in the order `o`.
pub proof fn lemma_edited_order(s: Skeleton, f: Seq<NodeId>, o: Seq<NodeId>, p: PatchId, s2: Skeleton)
    requires
        s.wf(),
        skel_order(s, f),
        edited(s, f, o, p, s2),
    ensures
        skel_order(s2, o),
{
    assert forall|j: int| 0 <= j < o.len() - 1 implies slinked(s2, #[trigger] o[j], o[j + 1]) by {
        lemma_edited_consecutive(s, f, o, p, s2, j);
    }
    assert forall|a: int, b: int| 0 <= a < o.len() && 0 <= b < o.len() && slinked(s2, #[trigger] o[a], #[trigger] o[b])
        implies a < b by {
        lemma_edited_forward(s, f, o, p, s2, a, b);
    }
}

/// The nodes of the lines after the edit `d`, in order: a kept line is its node `old[i]`, and
/// a new line `j` is the node `new[j]`.
pub open spec fn diff_output(old: Seq<NodeId>, new: Seq<NodeId>, d: Seq<LineDiff>) -> Seq<NodeId>
    decreases d.len(),
{
    if d.len() == 0 {
        Seq::empty()
    } else {
        let o = diff_output(old, new, d.drop_last());
        match d.last() {
            LineDiff::New(j) => o.push(new[j as int]),
            LineDiff::Keep(i, _) => o.push(old[i as int]),
            LineDiff::Delete(_) => o,
        }
    }
}

/// `n` is one of the first `k` nodes of `v`.
pub open spec fn among_first(v: Seq<NodeId>, k: int, n: NodeId) -> bool {
    exists|i: int| 0 <= i < k && #[trigger] v[i] == n
}

/// The two sequences have no node in common.
pub open spec fn apart(a: Seq<NodeId>, b: Seq<NodeId>) -> bool {
    forall|i: int, j: int| 0 <= i < a.len() && 0 <= j < b.len() ==> #[trigger] a[i] != #[trigger] b[j]
}

proof fn lemma_upto_pop(s: Seq<int>, x: int, n: int)
    requires
        0 <= n,
        s.push(x) == upto(n),
    ensures
        n >= 1,
        s == upto(n - 1),
        x == n - 1,
{
    assert(s.push(x).len() == n);
    assert(s =~= s.push(x).drop_last());
    assert(upto(n).drop_last() =~= upto(n - 1));
    assert(s.push(x).last() == x);
}

/// What the lines after a diff are made of: one node per line of the new file, each either
/// its new node or one of the old lines mentioned so far, each once, and the old lines in
/// their old order.
proof fn lemma_output_facts(old: Seq<NodeId>, new: Seq<NodeId>, d: Seq<LineDiff>, pa: int, pb: int)
    requires
        old.no_duplicates(),
        new.no_duplicates(),
        apart(old, new),
        src_indices(d) == upto(pa),
        dst_indices(d) == upto(pb),
        0 <= pa <= old.len(),
        0 <= pb <= new.len(),
    ensures
        diff_output(old, new, d).len() == pb,
        forall|j: int| 0 <= j < pb ==> #[trigger] diff_output(old, new, d)[j] == new[j]
            || among_first(old, pa, diff_output(old, new, d)[j]),
        diff_output(old, new, d).no_duplicates(),
        forall|a: int, b: int, i: int, k: int|
            #![trigger diff_output(old, new, d)[a], diff_output(old, new, d)[b], old[i], old[k]]
            0 <= a < b < pb && 0 <= i < old.len() && 0 <= k < old.len()
            && diff_output(old, new, d)[a] == old[i] && diff_output(old, new, d)[b] == old[k] ==> i < k,
    decreases d.len(),
{
    let o = diff_output(old, new, d);
    if d.len() == 0 {
        assert(upto(pa).len() == 0);
        assert(upto(pb).len() == 0);
    } else {
        let dp = d.drop_last();
        let op = diff_output(old, new, dp);
        match d.last() {
            LineDiff::New(j) => {
                assert(src_indices(d) == src_indices(dp));
                lemma_upto_pop(dst_indices(dp), j as int, pb);
                lemma_output_facts(old, new, dp, pa, pb - 1);
                assert(o == op.push(new[j as int]));
                assert forall|x: int| 0 <= x < pb implies #[trigger] o[x] == new[x] || among_first(old, pa, o[x]) by {
                    if x < pb - 1 {
                        assert(o[x] == op[x]);
                    }
                }
                assert(o.no_duplicates()) by {
                    assert forall|x: int, y: int| 0 <= x < y < o.len() implies o[x] != o[y] by {
                        if y == pb - 1 {
                            assert(o[y] == new[pb - 1]);
                            assert(o[x] == op[x]);
                            if op[x] == new[x] {
                                assert(new[x] != new[pb - 1]);
                            } else {
                                let i = choose|i: int| 0 <= i < pa && #[trigger] old[i] == op[x];
                                assert(old[i] != new[pb - 1]);
                            }
                        } else {
                            assert(o[x] == op[x] && o[y] == op[y]);
                        }
                    }
                }
                assert forall|a: int, b: int, i: int, k: int|
                    #![trigger o[a], o[b], old[i], old[k]]
                    0 <= a < b < pb && 0 <= i < old.len() && 0 <= k < old.len() && o[a] == old[i] && o[b] == old[k] implies i < k by {
                    assert(o[a] == op[a]);
                    if b == pb - 1 {
                        assert(old[k] != new[pb - 1]);
                    } else {
                        assert(o[b] == op[b]);
                    }
                }
            },
            LineDiff::Delete(i0) => {
                assert(dst_indices(d) == dst_indices(dp));
                lemma_upto_pop(src_indices(dp), i0 as int, pa);
                lemma_output_facts(old, new, dp, pa - 1, pb);
                assert(o == op);
                assert forall|x: int| 0 <= x < pb implies #[trigger] o[x] == new[x] || among_first(old, pa, o[x]) by {
                    if o[x] != new[x] {
                        let i = choose|i: int| 0 <= i < pa - 1 && #[trigger] old[i] == op[x];
                        assert(old[i] == o[x]);
                    }
                }
            },
            LineDiff::Keep(i0, j0) => {
                lemma_upto_pop(src_indices(dp), i0 as int, pa);
                lemma_upto_pop(dst_indices(dp), j0 as int, pb);
                lemma_output_facts(old, new, dp, pa - 1, pb - 1);
                assert(o == op.push(old[i0 as int]));
                assert forall|x: int| 0 <= x < pb implies #[trigger] o[x] == new[x] || among_first(old, pa, o[x]) by {
                    if x < pb - 1 {
                        assert(o[x] == op[x]);
                        if o[x] != new[x] {
                            let i = choose|i: int| 0 <= i < pa - 1 && #[trigger] old[i] == op[x];
                            assert(old[i] == o[x]);
                        }
                    } else {
                        assert(old[pa - 1] == o[x]);
                    }
                }
                assert(o.no_duplicates()) by {
                    assert forall|x: int, y: int| 0 <= x < y < o.len() implies o[x] != o[y] by {
                        if y == pb - 1 {
                            assert(o[y] == old[pa - 1]);
                            assert(o[x] == op[x]);
                            if op[x] == new[x] {
                                assert(old[pa - 1] != new[x]);
                            } else {
                                let i = choose|i: int| 0 <= i < pa - 1 && #[trigger] old[i] == op[x];
                                assert(old[i] != old[pa - 1]);
                            }
                        } else {
                            assert(o[x] == op[x] && o[y] == op[y]);
                        }
                    }
                }
                assert forall|a: int, b: int, i: int, k: int|
                    #![trigger o[a], o[b], old[i], old[k]]
                    0 <= a < b < pb && 0 <= i < old.len() && 0 <= k < old.len() && o[a] == old[i] && o[b] == old[k] implies i < k by {
                    assert(o[a] == op[a]);
                    if b == pb - 1 {
                        assert(old[k] == old[pa - 1]);
                        assert(k == pa - 1);
                        if op[a] == new[a] {
                            assert(old[i] != new[a]);
                        } else {
                            let i2 = choose|i2: int| 0 <= i2 < pa - 1 && #[trigger] old[i2] == op[a];
                            assert(i2 == i);
                        }
                    } else {
                        assert(o[b] == op[b]);
                    }
                }
            },
        }
    }
}

/// The previous line after the lines `o`, as a diff walk records it: none, an old line of
/// `old`, or a new one.
pub open spec fn last_of(old: Seq<NodeId>, o: Seq<NodeId>) -> LastLine {
    if o.len() == 0 {
        LastLine::Start
    } else if old.contains(o.last()) {
        LastLine::File1(o.last())
    } else {
        LastLine::File2(o.last())
    }
}

/// The nodes that all of `cs` adds, deletes, and the edges that it adds as part of `q`.
pub open spec fn all_added(cs: Seq<ChangeView>) -> Set<NodeId> {
    added_upto(cs, cs.len() as int)
}

pub open spec fn all_deleted(cs: Seq<ChangeView>) -> Set<NodeId> {
    deleted_upto(cs, cs.len() as int)
}

pub open spec fn all_linked(cs: Seq<ChangeView>, q: PatchId) -> Set<(NodeId, NodeId, PatchId)> {
    linked_upto(cs, q, cs.len() as int)
}

proof fn lemma_all_concat(c1: Seq<ChangeView>, c2: Seq<ChangeView>, q: PatchId)
    ensures
        all_added(c1 + c2) == all_added(c1).union(all_added(c2)),
        all_deleted(c1 + c2) == all_deleted(c1).union(all_deleted(c2)),
        all_linked(c1 + c2, q) == all_linked(c1, q).union(all_linked(c2, q)),
{
    let c = c1 + c2;
    let n1 = c1.len() as int;
    assert forall|n: NodeId| all_added(c).contains(n) <==> all_added(c1).union(all_added(c2)).contains(n) by {
        if all_added(c).contains(n) {
            let k = choose|k: int| 0 <= k < c.len() && #[trigger] new_id(c[k]) == Some(n);
            if k < n1 {
                assert(c[k] == c1[k]);
            } else {
                assert(c[k] == c2[k - n1]);
            }
        }
        if all_added(c1).contains(n) {
            let k = choose|k: int| 0 <= k < c1.len() && #[trigger] new_id(c1[k]) == Some(n);
            assert(c[k] == c1[k]);
        }
        if all_added(c2).contains(n) {
            let k = choose|k: int| 0 <= k < c2.len() && #[trigger] new_id(c2[k]) == Some(n);
            assert(c[k + n1] == c2[k]);
        }
    }
    assert(all_added(c) =~= all_added(c1).union(all_added(c2)));
    assert forall|n: NodeId| all_deleted(c).contains(n) <==> all_deleted(c1).union(all_deleted(c2)).contains(n) by {
        if all_deleted(c).contains(n) {
            let k = choose|k: int| 0 <= k < c.len() && #[trigger] del_id(c[k]) == Some(n);
            if k < n1 {
                assert(c[k] == c1[k]);
            } else {
                assert(c[k] == c2[k - n1]);
            }
        }
        if all_deleted(c1).contains(n) {
            let k = choose|k: int| 0 <= k < c1.len() && #[trigger] del_id(c1[k]) == Some(n);
            assert(c[k] == c1[k]);
        }
        if all_deleted(c2).contains(n) {
            let k = choose|k: int| 0 <= k < c2.len() && #[trigger] del_id(c2[k]) == Some(n);
            assert(c[k + n1] == c2[k]);
        }
    }
    assert(all_deleted(c) =~= all_deleted(c1).union(all_deleted(c2)));
    assert forall|t: (NodeId, NodeId, PatchId)| all_linked(c, q).contains(t) <==> all_linked(c1, q).union(all_linked(c2, q)).contains(t) by {
        if all_linked(c, q).contains(t) {
            let k = choose|k: int| 0 <= k < c.len() && #[trigger] link_of(c[k], q) == Some(t);
            if k < n1 {
                assert(c[k] == c1[k]);
            } else {
                assert(c[k] == c2[k - n1]);
            }
        }
        if all_linked(c1, q).contains(t) {
            let k = choose|k: int| 0 <= k < c1.len() && #[trigger] link_of(c1[k], q) == Some(t);
            assert(c[k] == c1[k]);
        }
        if all_linked(c2, q).contains(t) {
            let k = choose|k: int| 0 <= k < c2.len() && #[trigger] link_of(c2[k], q) == Some(t);
            assert(c[k + n1] == c2[k]);
        }
    }
    assert(all_linked(c, q) =~= all_linked(c1, q).union(all_linked(c2, q)));
}

/// The changes made from the diff `d` add the new lines of its output, delete the first `pa`
/// old lines that it does not keep, and join each new line to the lines next to it; and the
/// previous line after `d` is the last line of its output.
pub open spec fn changes_ok(f1: File, f2: File, d: Seq<LineDiff>, q: PatchId, pa: int) -> bool {
    let old = f1.spec_ids();
    let o = diff_output(old, f2.spec_ids(), d);
    let cs = changes_from_diff(f1, f2, d);
    &&& last_line_after(f1, f2, d) == last_of(old, o)
    &&& forall|n: NodeId| #[trigger] all_added(cs).contains(n) <==> o.contains(n) && !old.contains(n)
    &&& forall|n: NodeId| #[trigger] all_deleted(cs).contains(n) <==> among_first(old, pa, n) && !o.contains(n)
    &&& forall|t: (NodeId, NodeId, PatchId)| #[trigger] all_linked(cs, q).contains(t) <==> new_link(old, o, q, t)
}

/// Adding the line `x` to the end of the output `op` adds it to the new lines when it is not
/// an old line.
proof fn lemma_push_added(old: Seq<NodeId>, op: Seq<NodeId>, x: NodeId, ap: Set<NodeId>, a: Set<NodeId>)
    requires
        forall|n: NodeId| #[trigger] ap.contains(n) <==> op.contains(n) && !old.contains(n),
        a == (if old.contains(x) { ap } else { ap.insert(x) }),
    ensures
        forall|n: NodeId| #[trigger] a.contains(n) <==> op.push(x).contains(n) && !old.contains(n),
{
    let o = op.push(x);
    assert forall|n: NodeId| #[trigger] a.contains(n) <==> o.contains(n) && !old.contains(n) by {
        if o.contains(n) && n != x {
            let k = choose|k: int| 0 <= k < o.len() && o[k] == n;
            assert(op[k] == n);
        }
        if op.contains(n) {
            let k = choose|k: int| 0 <= k < op.len() && op[k] == n;
            assert(o[k] == n);
        }
        assert(o[o.len() - 1] == x);
    }
}

/// Adding the line `x` to the end of the output `op` joins it to the line before when one of
/// the two is new.
#[verifier::spinoff_prover]
#[verifier::rlimit(30)]
proof fn lemma_push_links(
    old: Seq<NodeId>,
    op: Seq<NodeId>,
    x: NodeId,
    q: PatchId,
    lp: Set<(NodeId, NodeId, PatchId)>,
    l: Set<(NodeId, NodeId, PatchId)>,
)
    requires
        forall|t: (NodeId, NodeId, PatchId)| #[trigger] lp.contains(t) <==> new_link(old, op, q, t),
        l == (if op.len() > 0 && (!old.contains(op.last()) || !old.contains(x)) {
            lp.insert((op.last(), x, q))
        } else {
            lp
        }),
    ensures
        forall|t: (NodeId, NodeId, PatchId)| #[trigger] l.contains(t) <==> new_link(old, op.push(x), q, t),
{
    let o = op.push(x);
    assert forall|t: (NodeId, NodeId, PatchId)| #[trigger] l.contains(t) <==> new_link(old, o, q, t) by {
        if new_link(old, op, q, t) {
            let k = choose|k: int| 0 <= k < op.len() - 1 && t == (#[trigger] op[k], op[k + 1], q)
                && (!old.contains(op[k]) || !old.contains(op[k + 1]));
            assert(o[k] == op[k] && o[k + 1] == op[k + 1]);
        }
        if op.len() > 0 && (!old.contains(op.last()) || !old.contains(x)) && t == (op.last(), x, q) {
            let k = op.len() - 1;
            assert(o[k] == op.last() && o[k + 1] == x);
        }
        if new_link(old, o, q, t) {
            let k = choose|k: int| 0 <= k < o.len() - 1 && t == (#[trigger] o[k], o[k + 1], q)
                && (!old.contains(o[k]) || !old.contains(o[k + 1]));
            if k < op.len() - 1 {
                assert(op[k] == o[k] && op[k + 1] == o[k + 1]);
                assert(new_link(old, op, q, t));
            } else {
                assert(o[k] == op.last() && o[k + 1] == x);
            }
        }
    }
}

proof fn lemma_changes_step_new(f1: File, f2: File, d: Seq<LineDiff>, pa: int, pb: int, q: PatchId, j: usize)
    requires
        f1.spec_ids().no_duplicates(),
        f2.spec_ids().no_duplicates(),
        apart(f1.spec_ids(), f2.spec_ids()),
        0 <= pa <= f1.spec_ids().len(),
        0 <= pb <= f2.spec_ids().len(),
        d.len() > 0,
        d.last() == LineDiff::New(j),
        j == pb - 1,
        src_indices(d.drop_last()) == upto(pa),
        dst_indices(d.drop_last()) == upto(pb - 1),
        changes_ok(f1, f2, d.drop_last(), q, pa),
    ensures
        changes_ok(f1, f2, d, q, pa),
{
    let old = f1.spec_ids();
    let new = f2.spec_ids();
    let dp = d.drop_last();
    let op = diff_output(old, new, dp);
    let o = diff_output(old, new, d);
    let csp = changes_from_diff(f1, f2, dp);
    let cs = changes_from_diff(f1, f2, d);
    let last = last_line_after(f1, f2, dp);
    let lc = line_changes(f1, f2, last, d.last());
    lemma_output_facts(old, new, dp, pa, pb - 1);
    let nj = new[j as int];
    assert(o == op.push(nj));
    assert(!old.contains(nj)) by {
        if old.contains(nj) {
            let i = choose|i: int| 0 <= i < old.len() && old[i] == nj;
        }
    }
    assert(!op.contains(nj)) by {
        if op.contains(nj) {
            let x = choose|x: int| 0 <= x < op.len() && op[x] == nj;
            if op[x] == new[x] {
                assert(new[x] != new[j as int]);
            } else {
                let i = choose|i: int| 0 <= i < pa && #[trigger] old[i] == op[x];
            }
        }
    }
    assert(cs == csp + lc);
    lemma_all_concat(csp, lc, q);
    assert(last == last_of(old, op));
    assert(new_id(lc[0]) == Some(nj));
    assert(all_added(lc) =~= set![nj]) by {
        assert forall|n: NodeId| all_added(lc).contains(n) implies n == nj by {
            let k = choose|k: int| 0 <= k < lc.len() && #[trigger] new_id(lc[k]) == Some(n);
        }
    }
    assert(all_deleted(lc) =~= Set::<NodeId>::empty()) by {
        assert forall|n: NodeId| !all_deleted(lc).contains(n) by {
            if all_deleted(lc).contains(n) {
                let k = choose|k: int| 0 <= k < lc.len() && #[trigger] del_id(lc[k]) == Some(n);
            }
        }
    }
    let ll: Set<(NodeId, NodeId, PatchId)> = if op.len() > 0 { set![(op.last(), nj, q)] } else { Set::empty() };
    assert(all_linked(lc, q) =~= ll) by {
        if op.len() > 0 {
            assert(link_of(lc[1], q) == Some((op.last(), nj, q)));
        }
        assert forall|t: (NodeId, NodeId, PatchId)| all_linked(lc, q).contains(t) implies ll.contains(t) by {
            let k = choose|k: int| 0 <= k < lc.len() && #[trigger] link_of(lc[k], q) == Some(t);
        }
    }
    assert(all_added(cs) == all_added(csp).insert(nj));
    lemma_push_added(old, op, nj, all_added(csp), all_added(cs));
    assert(all_linked(cs, q) =~= (if op.len() > 0 && (!old.contains(op.last()) || !old.contains(nj)) {
        all_linked(csp, q).insert((op.last(), nj, q))
    } else {
        all_linked(csp, q)
    }));
    lemma_push_links(old, op, nj, q, all_linked(csp, q), all_linked(cs, q));
    assert(all_deleted(cs) =~= all_deleted(csp));
    assert forall|n: NodeId| #[trigger] all_deleted(cs).contains(n) <==> among_first(old, pa, n) && !o.contains(n) by {
        if among_first(old, pa, n) {
            let i = choose|i: int| 0 <= i < pa && #[trigger] old[i] == n;
            assert(old.contains(n));
            if op.contains(n) {
                let x = choose|x: int| 0 <= x < op.len() && op[x] == n;
                assert(o[x] == n);
            }
            if o.contains(n) {
                let x = choose|x: int| 0 <= x < o.len() && o[x] == n;
                if x < op.len() {
                    assert(op[x] == n);
                }
            }
        }
    }
    assert(o.last() == nj);
}

proof fn lemma_changes_step_delete(f1: File, f2: File, d: Seq<LineDiff>, pa: int, pb: int, q: PatchId, i0: usize)
    requires
        f1.spec_ids().no_duplicates(),
        f2.spec_ids().no_duplicates(),
        apart(f1.spec_ids(), f2.spec_ids()),
        0 <= pa <= f1.spec_ids().len(),
        0 <= pb <= f2.spec_ids().len(),
        d.len() > 0,
        d.last() == LineDiff::Delete(i0),
        i0 == pa - 1,
        src_indices(d.drop_last()) == upto(pa - 1),
        dst_indices(d.drop_last()) == upto(pb),
        changes_ok(f1, f2, d.drop_last(), q, pa - 1),
    ensures
        changes_ok(f1, f2, d, q, pa),
{
    let old = f1.spec_ids();
    let new = f2.spec_ids();
    let dp = d.drop_last();
    let op = diff_output(old, new, dp);
    let o = diff_output(old, new, d);
    let csp = changes_from_diff(f1, f2, dp);
    let cs = changes_from_diff(f1, f2, d);
    let last = last_line_after(f1, f2, dp);
    let lc = line_changes(f1, f2, last, d.last());
    lemma_output_facts(old, new, dp, pa - 1, pb);
    let fi = old[i0 as int];
    assert(o == op);
    assert(!op.contains(fi)) by {
        if op.contains(fi) {
            let x = choose|x: int| 0 <= x < op.len() && op[x] == fi;
            if op[x] == new[x] {
                assert(old[i0 as int] != new[x]);
            } else {
                let i = choose|i: int| 0 <= i < pa - 1 && #[trigger] old[i] == op[x];
            }
        }
    }
    assert(cs == csp + lc);
    lemma_all_concat(csp, lc, q);
    assert(del_id(lc[0]) == Some(fi));
    assert(all_added(lc) =~= Set::<NodeId>::empty()) by {
        assert forall|n: NodeId| !all_added(lc).contains(n) by {
            if all_added(lc).contains(n) {
                let k = choose|k: int| 0 <= k < lc.len() && #[trigger] new_id(lc[k]) == Some(n);
            }
        }
    }
    assert(all_deleted(lc) =~= set![fi]) by {
        assert forall|n: NodeId| all_deleted(lc).contains(n) implies n == fi by {
            let k = choose|k: int| 0 <= k < lc.len() && #[trigger] del_id(lc[k]) == Some(n);
        }
    }
    assert(all_linked(lc, q) =~= Set::<(NodeId, NodeId, PatchId)>::empty()) by {
        assert forall|t: (NodeId, NodeId, PatchId)| !all_linked(lc, q).contains(t) by {
            if all_linked(lc, q).contains(t) {
                let k = choose|k: int| 0 <= k < lc.len() && #[trigger] link_of(lc[k], q) == Some(t);
            }
        }
    }
    assert(all_added(cs) =~= all_added(csp));
    assert(all_linked(cs, q) =~= all_linked(csp, q));
    assert(all_deleted(cs) =~= all_deleted(csp).insert(fi));
    assert forall|n: NodeId| #[trigger] all_deleted(cs).contains(n) <==> among_first(old, pa, n) && !o.contains(n) by {
        if among_first(old, pa, n) && n != fi {
            let i = choose|i: int| 0 <= i < pa && #[trigger] old[i] == n;
            assert(among_first(old, pa - 1, n));
        }
        if among_first(old, pa - 1, n) {
            let i = choose|i: int| 0 <= i < pa - 1 && #[trigger] old[i] == n;
            assert(among_first(old, pa, n));
        }
        assert(among_first(old, pa, fi)) by {
            assert(old[pa - 1] == fi);
        }
    }
}

proof fn lemma_changes_step_keep(f1: File, f2: File, d: Seq<LineDiff>, pa: int, pb: int, q: PatchId, i0: usize, j0: usize)
    requires
        f1.spec_ids().no_duplicates(),
        f2.spec_ids().no_duplicates(),
        apart(f1.spec_ids(), f2.spec_ids()),
        0 <= pa <= f1.spec_ids().len(),
        0 <= pb <= f2.spec_ids().len(),
        d.len() > 0,
        d.last() == LineDiff::Keep(i0, j0),
        i0 == pa - 1,
        j0 == pb - 1,
        src_indices(d.drop_last()) == upto(pa - 1),
        dst_indices(d.drop_last()) == upto(pb - 1),
        changes_ok(f1, f2, d.drop_last(), q, pa - 1),
    ensures
        changes_ok(f1, f2, d, q, pa),
{
    let old = f1.spec_ids();
    let new = f2.spec_ids();
    let dp = d.drop_last();
    let op = diff_output(old, new, dp);
    let o = diff_output(old, new, d);
    let csp = changes_from_diff(f1, f2, dp);
    let cs = changes_from_diff(f1, f2, d);
    let last = last_line_after(f1, f2, dp);
    let lc = line_changes(f1, f2, last, d.last());
    lemma_output_facts(old, new, dp, pa - 1, pb - 1);
    let fi = old[i0 as int];
    assert(o == op.push(fi));
    assert(old.contains(fi));
    assert(!op.contains(fi)) by {
        if op.contains(fi) {
            let x = choose|x: int| 0 <= x < op.len() && op[x] == fi;
            if op[x] == new[x] {
                assert(old[i0 as int] != new[x]);
            } else {
                let i = choose|i: int| 0 <= i < pa - 1 && #[trigger] old[i] == op[x];
            }
        }
    }
    assert(cs == csp + lc);
    lemma_all_concat(csp, lc, q);
    assert(last == last_of(old, op));
    assert(all_added(lc) =~= Set::<NodeId>::empty()) by {
        assert forall|n: NodeId| !all_added(lc).contains(n) by {
            if all_added(lc).contains(n) {
                let k = choose|k: int| 0 <= k < lc.len() && #[trigger] new_id(lc[k]) == Some(n);
            }
        }
    }
    assert(all_deleted(lc) =~= Set::<NodeId>::empty()) by {
        assert forall|n: NodeId| !all_deleted(lc).contains(n) by {
            if all_deleted(lc).contains(n) {
                let k = choose|k: int| 0 <= k < lc.len() && #[trigger] del_id(lc[k]) == Some(n);
            }
        }
    }
    let ll: Set<(NodeId, NodeId, PatchId)> = if op.len() > 0 && !old.contains(op.last()) {
        set![(op.last(), fi, q)]
    } else {
        Set::empty()
    };
    assert(all_linked(lc, q) =~= ll) by {
        if op.len() > 0 && !old.contains(op.last()) {
            assert(link_of(lc[0], q) == Some((op.last(), fi, q)));
        }
        assert forall|t: (NodeId, NodeId, PatchId)| all_linked(lc, q).contains(t) implies ll.contains(t) by {
            let k = choose|k: int| 0 <= k < lc.len() && #[trigger] link_of(lc[k], q) == Some(t);
        }
    }
    assert(all_added(cs) =~= all_added(csp));
    lemma_push_added(old, op, fi, all_added(csp), all_added(cs));
    assert(all_linked(cs, q) =~= (if op.len() > 0 && (!old.contains(op.last()) || !old.contains(fi)) {
        all_linked(csp, q).insert((op.last(), fi, q))
    } else {
        all_linked(csp, q)
    }));
    lemma_push_links(old, op, fi, q, all_linked(csp, q), all_linked(cs, q));
    assert(all_deleted(cs) =~= all_deleted(csp));
    assert forall|n: NodeId| #[trigger] all_deleted(cs).contains(n) <==> among_first(old, pa, n) && !o.contains(n) by {
        if among_first(old, pa, n) && n != fi {
            let i = choose|i: int| 0 <= i < pa && #[trigger] old[i] == n;
            assert(among_first(old, pa - 1, n));
        }
        if among_first(old, pa - 1, n) {
            let i = choose|i: int| 0 <= i < pa - 1 && #[trigger] old[i] == n;
            assert(among_first(old, pa, n));
        }
        if op.contains(n) {
            let x = choose|x: int| 0 <= x < op.len() && op[x] == n;
            assert(o[x] == n);
        }
        if o.contains(n) && n != fi {
            let x = choose|x: int| 0 <= x < o.len() && o[x] == n;
            assert(op[x] == n);
        }
        assert(o[o.len() - 1] == fi);
    }
    assert(o.last() == fi);
}

/// What the changes made from a diff add, delete and join: the new lines of the output are
/// added, the old lines that it does not keep are deleted, and an edge joins each new line to
/// the lines next to it.
proof fn lemma_changes_facts(f1: File, f2: File, d: Seq<LineDiff>, pa: int, pb: int, q: PatchId)
    requires
        f1.spec_ids().no_duplicates(),
        f2.spec_ids().no_duplicates(),
        apart(f1.spec_ids(), f2.spec_ids()),
        src_indices(d) == upto(pa),
        dst_indices(d) == upto(pb),
        0 <= pa <= f1.spec_ids().len(),
        0 <= pb <= f2.spec_ids().len(),
    ensures
        changes_ok(f1, f2, d, q, pa),
    decreases d.len(),
{
    if d.len() == 0 {
        let cs = changes_from_diff(f1, f2, d);
        assert(upto(pa).len() == 0);
        assert(upto(pb).len() == 0);
        assert(cs.len() == 0);
        assert(all_added(cs) =~= Set::<NodeId>::empty());
        assert(all_deleted(cs) =~= Set::<NodeId>::empty());
        assert(all_linked(cs, q) =~= Set::<(NodeId, NodeId, PatchId)>::empty());
    } else {
        let dp = d.drop_last();
        match d.last() {
            LineDiff::New(j) => {
                assert(src_indices(d) == src_indices(dp));
                lemma_upto_pop(dst_indices(dp), j as int, pb);
                lemma_changes_facts(f1, f2, dp, pa, pb - 1, q);
                lemma_changes_step_new(f1, f2, d, pa, pb, q, j);
            },
            LineDiff::Delete(i0) => {
                assert(dst_indices(d) == dst_indices(dp));
                lemma_upto_pop(src_indices(dp), i0 as int, pa);
                lemma_changes_facts(f1, f2, dp, pa - 1, pb, q);
                lemma_changes_step_delete(f1, f2, d, pa, pb, q, i0);
            },
            LineDiff::Keep(i0, j0) => {
                lemma_upto_pop(src_indices(dp), i0 as int, pa);
                lemma_upto_pop(dst_indices(dp), j0 as int, pb);
                lemma_changes_facts(f1, f2, dp, pa - 1, pb - 1, q);
                lemma_changes_step_keep(f1, f2, d, pa, pb, q, i0, j0);
            },
        }
    }
}

/// The changes `cs` add each node once and delete each node once, and an edge of `cs` joins
/// nodes that are old (in `old`) or added by an earlier change.
pub open spec fn changes_in_order(cs: Seq<ChangeView>, old: Seq<NodeId>, q: PatchId) -> bool {
    &&& forall|k: int, m: int| 0 <= k < m < cs.len() && (#[trigger] new_id(cs[k])) is Some ==> new_id(cs[k]) != #[trigger] new_id(cs[m])
    &&& forall|k: int, m: int| 0 <= k < m < cs.len() && (#[trigger] del_id(cs[k])) is Some ==> del_id(cs[k]) != #[trigger] del_id(cs[m])
    &&& forall|k: int| 0 <= k < cs.len() && (#[trigger] link_of(cs[k], q)) is Some ==> {
        let t = link_of(cs[k], q)->0;
        &&& old.contains(t.0) || added_upto(cs, k).contains(t.0)
        &&& old.contains(t.1) || added_upto(cs, k).contains(t.1)
    }
}

proof fn lemma_added_prefix(c1: Seq<ChangeView>, c2: Seq<ChangeView>, k: int)
    requires
        0 <= k <= c1.len(),
    ensures
        added_upto(c1 + c2, k) == added_upto(c1, k),
{
    let c = c1 + c2;
    assert forall|n: NodeId| added_upto(c, k).contains(n) <==> added_upto(c1, k).contains(n) by {
        if added_upto(c, k).contains(n) {
            let j = choose|j: int| 0 <= j < k && #[trigger] new_id(c[j]) == Some(n);
            assert(c[j] == c1[j]);
        }
        if added_upto(c1, k).contains(n) {
            let j = choose|j: int| 0 <= j < k && #[trigger] new_id(c1[j]) == Some(n);
            assert(c[j] == c1[j]);
        }
    }
    assert(added_upto(c, k) =~= added_upto(c1, k));
}

/// The changes made from a diff are in order: each node is added once and deleted once, and
/// each edge joins nodes that are old or already added.
proof fn lemma_changes_in_order(f1: File, f2: File, d: Seq<LineDiff>, pa: int, pb: int, q: PatchId)
    requires
        f1.spec_ids().no_duplicates(),
        f2.spec_ids().no_duplicates(),
        apart(f1.spec_ids(), f2.spec_ids()),
        src_indices(d) == upto(pa),
        dst_indices(d) == upto(pb),
        0 <= pa <= f1.spec_ids().len(),
        0 <= pb <= f2.spec_ids().len(),
    ensures
        changes_in_order(changes_from_diff(f1, f2, d), f1.spec_ids(), q),
        forall|n: NodeId| #[trigger] all_deleted(changes_from_diff(f1, f2, d)).contains(n) ==> among_first(f1.spec_ids(), pa, n),
    decreases d.len(),
{
    let old = f1.spec_ids();
    let new = f2.spec_ids();
    let cs = changes_from_diff(f1, f2, d);
    lemma_changes_facts(f1, f2, d, pa, pb, q);
    if d.len() == 0 {
        assert(cs.len() == 0);
    } else {
        let dp = d.drop_last();
        let op = diff_output(old, new, dp);
        let csp = changes_from_diff(f1, f2, dp);
        let last = last_line_after(f1, f2, dp);
        let lc = line_changes(f1, f2, last, d.last());
        let n0 = csp.len() as int;
        assert(cs == csp + lc);
        let (pa0, pb0) = match d.last() {
            LineDiff::New(j) => (pa, pb - 1),
            LineDiff::Delete(i) => (pa - 1, pb),
            LineDiff::Keep(i, j) => (pa - 1, pb - 1),
        };
        match d.last() {
            LineDiff::New(j) => {
                assert(src_indices(d) == src_indices(dp));
                lemma_upto_pop(dst_indices(dp), j as int, pb);
            },
            LineDiff::Delete(i) => {
                assert(dst_indices(d) == dst_indices(dp));
                lemma_upto_pop(src_indices(dp), i as int, pa);
            },
            LineDiff::Keep(i, j) => {
                lemma_upto_pop(src_indices(dp), i as int, pa);
                lemma_upto_pop(dst_indices(dp), j as int, pb);
            },
        }
        lemma_changes_in_order(f1, f2, dp, pa0, pb0, q);
        lemma_changes_facts(f1, f2, dp, pa0, pb0, q);
        lemma_output_facts(old, new, dp, pa0, pb0);
        assert forall|k: int| 0 <= k <= n0 implies #[trigger] added_upto(cs, k) == added_upto(csp, k) by {
            lemma_added_prefix(csp, lc, k);
        }
        assert(last == last_of(old, op));
        // Positions inside `csp` keep their facts.
        assert forall|k: int| 0 <= k < n0 implies #[trigger] cs[k] == csp[k] by {}
        // The changes of the last line.
        assert forall|k: int, m: int| 0 <= k < m < cs.len() && (#[trigger] new_id(cs[k])) is Some implies new_id(cs[k]) != #[trigger] new_id(cs[m]) by {
            if m < n0 {
                assert(cs[k] == csp[k] && cs[m] == csp[m]);
            } else if new_id(cs[m]) is Some {
                // Only a new line adds a node: the one at the start of its changes.
                match d.last() {
                    LineDiff::New(j) => {
                        assert(m == n0);
                        let nj = new[j as int];
                        assert(new_id(cs[m]) == Some(nj));
                        assert(k < n0 && cs[k] == csp[k]);
                        let n = new_id(csp[k])->0;
                        assert(all_added(csp).contains(n));
                        assert(op.contains(n));
                        assert(!op.contains(nj)) by {
                            if op.contains(nj) {
                                let x = choose|x: int| 0 <= x < op.len() && op[x] == nj;
                                if op[x] == new[x] {
                                    assert(new[x] != new[j as int]);
                                } else {
                                    let i = choose|i: int| 0 <= i < pa && #[trigger] old[i] == op[x];
                                }
                            }
                        }
                    },
                    _ => {
                        assert(cs[m] == lc[m - n0]);
                    },
                }
            }
        }
        assert forall|k: int, m: int| 0 <= k < m < cs.len() && (#[trigger] del_id(cs[k])) is Some implies del_id(cs[k]) != #[trigger] del_id(cs[m]) by {
            if m < n0 {
                assert(cs[k] == csp[k] && cs[m] == csp[m]);
            } else if del_id(cs[m]) is Some {
                match d.last() {
                    LineDiff::Delete(i0) => {
                        assert(m == n0);
                        assert(del_id(cs[m]) == Some(old[i0 as int]));
                        assert(k < n0 && cs[k] == csp[k]);
                        let n = del_id(csp[k])->0;
                        assert(all_deleted(csp).contains(n));
                        assert(among_first(old, pa - 1, n));
                        let i = choose|i: int| 0 <= i < pa - 1 && #[trigger] old[i] == n;
                    },
                    _ => {
                        assert(cs[m] == lc[m - n0]);
                    },
                }
            }
        }
        assert forall|k: int| 0 <= k < cs.len() && (#[trigger] link_of(cs[k], q)) is Some implies {
            let t = link_of(cs[k], q)->0;
            &&& old.contains(t.0) || added_upto(cs, k).contains(t.0)
            &&& old.contains(t.1) || added_upto(cs, k).contains(t.1)
        } by {
            let t = link_of(cs[k], q)->0;
            if k < n0 {
                assert(cs[k] == csp[k]);
                assert(added_upto(cs, k) == added_upto(csp, k));
            } else {
                assert(added_upto(cs, n0) == added_upto(csp, n0));
                assert(added_upto(csp, n0) == all_added(csp));
                match d.last() {
                    LineDiff::New(j) => {
                        let nj = new[j as int];
                        assert(k == n0 + 1);
                        assert(op.len() > 0);
                        assert(t == (op.last(), nj, q));
                        assert(new_id(cs[n0]) == Some(nj));
                        assert(added_upto(cs, k).contains(nj));
                        assert(op.contains(op.last())) by {
                            assert(op[op.len() - 1] == op.last());
                        }
                        if !old.contains(op.last()) {
                            assert(all_added(csp).contains(op.last()));
                            assert(added_upto(cs, n0).contains(op.last()));
                            let w = choose|w: int| 0 <= w < n0 && #[trigger] new_id(cs[w]) == Some(op.last());
                            assert(added_upto(cs, k).contains(op.last()));
                        }
                    },
                    LineDiff::Keep(i0, j0) => {
                        assert(k == n0);
                        assert(t == (op.last(), old[i0 as int], q));
                        assert(op.contains(op.last())) by {
                            assert(op[op.len() - 1] == op.last());
                        }
                        assert(!old.contains(op.last()));
                        assert(all_added(csp).contains(op.last()));
                    },
                    LineDiff::Delete(i0) => {
                        assert(false);
                    },
                }
            }
        }
        assert forall|n: NodeId| #[trigger] all_deleted(cs).contains(n) implies among_first(old, pa, n) by {}
    }
}

/// The changes that a patch with the id `p` makes from the diff `d` between the files `f1` and
/// `f2`: those of [`changes_from_diff`], with the lines of the patch under construction moved
/// to `p`.
pub open spec fn recorded_changes(f1: File, f2: File, d: Seq<LineDiff>, p: PatchId) -> Seq<ChangeView> {
    changes_from_diff(f1, f2, d).map_values(|c: ChangeView| c.with_patch(p))
}

/// The nodes of the lines of `f2` after the patch `p` made from the diff `d` is applied.
pub open spec fn recorded_output(f1: File, f2: File, d: Seq<LineDiff>, p: PatchId) -> Seq<NodeId> {
    diff_output(f1.spec_ids(), f2.spec_ids(), d).map_values(|n: NodeId| n.with_patch(p))
}

/// What recording an edit needs: the live lines of `s` are in the order of the lines of `f1`;
/// the lines of `f2` are the nodes `0, 1, ...` of the patch under construction; no node of `s`
/// belongs to that patch or to `p`, which is not it; and `d` is a diff of the two files.
pub open spec fn record_ready(s: Skeleton, f1: File, f2: File, d: Seq<LineDiff>, p: PatchId) -> bool {
    &&& s.wf()
    &&& skel_order(s, f1.spec_ids())
    &&& forall|j: int| 0 <= j < f2.spec_ids().len() ==> (#[trigger] f2.spec_ids()[j]).patch.spec_is_cur() && f2.spec_ids()[j].node == j
    &&& forall|n: NodeId| #[trigger] s.has(n) ==> !n.patch.spec_is_cur() && n.patch != p
    &&& !p.spec_is_cur()
    &&& src_indices(d) == upto(f1.spec_ids().len() as int)
    &&& dst_indices(d) == upto(f2.spec_ids().len() as int)
}

proof fn lemma_ready_basics(s: Skeleton, f1: File, f2: File, d: Seq<LineDiff>, p: PatchId)
    requires
        record_ready(s, f1, f2, d, p),
    ensures
        f1.spec_ids().no_duplicates(),
        f2.spec_ids().no_duplicates(),
        apart(f1.spec_ids(), f2.spec_ids()),
        forall|i: int| 0 <= i < f1.spec_ids().len() ==> s.live.contains(#[trigger] f1.spec_ids()[i])
            && f1.spec_ids()[i].with_patch(p) == f1.spec_ids()[i],
        forall|j: int| 0 <= j < f2.spec_ids().len() ==> (#[trigger] f2.spec_ids()[j]).with_patch(p)
            == (NodeId { patch: p, node: j as u64 }) && !s.has(f2.spec_ids()[j].with_patch(p)),
{
    let old = f1.spec_ids();
    let new = f2.spec_ids();
    assert forall|i: int| 0 <= i < old.len() implies s.live.contains(#[trigger] old[i]) && old[i].with_patch(p) == old[i] by {
        assert(old.contains(old[i]));
        assert(s.has(old[i]));
    }
    assert forall|i: int, j: int| 0 <= i < old.len() && 0 <= j < new.len() implies #[trigger] old[i] != #[trigger] new[j] by {
        assert(old.contains(old[i]));
        assert(s.has(old[i]));
    }
    assert forall|a: int, b: int| 0 <= a < b < new.len() implies new[a] != new[b] by {
        assert(new[a].node == a && new[b].node == b);
    }
    assert forall|j: int| 0 <= j < new.len() implies (#[trigger] new[j]).with_patch(p) == (NodeId { patch: p, node: j as u64 })
        && !s.has(new[j].with_patch(p)) by {
        let m = new[j].with_patch(p);
        if s.has(m) {
            assert(m.patch == p);
        }
    }
}

/// The changes of the recorded patch, one by one: those made from the diff, renamed.
proof fn lemma_recorded_at(f1: File, f2: File, d: Seq<LineDiff>, p: PatchId, k: int)
    requires
        0 <= k < changes_from_diff(f1, f2, d).len(),
    ensures
        recorded_changes(f1, f2, d, p).len() == changes_from_diff(f1, f2, d).len(),
        new_id(recorded_changes(f1, f2, d, p)[k]) == (match new_id(changes_from_diff(f1, f2, d)[k]) {
            Some(n) => Some(n.with_patch(p)),
            None => None,
        }),
        del_id(recorded_changes(f1, f2, d, p)[k]) == (match del_id(changes_from_diff(f1, f2, d)[k]) {
            Some(n) => Some(n.with_patch(p)),
            None => None,
        }),
        link_of(recorded_changes(f1, f2, d, p)[k], p) == (match link_of(changes_from_diff(f1, f2, d)[k], p) {
            Some(t) => Some((t.0.with_patch(p), t.1.with_patch(p), t.2)),
            None => None,
        }),
{
}

/// A node that the diff's output holds and that is not an old line is a line of `f2`.
proof fn lemma_output_new(f1: File, f2: File, d: Seq<LineDiff>, n: NodeId)
    requires
        f1.spec_ids().no_duplicates(),
        f2.spec_ids().no_duplicates(),
        apart(f1.spec_ids(), f2.spec_ids()),
        src_indices(d) == upto(f1.spec_ids().len() as int),
        dst_indices(d) == upto(f2.spec_ids().len() as int),
        diff_output(f1.spec_ids(), f2.spec_ids(), d).contains(n),
        !f1.spec_ids().contains(n),
    ensures
        exists|j: int| 0 <= j < f2.spec_ids().len() && #[trigger] f2.spec_ids()[j] == n,
{
    let old = f1.spec_ids();
    let new = f2.spec_ids();
    lemma_output_facts(old, new, d, old.len() as int, new.len() as int);
    let o = diff_output(old, new, d);
    let x = choose|x: int| 0 <= x < o.len() && o[x] == n;
    if o[x] != new[x] {
        let i = choose|i: int| 0 <= i < old.len() && #[trigger] old[i] == o[x];
        assert(old.contains(n));
    }
}

/// The recorded patch is new to the skeleton: it adds distinct new nodes, deletes distinct
/// live ones, and adds edges that are not there yet.
proof fn lemma_recorded_fresh(s: Skeleton, f1: File, f2: File, d: Seq<LineDiff>, p: PatchId)
    requires
        record_ready(s, f1, f2, d, p),
    ensures
        fresh_patch(s, recorded_changes(f1, f2, d, p), p),
        forall|n: NodeId| #[trigger] all_deleted(recorded_changes(f1, f2, d, p)).contains(n) ==> f1.spec_ids().contains(n),
{
    let old = f1.spec_ids();
    let new = f2.spec_ids();
    let cs0 = changes_from_diff(f1, f2, d);
    let cs = recorded_changes(f1, f2, d, p);
    lemma_ready_basics(s, f1, f2, d, p);
    lemma_changes_facts(f1, f2, d, old.len() as int, new.len() as int, p);
    lemma_changes_in_order(f1, f2, d, old.len() as int, new.len() as int, p);
    assert(cs.len() == cs0.len());
    // The nodes that the changes add are lines of f2, renamed into fresh nodes.
    assert forall|j: int| 0 <= j < cs0.len() && (#[trigger] new_id(cs0[j])) is Some implies
        exists|x: int| 0 <= x < new.len() && #[trigger] new[x] == new_id(cs0[j])->0 by {
        let m = new_id(cs0[j])->0;
        assert(all_added(cs0).contains(m));
        lemma_output_new(f1, f2, d, m);
    }
    assert forall|j: int| 0 <= j < cs.len() && (#[trigger] new_id(cs[j])) is Some implies !s.has(new_id(cs[j])->0) by {
        lemma_recorded_at(f1, f2, d, p, j);
        let x = choose|x: int| 0 <= x < new.len() && #[trigger] new[x] == new_id(cs0[j])->0;
    }
    assert forall|j: int, k: int| 0 <= j < k < cs.len() && (#[trigger] new_id(cs[j])) is Some implies new_id(cs[j]) != #[trigger] new_id(cs[k]) by {
        lemma_recorded_at(f1, f2, d, p, j);
        lemma_recorded_at(f1, f2, d, p, k);
        if new_id(cs[k]) is Some {
            let x1 = choose|x: int| 0 <= x < new.len() && #[trigger] new[x] == new_id(cs0[j])->0;
            let x2 = choose|x: int| 0 <= x < new.len() && #[trigger] new[x] == new_id(cs0[k])->0;
            assert(new_id(cs0[j]) != new_id(cs0[k]));
            if new_id(cs[j]) == new_id(cs[k]) {
                assert(new[x1].with_patch(p) == new[x2].with_patch(p));
                assert(x1 == x2);
            }
        }
    }
    assert forall|j: int| 0 <= j < cs0.len() && (#[trigger] del_id(cs0[j])) is Some implies old.contains(del_id(cs0[j])->0) by {
        let m = del_id(cs0[j])->0;
        assert(all_deleted(cs0).contains(m));
        let i = choose|i: int| 0 <= i < old.len() && #[trigger] old[i] == m;
    }
    assert forall|j: int| 0 <= j < cs.len() && (#[trigger] del_id(cs[j])) is Some implies s.live.contains(del_id(cs[j])->0) by {
        lemma_recorded_at(f1, f2, d, p, j);
        let m = del_id(cs0[j])->0;
        let i = choose|i: int| 0 <= i < old.len() && old[i] == m;
    }
    assert forall|j: int, k: int| 0 <= j < k < cs.len() && (#[trigger] del_id(cs[j])) is Some implies del_id(cs[j]) != #[trigger] del_id(cs[k]) by {
        lemma_recorded_at(f1, f2, d, p, j);
        lemma_recorded_at(f1, f2, d, p, k);
        if del_id(cs[k]) is Some {
            let i1 = choose|i: int| 0 <= i < old.len() && old[i] == del_id(cs0[j])->0;
            let i2 = choose|i: int| 0 <= i < old.len() && old[i] == del_id(cs0[k])->0;
            assert(del_id(cs0[j]) != del_id(cs0[k]));
        }
    }
    assert forall|j: int| 0 <= j < cs.len() && (#[trigger] link_of(cs[j], p)) is Some implies !s.links.contains(link_of(cs[j], p)->0) by {
        lemma_recorded_at(f1, f2, d, p, j);
        let t0 = link_of(cs0[j], p)->0;
        assert(all_linked(cs0, p).contains(t0));
        let o = diff_output(old, new, d);
        let x = choose|x: int| 0 <= x < o.len() - 1 && t0 == (#[trigger] o[x], o[x + 1], p)
            && (!old.contains(o[x]) || !old.contains(o[x + 1]));
        let t = link_of(cs[j], p)->0;
        if !old.contains(o[x]) {
            assert(o.contains(o[x]));
            lemma_output_new(f1, f2, d, o[x]);
            let y = choose|y: int| 0 <= y < new.len() && #[trigger] new[y] == o[x];
            assert(!s.has(t.0));
        } else {
            assert(o.contains(o[x + 1]));
            lemma_output_new(f1, f2, d, o[x + 1]);
            let y = choose|y: int| 0 <= y < new.len() && #[trigger] new[y] == o[x + 1];
            assert(!s.has(t.1));
        }
    }
    assert forall|n: NodeId| #[trigger] all_deleted(cs).contains(n) implies old.contains(n) by {
        let j = choose|j: int| 0 <= j < cs.len() && #[trigger] del_id(cs[j]) == Some(n);
        lemma_recorded_at(f1, f2, d, p, j);
        let i = choose|i: int| 0 <= i < old.len() && old[i] == del_id(cs0[j])->0;
    }
}

/// The recorded patch can be applied, change after change.
proof fn lemma_recorded_applicable(s: Skeleton, f1: File, f2: File, d: Seq<LineDiff>, p: PatchId)
    requires
        record_ready(s, f1, f2, d, p),
    ensures
        applicable(s, recorded_changes(f1, f2, d, p), p),
{
    let old = f1.spec_ids();
    let new = f2.spec_ids();
    let cs0 = changes_from_diff(f1, f2, d);
    let cs = recorded_changes(f1, f2, d, p);
    lemma_ready_basics(s, f1, f2, d, p);
    lemma_recorded_fresh(s, f1, f2, d, p);
    lemma_changes_in_order(f1, f2, d, old.len() as int, new.len() as int, p);
    assert forall|i: int| 0 <= i < cs.len() implies apply_one_ok(apply_all(s, cs.take(i), p), #[trigger] cs[i]) by {
        lemma_apply_closed(s, cs, p, i);
        lemma_recorded_at(f1, f2, d, p, i);
        let si = apply_all(s, cs.take(i), p);
        assert forall|n: NodeId| #[trigger] deleted_upto(cs, i).contains(n) implies old.contains(n) by {
            let j = choose|j: int| 0 <= j < i && #[trigger] del_id(cs[j]) == Some(n);
            assert(all_deleted(cs).contains(n));
        }
        match cs[i] {
            ChangeView::NewNode { id, .. } => {
                assert(new_id(cs[i]) == Some(id));
                assert(!s.has(id));
                if deleted_upto(cs, i).contains(id) {
                    assert(old.contains(id));
                    let x = choose|x: int| 0 <= x < old.len() && old[x] == id;
                }
            },
            ChangeView::DeleteNode { id } => {
                assert(del_id(cs[i]) == Some(id));
                if deleted_upto(cs, i).contains(id) {
                    let j = choose|j: int| 0 <= j < i && #[trigger] del_id(cs[j]) == Some(id);
                    assert(del_id(cs[j]) != del_id(cs[i]));
                }
            },
            ChangeView::NewEdge { src, dest } => {
                let t0 = link_of(cs0[i], p)->0;
                assert(link_of(cs[i], p) == Some((src, dest, p)));
                assert(link_of(cs0[i], p) is Some);
                assert(src == t0.0.with_patch(p) && dest == t0.1.with_patch(p));
                if old.contains(t0.0) {
                    let x = choose|x: int| 0 <= x < old.len() && old[x] == t0.0;
                    assert(s.live.contains(src));
                } else {
                    assert(added_upto(cs0, i).contains(t0.0));
                    let j = choose|j: int| 0 <= j < i && #[trigger] new_id(cs0[j]) == Some(t0.0);
                    lemma_recorded_at(f1, f2, d, p, j);
                    assert(new_id(cs[j]) == Some(src));
                    assert(added_upto(cs, i).contains(src));
                }
                if old.contains(t0.1) {
                    let x = choose|x: int| 0 <= x < old.len() && old[x] == t0.1;
                    assert(s.live.contains(dest));
                } else {
                    assert(added_upto(cs0, i).contains(t0.1));
                    let j = choose|j: int| 0 <= j < i && #[trigger] new_id(cs0[j]) == Some(t0.1);
                    lemma_recorded_at(f1, f2, d, p, j);
                    assert(new_id(cs[j]) == Some(dest));
                    assert(added_upto(cs, i).contains(dest));
                }
            },
        }
    }
}

/// The recorded output, line by line: an old line stays itself, and a new line becomes a node
/// of `p`, which is no node of `s`.
proof fn lemma_recorded_output(s: Skeleton, f1: File, f2: File, d: Seq<LineDiff>, p: PatchId)
    requires
        record_ready(s, f1, f2, d, p),
    ensures
        recorded_output(f1, f2, d, p).len() == diff_output(f1.spec_ids(), f2.spec_ids(), d).len(),
        forall|x: int| 0 <= x < recorded_output(f1, f2, d, p).len() ==> {
            let m = diff_output(f1.spec_ids(), f2.spec_ids(), d)[x];
            let n = #[trigger] recorded_output(f1, f2, d, p)[x];
            &&& n == m.with_patch(p)
            &&& f1.spec_ids().contains(m) ==> n == m
            &&& !f1.spec_ids().contains(m) ==> !f1.spec_ids().contains(n) && !s.has(n)
        },
        recorded_output(f1, f2, d, p).no_duplicates(),
        forall|n: NodeId| f1.spec_ids().contains(n) ==> (recorded_output(f1, f2, d, p).contains(n)
            <==> diff_output(f1.spec_ids(), f2.spec_ids(), d).contains(n)),
{
    let old = f1.spec_ids();
    let new = f2.spec_ids();
    let o = diff_output(old, new, d);
    let o2 = recorded_output(f1, f2, d, p);
    lemma_ready_basics(s, f1, f2, d, p);
    lemma_output_facts(old, new, d, old.len() as int, new.len() as int);
    assert forall|x: int| 0 <= x < o2.len() implies {
        let m = o[x];
        let n = #[trigger] o2[x];
        &&& n == m.with_patch(p)
        &&& old.contains(m) ==> n == m
        &&& !old.contains(m) ==> !old.contains(n) && !s.has(n)
    } by {
        if old.contains(o[x]) {
            let i = choose|i: int| 0 <= i < old.len() && old[i] == o[x];
        } else {
            assert(o.contains(o[x]));
            lemma_output_new(f1, f2, d, o[x]);
            let y = choose|y: int| 0 <= y < new.len() && #[trigger] new[y] == o[x];
            if old.contains(o2[x]) {
                let i = choose|i: int| 0 <= i < old.len() && old[i] == o2[x];
                assert(s.live.contains(old[i]));
            }
        }
    }
    assert forall|a: int, b: int| 0 <= a < b < o2.len() implies o2[a] != o2[b] by {
        assert(o[a] != o[b]);
        if old.contains(o[a]) && old.contains(o[b]) {
        } else if !old.contains(o[a]) && !old.contains(o[b]) {
            lemma_output_new(f1, f2, d, o[a]);
            lemma_output_new(f1, f2, d, o[b]);
            let ya = choose|y: int| 0 <= y < new.len() && #[trigger] new[y] == o[a];
            let yb = choose|y: int| 0 <= y < new.len() && #[trigger] new[y] == o[b];
            assert(o2[a] == new[ya].with_patch(p));
            assert(o2[b] == new[yb].with_patch(p));
        } else if old.contains(o[a]) {
            assert(!old.contains(o2[b]));
        } else {
            assert(!old.contains(o2[a]));
        }
    }
    assert forall|n: NodeId| old.contains(n) implies (o2.contains(n) <==> o.contains(n)) by {
        if o2.contains(n) {
            let x = choose|x: int| 0 <= x < o2.len() && o2[x] == n;
            if !old.contains(o[x]) {
                assert(!old.contains(o2[x]));
            }
        }
        if o.contains(n) {
            let x = choose|x: int| 0 <= x < o.len() && o[x] == n;
            assert(o2[x] == n);
        }
    }
}

/// What the recorded patch adds, in terms of the recorded output.
proof fn lemma_recorded_added(s: Skeleton, f1: File, f2: File, d: Seq<LineDiff>, p: PatchId)
    requires
        record_ready(s, f1, f2, d, p),
    ensures
        forall|n: NodeId| #[trigger] all_added(recorded_changes(f1, f2, d, p)).contains(n)
            <==> recorded_output(f1, f2, d, p).contains(n) && !f1.spec_ids().contains(n),
{
    let old = f1.spec_ids();
    let new = f2.spec_ids();
    let o = diff_output(old, new, d);
    let o2 = recorded_output(f1, f2, d, p);
    let cs0 = changes_from_diff(f1, f2, d);
    let cs = recorded_changes(f1, f2, d, p);
    lemma_ready_basics(s, f1, f2, d, p);
    lemma_changes_facts(f1, f2, d, old.len() as int, new.len() as int, p);
    lemma_recorded_output(s, f1, f2, d, p);
    assert(cs.len() == cs0.len());
    assert forall|n: NodeId| #[trigger] all_added(cs).contains(n) <==> o2.contains(n) && !old.contains(n) by {
        if all_added(cs).contains(n) {
            let j = choose|j: int| 0 <= j < cs.len() && #[trigger] new_id(cs[j]) == Some(n);
            lemma_recorded_at(f1, f2, d, p, j);
            let m = new_id(cs0[j])->0;
            assert(all_added(cs0).contains(m));
            let x = choose|x: int| 0 <= x < o.len() && o[x] == m;
            assert(o2[x] == n);
        }
        if o2.contains(n) && !old.contains(n) {
            let x = choose|x: int| 0 <= x < o2.len() && o2[x] == n;
            assert(!old.contains(o[x]));
            assert(o.contains(o[x]));
            assert(all_added(cs0).contains(o[x]));
            let j = choose|j: int| 0 <= j < cs0.len() && #[trigger] new_id(cs0[j]) == Some(o[x]);
            lemma_recorded_at(f1, f2, d, p, j);
            assert(new_id(cs[j]) == Some(n));
        }
    }
}

/// What the recorded patch deletes, in terms of the recorded output.
proof fn lemma_recorded_deleted(s: Skeleton, f1: File, f2: File, d: Seq<LineDiff>, p: PatchId)
    requires
        record_ready(s, f1, f2, d, p),
    ensures
        forall|n: NodeId| #[trigger] all_deleted(recorded_changes(f1, f2, d, p)).contains(n)
            <==> f1.spec_ids().contains(n) && !recorded_output(f1, f2, d, p).contains(n),
{
    let old = f1.spec_ids();
    let new = f2.spec_ids();
    let o = diff_output(old, new, d);
    let o2 = recorded_output(f1, f2, d, p);
    let cs0 = changes_from_diff(f1, f2, d);
    let cs = recorded_changes(f1, f2, d, p);
    lemma_ready_basics(s, f1, f2, d, p);
    lemma_changes_facts(f1, f2, d, old.len() as int, new.len() as int, p);
    lemma_recorded_output(s, f1, f2, d, p);
    assert(cs.len() == cs0.len());
    assert forall|n: NodeId| #[trigger] all_deleted(cs).contains(n) <==> old.contains(n) && !o2.contains(n) by {
        if all_deleted(cs).contains(n) {
            let j = choose|j: int| 0 <= j < cs.len() && #[trigger] del_id(cs[j]) == Some(n);
            lemma_recorded_at(f1, f2, d, p, j);
            let m = del_id(cs0[j])->0;
            assert(all_deleted(cs0).contains(m));
            let i = choose|i: int| 0 <= i < old.len() && #[trigger] old[i] == m;
            assert(n == m);
        }
        if old.contains(n) && !o2.contains(n) {
            let i = choose|i: int| 0 <= i < old.len() && old[i] == n;
            assert(among_first(old, old.len() as int, n));
            assert(all_deleted(cs0).contains(n));
            let j = choose|j: int| 0 <= j < cs0.len() && #[trigger] del_id(cs0[j]) == Some(n);
            lemma_recorded_at(f1, f2, d, p, j);
            assert(del_id(cs[j]) == Some(n));
        }
    }
}

/// The edges that the recorded patch adds, in terms of the recorded output.
#[verifier::rlimit(50)]
#[verifier::spinoff_prover]
proof fn lemma_recorded_linked(s: Skeleton, f1: File, f2: File, d: Seq<LineDiff>, p: PatchId)
    requires
        record_ready(s, f1, f2, d, p),
    ensures
        forall|t: (NodeId, NodeId, PatchId)| #[trigger] all_linked(recorded_changes(f1, f2, d, p), p).contains(t)
            <==> new_link(f1.spec_ids(), recorded_output(f1, f2, d, p), p, t),
{
    let old = f1.spec_ids();
    let new = f2.spec_ids();
    let o = diff_output(old, new, d);
    let o2 = recorded_output(f1, f2, d, p);
    let cs0 = changes_from_diff(f1, f2, d);
    let cs = recorded_changes(f1, f2, d, p);
    lemma_ready_basics(s, f1, f2, d, p);
    lemma_changes_facts(f1, f2, d, old.len() as int, new.len() as int, p);
    lemma_recorded_output(s, f1, f2, d, p);
    assert(cs.len() == cs0.len());
    assert forall|t: (NodeId, NodeId, PatchId)| #[trigger] all_linked(cs, p).contains(t) <==> new_link(old, o2, p, t) by {
        if all_linked(cs, p).contains(t) {
            let j = choose|j: int| 0 <= j < cs.len() && #[trigger] link_of(cs[j], p) == Some(t);
            lemma_recorded_at(f1, f2, d, p, j);
            let t0 = link_of(cs0[j], p)->0;
            assert(all_linked(cs0, p).contains(t0));
            let x = choose|x: int| 0 <= x < o.len() - 1 && t0 == (#[trigger] o[x], o[x + 1], p)
                && (!old.contains(o[x]) || !old.contains(o[x + 1]));
            assert(o2[x] == t.0 && o2[x + 1] == t.1);
            assert(!old.contains(o2[x]) || !old.contains(o2[x + 1]));
        }
        if new_link(old, o2, p, t) {
            let x = choose|x: int| 0 <= x < o2.len() - 1 && t == (#[trigger] o2[x], o2[x + 1], p)
                && (!old.contains(o2[x]) || !old.contains(o2[x + 1]));
            let t0 = (o[x], o[x + 1], p);
            assert(!old.contains(o[x]) || !old.contains(o[x + 1]));
            assert(new_link(old, o, p, t0));
            assert(all_linked(cs0, p).contains(t0));
            let j = choose|j: int| 0 <= j < cs0.len() && #[trigger] link_of(cs0[j], p) == Some(t0);
            lemma_recorded_at(f1, f2, d, p, j);
            assert(link_of(cs[j], p) == Some(t));
        }
    }
}

/// The skeleton after the recorded patch: its live lines are those of the recorded output,
/// the old lines that the output drops are deleted, and the patch's edges are added.
proof fn lemma_recorded_result(s: Skeleton, f1: File, f2: File, d: Seq<LineDiff>, p: PatchId)
    requires
        record_ready(s, f1, f2, d, p),
    ensures
        forall|n: NodeId| #[trigger] apply_all(s, recorded_changes(f1, f2, d, p), p).live.contains(n)
            <==> recorded_output(f1, f2, d, p).contains(n),
        forall|n: NodeId| #[trigger] apply_all(s, recorded_changes(f1, f2, d, p), p).dead.contains(n)
            <==> s.dead.contains(n) || (f1.spec_ids().contains(n) && !recorded_output(f1, f2, d, p).contains(n)),
        forall|t: (NodeId, NodeId, PatchId)| #[trigger] apply_all(s, recorded_changes(f1, f2, d, p), p).links.contains(t)
            <==> s.links.contains(t) || new_link(f1.spec_ids(), recorded_output(f1, f2, d, p), p, t),
{
    let old = f1.spec_ids();
    let o2 = recorded_output(f1, f2, d, p);
    let cs = recorded_changes(f1, f2, d, p);
    lemma_ready_basics(s, f1, f2, d, p);
    lemma_recorded_fresh(s, f1, f2, d, p);
    lemma_recorded_added(s, f1, f2, d, p);
    lemma_recorded_deleted(s, f1, f2, d, p);
    lemma_recorded_linked(s, f1, f2, d, p);
    lemma_apply_closed(s, cs, p, cs.len() as int);
    assert(cs.take(cs.len() as int) =~= cs);
    let s2 = apply_all(s, cs, p);
    assert(s2.live == s.live.union(all_added(cs)).difference(all_deleted(cs)));
    assert(s2.dead == s.dead.union(all_deleted(cs)));
    assert(s2.links == s.links.union(all_linked(cs, p)));
    assert forall|n: NodeId| #[trigger] s2.live.contains(n) <==> o2.contains(n) by {
        if s.live.contains(n) && !all_deleted(cs).contains(n) {
            assert(old.contains(n));
        }
        if o2.contains(n) && old.contains(n) {
            let i = choose|i: int| 0 <= i < old.len() && old[i] == n;
            assert(s.live.contains(n));
        }
    }
}

/// Recording an edit: when the live lines of a graggle's skeleton are in the order of the
/// lines of `f1`, the patch `p` made from a diff between `f1` and `f2` can be applied to it,
/// and afterwards its live lines are in the order of the lines of `f2` (old lines that the
/// diff keeps stay themselves, the other lines are the new nodes of `p`).
pub proof fn lemma_recorded_order(s: Skeleton, f1: File, f2: File, d: Seq<LineDiff>, p: PatchId)
    requires
        record_ready(s, f1, f2, d, p),
    ensures
        applicable(s, recorded_changes(f1, f2, d, p), p),
        skel_order(apply_all(s, recorded_changes(f1, f2, d, p), p), recorded_output(f1, f2, d, p)),
{
    let old = f1.spec_ids();
    let new = f2.spec_ids();
    let o = diff_output(old, new, d);
    let o2 = recorded_output(f1, f2, d, p);
    let cs = recorded_changes(f1, f2, d, p);
    lemma_ready_basics(s, f1, f2, d, p);
    lemma_recorded_applicable(s, f1, f2, d, p);
    lemma_recorded_fresh(s, f1, f2, d, p);
    lemma_recorded_output(s, f1, f2, d, p);
    lemma_output_facts(old, new, d, old.len() as int, new.len() as int);
    let s2 = apply_all(s, cs, p);
    lemma_recorded_result(s, f1, f2, d, p);
    assert forall|n: NodeId| #[trigger] o2.contains(n) && !old.contains(n) implies !s.has(n) by {
        let x = choose|x: int| 0 <= x < o2.len() && o2[x] == n;
        if old.contains(o[x]) {
            assert(o2[x] == o[x]);
        }
    }
    assert forall|a: int, b: int, i: int, j: int|
        #![trigger o2[a], o2[b], old[i], old[j]]
        0 <= a < b < o2.len() && 0 <= i < old.len() && 0 <= j < old.len() && o2[a] == old[i] && o2[b] == old[j] implies i < j by {
        assert(old.contains(old[i]) && old.contains(old[j]));
        if !old.contains(o[a]) {
            assert(!old.contains(o2[a]));
        }
        if !old.contains(o[b]) {
            assert(!old.contains(o2[b]));
        }
        assert(o[a] == old[i] && o[b] == old[j]);
    }
    assert(edited(s, old, o2, p, s2));
    lemma_edited_order(s, old, o2, p, s2);
}

/// In a graggle whose pseudo-edges are those that its skeleton calls for, two live lines are
/// joined by an edge or a pseudo-edge exactly when its skeleton joins them.
proof fn lemma_clean_linked(g: GraggleView, u: NodeId, v: NodeId)
    requires
        g.shape_ok(),
        g.pseudo_rel() == g.skeleton().pseudo_targets(),
        g.live.contains(u),
        g.live.contains(v),
    ensures
        linked(g, u, v) <==> slinked(g.skeleton(), u, v),
{
    let sk = g.skeleton();
    if linked(g, u, v) {
        let e = choose|e: Edge| #[trigger] g.edges.contains((u, e)) && !(e.kind is Deleted) && e.dest == v;
        if e.kind is Pseudo {
            assert(g.pseudo_rel().contains((u, v)));
            assert(sk.pseudo_targets().contains((u, v)));
        } else {
            assert(sk.links.contains((u, v, e.patch)));
        }
    }
    if sk.link(u, v) {
        let q = choose|q: PatchId| #[trigger] sk.links.contains((u, v, q));
        let e = choose|e: Edge| #[trigger] g.edges.contains((u, e)) && !(e.kind is Pseudo) && e.dest == v && e.patch == q;
        assert(g.edge_ok(u, e));
        assert(!g.dead.contains(v));
    }
    if sk.pseudo_target(u, v) {
        assert(sk.pseudo_targets().contains((u, v)));
        assert(g.pseudo_rel().contains((u, v)));
        let e = choose|e: Edge| #[trigger] g.edges.contains((u, e)) && e.kind is Pseudo && e.dest == v;
    }
}

/// In such a graggle, the file orders are the orders of its skeleton.
pub proof fn lemma_clean_file_order(g: GraggleView, ids: Seq<NodeId>)
    requires
        g.shape_ok(),
        g.pseudo_rel() == g.skeleton().pseudo_targets(),
    ensures
        is_file_order(g, ids) <==> skel_order(g.skeleton(), ids),
{
    let sk = g.skeleton();
    if is_file_order(g, ids) || skel_order(sk, ids) {
        assert forall|i: int| 0 <= i < ids.len() implies g.live.contains(#[trigger] ids[i]) by {
            assert(ids.contains(ids[i]));
        }
        assert forall|i: int, j: int| 0 <= i < ids.len() && 0 <= j < ids.len() implies
            (linked(g, #[trigger] ids[i], #[trigger] ids[j]) <==> slinked(sk, ids[i], ids[j])) by {
            lemma_clean_linked(g, ids[i], ids[j]);
        }
    }
}

/// Recording an edit of the file of a graggle whose pseudo-edges are up to date: when its lines
/// are in the order of the lines of `f1`, the patch `p` made from a diff between `f1` and `f2`
/// can be applied to it, and once the pseudo-edges are brought up to date again, its lines
/// are in the order of the lines of `f2`: the old lines that the diff keeps, and the new nodes
/// of `p` for the others.
pub proof fn lemma_recorded_graggle(g: GraggleData, f1: File, f2: File, d: Seq<LineDiff>, p: PatchId, g2: GraggleData)
    requires
        g.wf(),
        !g.is_dirty(),
        is_file_order(g@, f1.spec_ids()),
        forall|j: int| 0 <= j < f2.spec_ids().len() ==> (#[trigger] f2.spec_ids()[j]).patch.spec_is_cur() && f2.spec_ids()[j].node == j,
        forall|n: NodeId| #[trigger] g@.has(n) ==> !n.patch.spec_is_cur() && n.patch != p,
        !p.spec_is_cur(),
        src_indices(d) == upto(f1.spec_ids().len() as int),
        dst_indices(d) == upto(f2.spec_ids().len() as int),
        g2.wf(),
        !g2.is_dirty(),
        g2@.skeleton() == apply_all(g@.skeleton(), recorded_changes(f1, f2, d, p), p),
    ensures
        applicable(g@.skeleton(), recorded_changes(f1, f2, d, p), p),
        is_file_order(g2@, recorded_output(f1, f2, d, p)),
{
    let sk = g@.skeleton();
    lemma_skeleton_wf(g@);
    lemma_clean_file_order(g@, f1.spec_ids());
    assert forall|n: NodeId| #[trigger] sk.has(n) implies !n.patch.spec_is_cur() && n.patch != p by {
        assert(g@.has(n));
    }
    assert(record_ready(sk, f1, f2, d, p));
    lemma_recorded_order(sk, f1, f2, d, p);
    lemma_clean_file_order(g2@, recorded_output(f1, f2, d, p));
}

/// Each line of the diff's output is its new line, or an old line whose text is that of the
/// new line.
proof fn lemma_output_lines(f1: File, f2: File, d: Seq<LineDiff>, pa: int, pb: int)
    requires
        f1.spec_ids().no_duplicates(),
        f2.spec_ids().no_duplicates(),
        apart(f1.spec_ids(), f2.spec_ids()),
        src_indices(d) == upto(pa),
        dst_indices(d) == upto(pb),
        0 <= pa <= f1.spec_ids().len(),
        0 <= pb <= f2.spec_ids().len(),
        f1.spec_ids().len() == file_lines(f1).len(),
        f2.spec_ids().len() == file_lines(f2).len(),
        forall|k: int| 0 <= k < d.len() ==> #[trigger] keep_ok(file_lines(f1), file_lines(f2), d[k]),
    ensures
        forall|j: int| 0 <= j < pb ==> #[trigger] diff_output(f1.spec_ids(), f2.spec_ids(), d)[j] == f2.spec_ids()[j]
            || exists|i: int| 0 <= i < pa && diff_output(f1.spec_ids(), f2.spec_ids(), d)[j] == f1.spec_ids()[i]
                && #[trigger] f1.spec_node(i) == f2.spec_node(j),
    decreases d.len(),
{
    let old = f1.spec_ids();
    let new = f2.spec_ids();
    let o = diff_output(old, new, d);
    lemma_output_facts(old, new, d, pa, pb);
    if d.len() > 0 {
        let dp = d.drop_last();
        let op = diff_output(old, new, dp);
        assert forall|k: int| 0 <= k < dp.len() implies #[trigger] keep_ok(file_lines(f1), file_lines(f2), dp[k]) by {
            assert(dp[k] == d[k]);
        }
        let (pa0, pb0) = match d.last() {
            LineDiff::New(j) => (pa, pb - 1),
            LineDiff::Delete(i) => (pa - 1, pb),
            LineDiff::Keep(i, j) => (pa - 1, pb - 1),
        };
        match d.last() {
            LineDiff::New(j) => {
                assert(src_indices(d) == src_indices(dp));
                lemma_upto_pop(dst_indices(dp), j as int, pb);
            },
            LineDiff::Delete(i) => {
                assert(dst_indices(d) == dst_indices(dp));
                lemma_upto_pop(src_indices(dp), i as int, pa);
            },
            LineDiff::Keep(i, j) => {
                lemma_upto_pop(src_indices(dp), i as int, pa);
                lemma_upto_pop(dst_indices(dp), j as int, pb);
            },
        }
        lemma_output_lines(f1, f2, dp, pa0, pb0);
        assert forall|j: int| 0 <= j < pb implies #[trigger] o[j] == new[j]
            || exists|i: int| 0 <= i < pa && o[j] == old[i] && #[trigger] f1.spec_node(i) == f2.spec_node(j) by {
            if j < pb0 {
                assert(o[j] == op[j]);
                if op[j] != new[j] {
                    let i = choose|i: int| 0 <= i < pa0 && op[j] == old[i] && #[trigger] f1.spec_node(i) == f2.spec_node(j);
                }
            } else {
                match d.last() {
                    LineDiff::Keep(i0, j0) => {
                        let k = d.len() - 1;
                        assert(keep_ok(file_lines(f1), file_lines(f2), d[k]));
                        assert(file_lines(f1)[i0 as int] == f1.spec_node(i0 as int));
                        assert(o[j] == old[i0 as int]);
                    },
                    _ => {},
                }
            }
        }
    }
}

/// Each node that the changes made from a diff add is a line `j` of `f2`, with the text of
/// that line.
proof fn lemma_new_contents(f1: File, f2: File, d: Seq<LineDiff>)
    requires
        diff_fits(f1, f2, d),
    ensures
        forall|k: int| 0 <= k < changes_from_diff(f1, f2, d).len() && (#[trigger] changes_from_diff(f1, f2, d)[k]) is NewNode ==>
            exists|j: int| 0 <= j < f2.spec_ids().len() && changes_from_diff(f1, f2, d)[k] == (ChangeView::NewNode {
                id: f2.spec_ids()[j],
                contents: #[trigger] f2.spec_node(j),
            }),
    decreases d.len(),
{
    let cs = changes_from_diff(f1, f2, d);
    if d.len() > 0 {
        let dp = d.drop_last();
        let csp = changes_from_diff(f1, f2, dp);
        let lc = line_changes(f1, f2, last_line_after(f1, f2, dp), d.last());
        assert forall|k: int| 0 <= k < dp.len() implies #[trigger] dp[k] == d[k] by {}
        lemma_new_contents(f1, f2, dp);
        assert(cs == csp + lc);
        assert forall|k: int| 0 <= k < cs.len() && (#[trigger] cs[k]) is NewNode implies exists|j: int| 0 <= j < f2.spec_ids().len()
            && cs[k] == (ChangeView::NewNode { id: f2.spec_ids()[j], contents: #[trigger] f2.spec_node(j) }) by {
            if k < csp.len() {
                assert(cs[k] == csp[k]);
            } else {
                assert(cs[k] == lc[k - csp.len()]);
                match d.last() {
                    LineDiff::New(j) => {
                        assert(k == csp.len());
                        let kk = d.len() - 1;
                        assert(d[kk] == d.last());
                        assert(j < f2.spec_ids().len());
                        assert(cs[k] == (ChangeView::NewNode { id: f2.spec_ids()[j as int], contents: f2.spec_node(j as int) }));
                    },
                    _ => {},
                }
            }
        }
    }
}

/// A node that no change of `cs` adds keeps its contents.
proof fn lemma_after_not_new(m: Map<NodeId, Seq<u8>>, cs: Seq<ChangeView>, id: NodeId)
    requires
        forall|k: int| 0 <= k < cs.len() ==> #[trigger] new_id(cs[k]) != Some(id),
    ensures
        contents_after(m, cs).contains_key(id) == m.contains_key(id),
        contents_after(m, cs)[id] == m[id],
    decreases cs.len(),
{
    if cs.len() > 0 {
        let cp = cs.drop_last();
        assert forall|k: int| 0 <= k < cp.len() implies #[trigger] new_id(cp[k]) != Some(id) by {
            assert(cp[k] == cs[k]);
        }
        lemma_after_not_new(m, cp, id);
        let k = cs.len() - 1;
        assert(new_id(cs[k]) != Some(id));
    }
}

/// A node that exactly one change of `cs` adds gets the contents of that change.
proof fn lemma_after_new_at(m: Map<NodeId, Seq<u8>>, cs: Seq<ChangeView>, k: int, id: NodeId)
    requires
        0 <= k < cs.len(),
        new_id(cs[k]) == Some(id),
        forall|k2: int| 0 <= k2 < cs.len() && k2 != k ==> #[trigger] new_id(cs[k2]) != Some(id),
    ensures
        contents_after(m, cs).contains_key(id),
        contents_after(m, cs)[id] == cs[k]->NewNode_contents,
    decreases cs.len(),
{
    let cp = cs.drop_last();
    if k == cs.len() - 1 {
        assert(cs.last() == cs[k]);
    } else {
        assert(cp[k] == cs[k]);
        assert forall|k2: int| 0 <= k2 < cp.len() && k2 != k implies #[trigger] new_id(cp[k2]) != Some(id) by {
            assert(cp[k2] == cs[k2]);
        }
        lemma_after_new_at(m, cp, k, id);
        let l = cs.len() - 1;
        assert(new_id(cs[l]) != Some(id));
    }
}

/// What the recorded patch stores: the line contents that it adds fit the stored ones, and
/// afterwards each line of the recorded output has the text of its line in `f2`, when the old
/// lines have the text of the lines of `f1` and the diff keeps only lines with equal text.
pub proof fn lemma_recorded_contents(f1: File, f2: File, d: Seq<LineDiff>, p: PatchId, c0: Map<NodeId, Seq<u8>>)
    requires
        f1.spec_ids().no_duplicates(),
        forall|i: int| 0 <= i < f1.spec_ids().len() ==> !(#[trigger] f1.spec_ids()[i]).patch.spec_is_cur()
            && f1.spec_ids()[i].patch != p,
        forall|j: int| 0 <= j < f2.spec_ids().len() ==> (#[trigger] f2.spec_ids()[j]).patch.spec_is_cur() && f2.spec_ids()[j].node == j,
        !p.spec_is_cur(),
        src_indices(d) == upto(f1.spec_ids().len() as int),
        dst_indices(d) == upto(f2.spec_ids().len() as int),
        diff_fits(f1, f2, d),
        forall|k: int| 0 <= k < d.len() ==> #[trigger] keep_ok(file_lines(f1), file_lines(f2), d[k]),
        forall|i: int| 0 <= i < f1.spec_ids().len() ==> c0[#[trigger] f1.spec_ids()[i]] == f1.spec_node(i),
        forall|n: NodeId| #[trigger] c0.contains_key(n) ==> n.patch != p,
    ensures
        contents_fit(c0, recorded_changes(f1, f2, d, p)),
        recorded_output(f1, f2, d, p).len() == f2.spec_ids().len(),
        forall|j: int| 0 <= j < f2.spec_ids().len() ==>
            contents_after(c0, recorded_changes(f1, f2, d, p))[#[trigger] recorded_output(f1, f2, d, p)[j]] == f2.spec_node(j),
{
    let old = f1.spec_ids();
    let new = f2.spec_ids();
    let o = diff_output(old, new, d);
    let o2 = recorded_output(f1, f2, d, p);
    let cs0 = changes_from_diff(f1, f2, d);
    let cs = recorded_changes(f1, f2, d, p);
    assert(new.no_duplicates()) by {
        assert forall|a: int, b: int| 0 <= a < b < new.len() implies new[a] != new[b] by {
            assert(new[a].node == a && new[b].node == b);
        }
    }
    assert(apart(old, new));
    lemma_output_facts(old, new, d, old.len() as int, new.len() as int);
    lemma_output_lines(f1, f2, d, old.len() as int, new.len() as int);
    lemma_changes_in_order(f1, f2, d, old.len() as int, new.len() as int, p);
    lemma_new_contents(f1, f2, d);
    assert(cs.len() == cs0.len());
    // The nodes that the recorded patch adds are nodes of `p`, each added once, with the text
    // of its line.
    assert forall|k: int| 0 <= k < cs.len() && (#[trigger] cs[k]) is NewNode implies
        exists|j: int| 0 <= j < new.len() && cs[k] == (ChangeView::NewNode {
            id: NodeId { patch: p, node: j as u64 },
            contents: #[trigger] f2.spec_node(j),
        }) by {
        assert(cs0[k] is NewNode);
        let j = choose|j: int| 0 <= j < new.len() && cs0[k] == (ChangeView::NewNode { id: new[j], contents: #[trigger] f2.spec_node(j) });
        assert(new[j].with_patch(p) == (NodeId { patch: p, node: j as u64 }));
    }
    assert forall|k: int, k2: int| 0 <= k < cs.len() && 0 <= k2 < cs.len() && k != k2 && (#[trigger] new_id(cs[k])) is Some
        implies new_id(cs[k]) != #[trigger] new_id(cs[k2]) by {
        lemma_recorded_at(f1, f2, d, p, k);
        lemma_recorded_at(f1, f2, d, p, k2);
        if new_id(cs[k2]) is Some {
            assert(new_id(cs0[k]) != new_id(cs0[k2]));
            let j1 = choose|j: int| 0 <= j < new.len() && cs0[k] == (ChangeView::NewNode { id: new[j], contents: #[trigger] f2.spec_node(j) });
            let j2 = choose|j: int| 0 <= j < new.len() && cs0[k2] == (ChangeView::NewNode { id: new[j], contents: #[trigger] f2.spec_node(j) });
            assert(new[j1].with_patch(p) == (NodeId { patch: p, node: j1 as u64 }));
            assert(new[j2].with_patch(p) == (NodeId { patch: p, node: j2 as u64 }));
        }
    }
    assert forall|i: int| 0 <= i < cs.len() implies match #[trigger] cs[i] {
        ChangeView::NewNode { id, contents } => contents_after(c0, cs.take(i)).contains_key(id)
            ==> contents_after(c0, cs.take(i))[id] == contents,
        _ => true,
    } by {
        if cs[i] is NewNode {
            let id = new_id(cs[i])->0;
            let t = cs.take(i);
            assert forall|k: int| 0 <= k < t.len() implies #[trigger] new_id(t[k]) != Some(id) by {
                assert(t[k] == cs[k]);
            }
            lemma_after_not_new(c0, t, id);
            let j = choose|j: int| 0 <= j < new.len() && cs[i] == (ChangeView::NewNode {
                id: NodeId { patch: p, node: j as u64 },
                contents: #[trigger] f2.spec_node(j),
            });
            assert(!c0.contains_key(id));
        }
    }
    assert forall|j: int| 0 <= j < new.len() implies contents_after(c0, cs)[#[trigger] o2[j]] == f2.spec_node(j) by {
        assert(o2[j] == o[j].with_patch(p));
        if o[j] == new[j] {
            assert(o.contains(o[j]));
            assert(!old.contains(o[j])) by {
                if old.contains(o[j]) {
                    let i = choose|i: int| 0 <= i < old.len() && old[i] == o[j];
                }
            }
            lemma_changes_facts(f1, f2, d, old.len() as int, new.len() as int, p);
            assert(all_added(cs0).contains(o[j]));
            let k = choose|k: int| 0 <= k < cs0.len() && #[trigger] new_id(cs0[k]) == Some(o[j]);
            lemma_recorded_at(f1, f2, d, p, k);
            let j1 = choose|j1: int| 0 <= j1 < new.len() && cs0[k] == (ChangeView::NewNode { id: new[j1], contents: #[trigger] f2.spec_node(j1) });
            assert(new[j1] == new[j]);
            assert(j1 == j);
            lemma_after_new_at(c0, cs, k, o2[j]);
        } else {
            let i = choose|i: int| 0 <= i < old.len() && o[j] == old[i] && #[trigger] f1.spec_node(i) == f2.spec_node(j);
            assert(o2[j] == old[i]);
            assert forall|k: int| 0 <= k < cs.len() implies #[trigger] new_id(cs[k]) != Some(old[i]) by {
                if cs[k] is NewNode {
                    let j2 = choose|j2: int| 0 <= j2 < new.len() && cs[k] == (ChangeView::NewNode {
                        id: NodeId { patch: p, node: j2 as u64 },
                        contents: #[trigger] f2.spec_node(j2),
                    });
                }
            }
            lemma_after_not_new(c0, cs, old[i]);
        }
    }
}

/// Along a chain of consecutive lines of the order `b`, the positions in another order `a` of
/// the same graggle increase.
proof fn lemma_chain_forward(g: GraggleView, a: Seq<NodeId>, b: Seq<NodeId>, k: int, m: int)
    requires
        is_file_order(g, a),
        is_file_order(g, b),
        0 <= k <= m < b.len(),
    ensures
        forall|x: int, y: int| 0 <= x < a.len() && 0 <= y < a.len() && a[x] == b[k] && a[y] == b[m] ==> x <= y,
    decreases m - k,
{
    if k < m {
        lemma_chain_forward(g, a, b, k + 1, m);
        assert(linked(g, b[k], b[k + 1]));
        assert forall|x: int, y: int| 0 <= x < a.len() && 0 <= y < a.len() && a[x] == b[k] && a[y] == b[m] implies x <= y by {
            assert(b.contains(b[k + 1]));
            assert(g.live.contains(b[k + 1]));
            assert(a.contains(b[k + 1]));
            let z = choose|z: int| 0 <= z < a.len() && a[z] == b[k + 1];
            assert(linked(g, a[x], a[z]));
        }
    } else {
        assert forall|x: int, y: int| 0 <= x < a.len() && 0 <= y < a.len() && a[x] == b[k] && a[y] == b[m] implies x <= y by {
            if y < x {
                assert(a[x] == a[y]);
            }
        }
    }
}

/// Two file orders of a graggle agree on their first `k + 1` places.
proof fn lemma_file_order_prefix(g: GraggleView, a: Seq<NodeId>, b: Seq<NodeId>, k: int)
    requires
        is_file_order(g, a),
        is_file_order(g, b),
        a.len() == b.len(),
        0 <= k < a.len(),
    ensures
        forall|j: int| 0 <= j <= k ==> a[j] == b[j],
    decreases k,
{
    if k > 0 {
        lemma_file_order_prefix(g, a, b, k - 1);
    }
    if a[k] != b[k] {
        assert(b[k] == b[k]);
        assert(b.contains(b[k]));
        assert(g.live.contains(b[k]));
        assert(a.contains(b[k]));
        let px = choose|px: int| 0 <= px < a.len() && a[px] == b[k];
        assert(a.contains(a[k]));
        assert(g.live.contains(a[k]));
        assert(b.contains(a[k]));
        let qb = choose|qb: int| 0 <= qb < b.len() && b[qb] == a[k];
        assert(px > k) by {
            if px < k {
                assert(a[px] == b[px]);
            }
        }
        assert(qb > k) by {
            if qb < k {
                assert(a[qb] == b[qb]);
            }
        }
        lemma_chain_forward(g, a, b, k, qb);
        assert(a[px] == b[k] && a[k] == b[qb]);
    }
}

/// A graggle has at most one file order.
pub proof fn lemma_file_order_unique(g: GraggleView, a: Seq<NodeId>, b: Seq<NodeId>)
    requires
        is_file_order(g, a),
        is_file_order(g, b),
    ensures
        a == b,
{
    assert(a.to_set() =~= b.to_set()) by {
        assert forall|n: NodeId| a.to_set().contains(n) <==> b.to_set().contains(n) by {
            assert(a.contains(n) <==> g.live.contains(n));
            assert(b.contains(n) <==> g.live.contains(n));
        }
    }
    a.unique_seq_to_set();
    b.unique_seq_to_set();
    assert(a.len() == b.len());
    if a.len() > 0 {
        lemma_file_order_prefix(g, a, b, a.len() - 1);
    }
    assert(a =~= b);
}

/// Recording an edit gives back the edited text. Take a graggle whose pseudo-edges are up to
/// date and whose file is `f1`, with the contents `c0` for its lines, and a valid diff `d`
/// from the lines of `f1` to those of a new text `f2`. The patch `p` made from the diff (whose
/// nodes and id are new to the graggle and to `c0`) can be applied and its contents stored;
/// once the pseudo-edges are up to date again, the graggle's file is the recorded output,
/// whose lines hold the text of the lines of `f2`, one for one.
pub proof fn lemma_recorded_file(
    g: GraggleData,
    f1: File,
    f2: File,
    d: Seq<LineDiff>,
    p: PatchId,
    c0: Map<NodeId, Seq<u8>>,
    g2: GraggleData,
    ids: Seq<NodeId>,
)
    requires
        g.wf(),
        !g.is_dirty(),
        f1.wf(),
        f2.wf(),
        is_file_order(g@, f1.spec_ids()),
        forall|i: int| 0 <= i < f1.spec_ids().len() ==> c0[#[trigger] f1.spec_ids()[i]] == f1.spec_node(i),
        forall|j: int| 0 <= j < f2.spec_ids().len() ==> (#[trigger] f2.spec_ids()[j]).patch.spec_is_cur() && f2.spec_ids()[j].node == j,
        is_valid_diff(file_lines(f1), file_lines(f2), d),
        forall|n: NodeId| #[trigger] g@.has(n) ==> !n.patch.spec_is_cur() && n.patch != p,
        forall|n: NodeId| #[trigger] c0.contains_key(n) ==> n.patch != p,
        !p.spec_is_cur(),
        g2.wf(),
        !g2.is_dirty(),
        g2@.skeleton() == apply_all(g@.skeleton(), recorded_changes(f1, f2, d, p), p),
        is_file_order(g2@, ids),
    ensures
        applicable(g@.skeleton(), recorded_changes(f1, f2, d, p), p),
        contents_fit(c0, recorded_changes(f1, f2, d, p)),
        ids == recorded_output(f1, f2, d, p),
        ids.len() == f2.spec_ids().len(),
        forall|j: int| 0 <= j < ids.len() ==> contents_after(c0, recorded_changes(f1, f2, d, p))[#[trigger] ids[j]] == f2.spec_node(j),
{
    let old = f1.spec_ids();
    assert(diff_upto(file_lines(f1), file_lines(f2), d, file_lines(f1).len() as int, file_lines(f2).len() as int));
    assert(file_lines(f1).len() == old.len());
    assert(file_lines(f2).len() == f2.spec_ids().len());
    lemma_valid_diff_in_range(file_lines(f1), file_lines(f2), d);
    assert(diff_fits(f1, f2, d));
    lemma_recorded_graggle(g, f1, f2, d, p, g2);
    lemma_file_order_unique(g2@, ids, recorded_output(f1, f2, d, p));
    assert(old.no_duplicates());
    assert forall|i: int| 0 <= i < old.len() implies !(#[trigger] old[i]).patch.spec_is_cur() && old[i].patch != p by {
        assert(old.contains(old[i]));
        assert(g@.has(old[i]));
    }
    lemma_recorded_contents(f1, f2, d, p, c0);
}

} // verus!
