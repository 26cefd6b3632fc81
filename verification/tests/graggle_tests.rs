use ojo::apply::{apply_changes, unapply_changes};
use ojo::change::{Change, Changes};
use ojo::graggle::{Edge, EdgeKind, GraggleData};
use ojo::ids::{NodeId, PatchId};
use std::collections::HashSet;

// The tests only use node numbers below this.
const MAX_NODE: u64 = 20;

fn make_graggle(live: &[u64], deleted: &[u64], edges: &[(u64, u64)]) -> GraggleData {
    let mut d = GraggleData::new();
    for &i in live {
        d.add_node(NodeId::cur(i));
    }
    for &i in deleted {
        d.add_node(NodeId::cur(i));
        d.delete_node(&NodeId::cur(i));
    }
    for &(s, t) in edges {
        d.add_edge(NodeId::cur(s), NodeId::cur(t), PatchId::cur());
    }
    d
}

struct ChangesWithId {
    changes: Changes,
    id: PatchId,
}

fn make_changes(delete: &[u64], nodes: &[u64], edges: &[(u64, u64)]) -> ChangesWithId {
    let mut changes = Vec::new();
    for &i in delete {
        changes.push(Change::DeleteNode { id: NodeId::cur(i) });
    }
    for &i in nodes {
        changes.push(Change::NewNode { id: NodeId::cur(i), contents: vec![] });
    }
    for &(s, t) in edges {
        changes.push(Change::NewEdge { src: NodeId::cur(s), dest: NodeId::cur(t) });
    }
    ChangesWithId { changes: Changes { changes }, id: PatchId::cur() }
}

fn apply(d: &mut GraggleData, ch: &ChangesWithId) {
    apply_changes(d, &ch.changes, ch.id);
}

fn unapply(d: &mut GraggleData, ch: &ChangesWithId) {
    unapply_changes(d, &ch.changes, ch.id);
}

fn pseudoedges(d: &GraggleData) -> HashSet<(u64, u64)> {
    let mut r = HashSet::new();
    for i in 0..=MAX_NODE {
        for e in d.all_out_edges(&NodeId::cur(i)) {
            if e.kind == EdgeKind::Pseudo {
                r.insert((i, e.dest.node));
            }
        }
    }
    r
}

fn has_pseudoedge(d: &GraggleData, i: u64, j: u64) -> bool {
    d.all_out_edges(&NodeId::cur(i)).contains(&Edge::new_pseudo(NodeId::cur(j)))
}

// Everything about a graggle that can be observed: for each node, whether it is there, whether
// it is live, and its edges and back-edges.
fn canon(d: &GraggleData) -> Vec<(u64, bool, bool, Vec<Edge>, Vec<Edge>)> {
    let g = d.as_graggle();
    let mut r = Vec::new();
    for i in 0..=MAX_NODE {
        let n = NodeId::cur(i);
        let mut out = d.all_out_edges(&n);
        out.sort();
        out.dedup();
        let mut inn = d.all_in_edges(&n);
        inn.sort();
        inn.dedup();
        r.push((i, g.has_node(&n), g.is_live(&n), out, inn));
    }
    r
}

fn assert_pseudoedges(d: &mut GraggleData, expected: &[(u64, u64)]) {
    assert!(d.assert_consistent());
    d.resolve_pseudo_edges();
    assert!(d.assert_consistent());
    let expected = expected.iter().cloned().collect::<HashSet<_>>();
    assert_eq!(expected, pseudoedges(d));
}

fn check_graggle_and_changes(d: GraggleData, chs: &[ChangesWithId]) {
    let start = canon(&d);

    // Apply the changes one by one; at each step, unapplying the change gives back the
    // previous graggle.
    let mut cur = d.duplicate();
    for ch in chs {
        let mut next = cur.duplicate();
        apply(&mut next, ch);
        assert!(next.assert_consistent());
        next.resolve_pseudo_edges();
        assert!(next.assert_consistent());

        let mut unapplied = next.duplicate();
        unapply(&mut unapplied, ch);
        assert!(unapplied.assert_consistent());
        unapplied.resolve_pseudo_edges();
        assert!(unapplied.assert_consistent());
        assert_eq!(canon(&cur), canon(&unapplied));

        cur = next;
    }

    // Applying all the changes and then resolving gives the same answer.
    let mut all_at_once = d.duplicate();
    for ch in chs {
        apply(&mut all_at_once, ch);
    }
    assert!(all_at_once.assert_consistent());
    all_at_once.resolve_pseudo_edges();
    assert!(all_at_once.assert_consistent());
    assert_eq!(canon(&cur), canon(&all_at_once));

    // Unapplying them all gives back the graggle we started from.
    for ch in chs.iter().rev() {
        unapply(&mut all_at_once, ch);
    }
    assert!(all_at_once.assert_consistent());
    all_at_once.resolve_pseudo_edges();
    assert!(all_at_once.assert_consistent());
    assert_eq!(start, canon(&all_at_once));

    // The same, without resolving pseudo-edges in between.
    for ch in chs {
        apply(&mut all_at_once, ch);
    }
    for ch in chs.iter().rev() {
        unapply(&mut all_at_once, ch);
    }
    assert!(all_at_once.assert_consistent());
    all_at_once.resolve_pseudo_edges();
    assert_eq!(start, canon(&all_at_once));

    // And in the other order: unapply them all, then apply them all.
    let mut all_at_once = cur.duplicate();
    for ch in chs.iter().rev() {
        unapply(&mut all_at_once, ch);
    }
    for ch in chs {
        apply(&mut all_at_once, ch);
    }
    assert!(all_at_once.assert_consistent());
    all_at_once.resolve_pseudo_edges();
    assert_eq!(canon(&cur), canon(&all_at_once));
}

#[test]
fn tests_delete_middle() {
    let mut d = make_graggle(&[0, 2], &[1], &[(0, 1), (1, 2)]);
    assert_pseudoedges(&mut d, &[(0, 2)]);
    assert!(has_pseudoedge(&d, 0, 2));
}

// If there is already an edge, there shouldn't be a pseudo-edge added.
#[test]
fn tests_delete_middle_existing() {
    let mut d = make_graggle(&[0, 2], &[1], &[(0, 1), (1, 2), (0, 2)]);
    assert_pseudoedges(&mut d, &[]);
}

#[test]
fn tests_delete_long_middle() {
    let mut d = make_graggle(&[0, 5], &[1, 2, 3, 4], &[(0, 1), (1, 2), (2, 3), (3, 4), (4, 5)]);
    assert_pseudoedges(&mut d, &[(0, 5)]);

    d.unadd_edge(&NodeId::cur(2), &NodeId::cur(3), PatchId::cur());
    assert_pseudoedges(&mut d, &[]);

    d.add_edge(NodeId::cur(2), NodeId::cur(3), PatchId::cur());
    assert_pseudoedges(&mut d, &[(0, 5)]);
    d.undelete_node(&NodeId::cur(3));
    assert_pseudoedges(&mut d, &[(0, 3), (3, 5)]);
    d.undelete_node(&NodeId::cur(1));
    d.undelete_node(&NodeId::cur(2));
    assert_pseudoedges(&mut d, &[(3, 5)]);
    d.undelete_node(&NodeId::cur(4));
    assert_pseudoedges(&mut d, &[]);
}

// Adding a node next to a deleted node might cause a pseudo-edge.
#[test]
fn tests_add_next_to_deleted() {
    let mut d = make_graggle(&[0, 2], &[1], &[(0, 1), (1, 2)]);
    d.add_node(NodeId::cur(3));
    d.add_edge(NodeId::cur(1), NodeId::cur(3), PatchId::cur());
    assert_pseudoedges(&mut d, &[(0, 2), (0, 3)]);
}

// No path between the live nodes goes through the deleted part, so there are no pseudo-edges.
#[test]
fn tests_boundary_vs_interior() {
    let mut d = make_graggle(&[0, 1, 2], &[3], &[(0, 1), (1, 2), (2, 0), (0, 3), (1, 3), (2, 3)]);
    assert_pseudoedges(&mut d, &[]);
}

// Adding edges back from the deleted component gives the pseudo-edges after all.
#[test]
fn tests_boundary_vs_interior_connected() {
    let mut d = make_graggle(
        &[0, 1, 2],
        &[3],
        &[(0, 1), (1, 2), (2, 0), (0, 3), (1, 3), (2, 3), (3, 0), (3, 1), (3, 2)],
    );
    assert_pseudoedges(&mut d, &[(0, 2), (2, 1), (1, 0)]);
}

// There are two reasons for the pseudo-edge between 0 and 3.
#[test]
fn tests_two_reasons() {
    let mut d = make_graggle(&[0, 3], &[1, 2], &[(0, 1), (1, 3), (0, 2), (2, 3)]);
    assert_pseudoedges(&mut d, &[(0, 3)]);

    // If we get rid of one reason, the pseudo-edge should still be there.
    d.undelete_node(&NodeId::cur(1));
    assert_pseudoedges(&mut d, &[(0, 3)]);

    d.undelete_node(&NodeId::cur(2));
    assert_pseudoedges(&mut d, &[]);
}

// It's legal for two different patches to add the same edge.
#[test]
fn duplicate_edge() {
    let d = make_graggle(&[0, 1], &[], &[]);
    let mut ch1 = make_changes(&[], &[], &[(0, 1)]);
    let mut ch2 = make_changes(&[], &[], &[(0, 1)]);
    ch1.id = PatchId::from_sha256(b"1");
    ch2.id = PatchId::from_sha256(b"2");
    check_graggle_and_changes(d, &[ch1, ch2]);
}

// Make a graggle like 0 -> 1 -> 2, and delete node 1.
#[test]
fn tests_append_and_delete() {
    let d = make_graggle(&[0, 1], &[], &[(0, 1)]);
    let ch = make_changes(&[1], &[2], &[(1, 2)]);

    let mut clone = d.duplicate();
    apply(&mut clone, &ch);
    clone.resolve_pseudo_edges();
    assert_pseudoedges(&mut clone, &[(0, 2)]);

    check_graggle_and_changes(d, &[ch]);
}

#[test]
fn tests_two_changes() {
    let g = make_graggle(&[0], &[], &[]);
    let ch1 = make_changes(&[], &[1], &[(1, 0)]);
    let ch2 = make_changes(&[1], &[2], &[(2, 0), (0, 2), (1, 2)]);
    check_graggle_and_changes(g, &[ch1, ch2]);
}

// Create a graggle of three nodes by making the outer two first, and then adding the middle one.
#[test]
fn tests_add_middle() {
    let d = make_graggle(&[0, 2], &[], &[]);
    let changes1 = make_changes(&[], &[1], &[(0, 1), (1, 2)]);
    let changes2 = make_changes(&[1], &[], &[]);
    check_graggle_and_changes(d, &[changes1, changes2]);
}

#[test]
fn tests_reconstruct_partition() {
    let d = make_graggle(&[0, 1, 2], &[], &[(0, 1)]);
    let ch = make_changes(&[0, 1, 2], &[10, 11], &[(11, 0), (10, 2), (0, 10), (2, 11)]);
    check_graggle_and_changes(d, &[ch]);
}

// Deleting one reason for a pseudo-edge keeps it while there is another.
#[test]
fn tests_double_reason() {
    let d = make_graggle(&[0, 1, 2, 3], &[], &[(0, 1), (1, 0), (2, 0), (3, 0), (3, 1)]);
    let ch1 = make_changes(
        &[1, 2, 3],
        &[10, 11],
        &[(11, 10), (10, 0), (10, 3), (10, 1), (1, 10), (0, 11)],
    );
    let ch2 = make_changes(&[11], &[], &[]);
    check_graggle_and_changes(d, &[ch1, ch2]);
}

#[test]
fn tests_lots_of_edges() {
    let d = make_graggle(&[0, 1, 2, 3], &[], &[]);
    let ch1 = make_changes(
        &[0, 1, 3],
        &[10, 11, 12, 13],
        &[
            (12, 10),
            (12, 11),
            (12, 2),
            (13, 3),
            (12, 1),
            (11, 3),
            (11, 1),
            (13, 0),
            (10, 2),
            (11, 0),
            (10, 1),
            (10, 0),
            (3, 13),
            (1, 10),
            (2, 10),
            (0, 11),
            (3, 12),
        ],
    );
    let ch2 = make_changes(&[10], &[], &[]);
    check_graggle_and_changes(d, &[ch1, ch2]);
}

#[test]
fn tests_delete_and_undelete() {
    let d = make_graggle(&[0], &[], &[]);
    let ch = make_changes(&[0], &[], &[]);
    check_graggle_and_changes(d, &[ch]);
}

// A live graggle is consistent, and clean after resolving.
#[test]
fn live_graggle_consistent() {
    let mut d = make_graggle(&[0, 1, 2, 3], &[], &[(0, 1), (1, 2), (2, 3), (0, 3), (3, 1)]);
    assert!(d.assert_consistent());
    d.resolve_pseudo_edges();
    assert!(d.assert_consistent());
    assert!(pseudoedges(&d).is_empty());
}

// Unapplying a patch gives back the graggle it was applied to (the central law).
#[test]
fn unapply_undoes_apply() {
    let d = make_graggle(&[0, 1, 2], &[], &[(0, 1), (1, 2)]);
    let before = canon(&d);
    let mut e = d.duplicate();
    let ch = make_changes(&[1], &[5, 6], &[(0, 5), (5, 6), (6, 2)]);
    apply(&mut e, &ch);
    assert_ne!(before, canon(&e));
    unapply(&mut e, &ch);
    e.resolve_pseudo_edges();
    let mut d2 = d.duplicate();
    d2.resolve_pseudo_edges();
    assert_eq!(canon(&d2), canon(&e));
}

// A graggle with a self-loop is not loop-free, so it is not consistent.
#[test]
fn self_loop_inconsistent() {
    let d = make_graggle(&[0], &[], &[(0, 0)]);
    assert!(!d.assert_consistent());
}

#[test]
fn out_edges_follow_all_out_edges() {
    let d = make_graggle(&[0, 2, 4], &[1, 3], &[(0, 4), (0, 1), (0, 2), (0, 3)]);
    let g = d.as_graggle();
    let all = g.all_out_edges(&NodeId::cur(0));
    let live: Vec<Edge> = all.iter().filter(|e| e.kind != EdgeKind::Deleted).cloned().collect();
    assert_eq!(all.len(), 4);
    assert_eq!(g.out_edges(&NodeId::cur(0)), live);
    assert_eq!(live.len(), 2);
    // Live edges first, each kind by destination.
    let dests: Vec<u64> = all.iter().map(|e| e.dest.node).collect();
    assert_eq!(dests, vec![2, 4, 1, 3]);
    assert_eq!(&all[..2], &live[..]);
}

// A patch that adds a line and deletes it again is undone too.
#[test]
fn unapply_undoes_add_then_delete() {
    let d = make_graggle(&[0, 1], &[], &[(0, 1)]);
    let before = canon(&d);
    let mut e = d.duplicate();
    let changes = Changes {
        changes: vec![
            Change::NewNode { id: NodeId::cur(7), contents: vec![] },
            Change::NewEdge { src: NodeId::cur(0), dest: NodeId::cur(7) },
            Change::NewEdge { src: NodeId::cur(7), dest: NodeId::cur(1) },
            Change::DeleteNode { id: NodeId::cur(7) },
        ],
    };
    let ch = ChangesWithId { changes, id: PatchId::cur() };
    apply(&mut e, &ch);
    assert_ne!(before, canon(&e));
    unapply(&mut e, &ch);
    e.resolve_pseudo_edges();
    let mut d2 = d.duplicate();
    d2.resolve_pseudo_edges();
    assert_eq!(canon(&d2), canon(&e));
}
