use ojo::change::{Change, Changes};
use ojo::file::File;
use ojo::ids::{NodeId, PatchId};
use ojo::patch::{check_patch_validity, patch_deps, PatchError, PatchIdError, UnidentifiedPatch};
use ojo::storage::Storage;

#[test]
fn patch_id_base64_roundtrip() {
    let id = PatchId::from_sha256(b"hello");
    let text = id.to_base64();
    assert_eq!(text.len(), 45);
    assert!(text.starts_with('P'));
    let back = PatchId::from_base64(text.as_bytes()).unwrap();
    assert_eq!(back, id);
}

#[test]
fn patch_id_cur_text() {
    // 32 zero bytes encode to 43 'A's and one '=' of padding.
    let text = PatchId::cur().to_base64();
    assert_eq!(text, format!("P{}=", "A".repeat(43)));
}

#[test]
fn patch_id_base64_errors() {
    match PatchId::from_base64(b"P!!!!") {
        Err(PatchIdError::Base64Decode(_)) => {}
        other => panic!("unexpected {:?}", other),
    }
    match PatchId::from_base64(b"PAAAA") {
        Err(PatchIdError::InvalidLength(3)) => {}
        other => panic!("unexpected {:?}", other),
    }
}

#[test]
fn patch_id_sha256() {
    let a = PatchId::from_sha256(b"contents");
    let b = PatchId::from_sha256(b"contents");
    let c = PatchId::from_sha256(b"other contents");
    assert_eq!(a, b);
    assert_ne!(a, c);
    assert!(!a.is_cur());
    assert!(PatchId::cur().is_cur());
    // The SHA-256 digest of the empty input.
    let e = PatchId::from_sha256(b"");
    assert_eq!(e.to_base64(), "P47DEQpj8HBSa-_TImW-5JCeuQeRkm5NMpJWZG3hSuFU=");
}

fn other_node(seed: &[u8], node: u64) -> NodeId {
    NodeId { patch: PatchId::from_sha256(seed), node }
}

#[test]
fn unidentified_patch_deps_and_id() {
    let a = other_node(b"a", 0);
    let b = other_node(b"b", 3);
    let changes = Changes {
        changes: vec![
            Change::NewNode { id: NodeId::cur(0), contents: b"line\n".to_vec() },
            Change::NewEdge { src: a, dest: NodeId::cur(0) },
            Change::NewEdge { src: NodeId::cur(0), dest: b },
            Change::DeleteNode { id: a },
        ],
    };
    let deps = patch_deps(&changes);
    assert_eq!(deps.len(), 2);
    assert!(deps.contains(&a.patch));
    assert!(deps.contains(&b.patch));

    let p = UnidentifiedPatch::new("me".to_owned(), "a patch".to_owned(), changes, 1_500_000_000, 7);
    assert_eq!(p.header().author, "me");
    assert_eq!(p.header().description, "a patch");
    assert_eq!(p.header().timestamp, 1_500_000_000);
    assert_eq!(p.header().timestamp_nanos, 7);
    assert_eq!(p.deps().len(), 2);

    let id = PatchId::from_sha256(b"the patch");
    let patch = p.set_id(id);
    assert_eq!(*patch.id(), id);
    assert_eq!(
        patch.changes().changes[0],
        Change::NewNode { id: NodeId { patch: id, node: 0 }, contents: b"line\n".to_vec() }
    );
    assert_eq!(patch.changes().changes[1], Change::NewEdge { src: a, dest: NodeId { patch: id, node: 0 } });
}

#[test]
fn changes_set_patch_id() {
    let id = PatchId::from_sha256(b"x");
    let a = other_node(b"a", 1);
    let mut ch = Changes {
        changes: vec![Change::NewEdge { src: NodeId::cur(2), dest: a }, Change::DeleteNode { id: NodeId::cur(1) }],
    };
    ch.set_patch_id(&id);
    assert_eq!(ch.changes[0], Change::NewEdge { src: NodeId { patch: id, node: 2 }, dest: a });
    assert_eq!(ch.changes[1], Change::DeleteNode { id: NodeId { patch: id, node: 1 } });
    // Setting it again changes nothing.
    let before = ch.clone();
    ch.set_patch_id(&id);
    assert_eq!(ch, before);
}

#[test]
fn patch_validity_errors() {
    let p1 = PatchId::from_sha256(b"p1");
    let p2 = PatchId::from_sha256(b"p2");
    let known = NodeId { patch: p1, node: 0 };
    let stranger = NodeId { patch: p2, node: 0 };
    let new = NodeId::cur(0);
    let ok = Changes {
        changes: vec![
            Change::NewNode { id: new, contents: vec![] },
            Change::NewEdge { src: known, dest: new },
        ],
    };
    assert_eq!(check_patch_validity(&vec![p1], &vec![known], &vec![p1], &ok), Ok(()));

    // A missing dependency.
    assert_eq!(
        check_patch_validity(&vec![p1], &vec![known], &vec![p1, p2], &ok),
        Err(PatchError::MissingDep(p2))
    );

    // A node that the patch may not see: its patch is not a dependency.
    let bad = Changes { changes: vec![Change::DeleteNode { id: stranger }] };
    assert_eq!(
        check_patch_validity(&vec![p1, p2], &vec![known, stranger], &vec![p1], &bad),
        Err(PatchError::UnknownNode(stranger))
    );

    // A node that the repository does not know.
    let unknown = NodeId { patch: p1, node: 7 };
    let bad = Changes { changes: vec![Change::NewEdge { src: new, dest: unknown }] };
    assert_eq!(
        check_patch_validity(&vec![p1], &vec![known], &vec![p1], &bad),
        Err(PatchError::UnknownNode(new))
    );
}

#[test]
fn storage_contents_and_changes() {
    let mut s = Storage::new();
    let inode = s.allocate_inode();
    let id = PatchId::from_sha256(b"patch");
    let n0 = NodeId { patch: id, node: 0 };
    let n1 = NodeId { patch: id, node: 1 };
    let changes = Changes {
        changes: vec![
            Change::NewNode { id: n0, contents: b"first\n".to_vec() },
            Change::NewNode { id: n1, contents: b"second\n".to_vec() },
            Change::NewEdge { src: n0, dest: n1 },
        ],
    };
    s.apply_changes(inode, &changes, id);
    assert!(s.contains_node(&n0));
    assert_eq!(s.contents(&n1), &b"second\n".to_vec());
    s.update_cache(inode);
    {
        let g = s.graggle(inode);
        assert!(g.is_live(&n0));
        assert_eq!(g.out_neighbors(&n0), vec![n1]);
    }

    // A clone has the same graggle.
    let copy = s.clone_inode(inode);
    assert!(s.graggle(copy).is_live(&n1));

    s.unapply_changes(inode, &changes, id);
    assert!(!s.contains_node(&n0));
    assert!(!s.graggle(inode).has_node(&n0));
    assert!(s.graggle(copy).has_node(&n0));
}

#[test]
fn storage_add_remove_contents() {
    let mut s = Storage::new();
    let n = NodeId::cur(4);
    assert!(!s.contains_node(&n));
    s.add_contents(n, b"x".to_vec());
    s.add_contents(n, b"x".to_vec());
    assert_eq!(s.contents(&n), &b"x".to_vec());
    s.remove_contents(&n);
    assert!(!s.contains_node(&n));
}

#[test]
fn file_node_ids() {
    let f = File::from_bytes(b"a\nb\nc");
    assert_eq!(f.num_nodes(), 3);
    assert_eq!(*f.node_id(2), NodeId::cur(2));
    assert_eq!(*f.line_id(1), NodeId::cur(1));
    assert_eq!(f.as_bytes(), b"a\nb\nc");
    assert_eq!(f.node(2), b"c");
}
