use ojo::change::{Change, Changes};
use ojo::diff::LineDiff;
use ojo::ids::{NodeId, PatchId};
use ojo::patch::{Patch, PatchIdError, UnidentifiedPatch};
use ojo::repo::{Error, Repo};

// Makes a patch whose id is the hash of `data`.
fn make_patch(data: &str, changes: Vec<Change>) -> Patch {
    let up = UnidentifiedPatch::new("tester".to_owned(), data.to_owned(), Changes { changes }, 0, 0);
    up.set_id(PatchId::from_sha256(data.as_bytes()))
}

fn register(repo: &mut Repo, data: &str, changes: Vec<Change>) -> Patch {
    let p = make_patch(data, changes);
    repo.register_patch_with_data(p.clone(), data.to_owned()).unwrap();
    p
}

// Applies a patch and everything it needs one patch at a time, as `apply_patch` does.
fn apply_by_steps(repo: &mut Repo, branch: &str, patches: &[&Patch], id: &PatchId) -> Vec<PatchId> {
    let order = repo.apply_order(branch, id).unwrap();
    for pid in &order {
        let p = patches.iter().find(|p| p.id() == pid).unwrap();
        repo.apply_one_patch(branch, p).unwrap();
    }
    repo.update_cache(branch).unwrap();
    order
}

fn unapply_by_steps(repo: &mut Repo, branch: &str, patches: &[&Patch], id: &PatchId) -> Vec<PatchId> {
    let order = repo.unapply_order(branch, id).unwrap();
    for pid in &order {
        let p = patches.iter().find(|p| p.id() == pid).unwrap();
        repo.unapply_one_patch(branch, p).unwrap();
    }
    repo.update_cache(branch).unwrap();
    order
}

// A first patch with two lines, and a second that adds a line after the first one.
fn two_patches(repo: &mut Repo) -> (Patch, Patch) {
    let p1 = register(
        repo,
        "first",
        vec![
            Change::NewNode { id: NodeId::cur(0), contents: b"a\n".to_vec() },
            Change::NewNode { id: NodeId::cur(1), contents: b"b\n".to_vec() },
            Change::NewEdge { src: NodeId::cur(0), dest: NodeId::cur(1) },
        ],
    );
    // A patch can only refer to lines that the repository has seen, so the first patch is
    // applied to a scratch branch before the second one is registered.
    repo.create_branch("scratch").unwrap();
    repo.apply_patch("scratch", p1.id()).unwrap();
    let a = NodeId { patch: *p1.id(), node: 0 };
    let b = NodeId { patch: *p1.id(), node: 1 };
    let p2 = register(
        repo,
        "second",
        vec![
            Change::NewNode { id: NodeId::cur(0), contents: b"c\n".to_vec() },
            Change::NewEdge { src: b, dest: NodeId::cur(0) },
            Change::DeleteNode { id: a },
        ],
    );
    (p1, p2)
}

fn file_text(repo: &Repo, branch: &str) -> Vec<u8> {
    repo.file(branch).unwrap().as_bytes().to_vec()
}

#[test]
fn repo_init_and_branches() {
    let mut repo = Repo::init_tmp();
    assert_eq!(repo.current_branch, "master");
    assert_eq!(repo.branches(), vec!["master".to_owned()]);
    assert!(repo.create_branch("other").is_ok());
    assert!(matches!(repo.create_branch("other"), Err(Error::BranchExists(ref b)) if b == "other"));
    assert!(matches!(repo.switch_branch("nope"), Err(Error::UnknownBranch(ref b)) if b == "nope"));
    assert!(repo.switch_branch("other").is_ok());
    assert_eq!(repo.current_branch, "other");
    assert!(matches!(repo.delete_branch("other"), Err(Error::CurrentBranch(_))));
    repo.switch_branch("master").unwrap();
    repo.delete_branch("other").unwrap();
    assert_eq!(repo.branches(), vec!["master".to_owned()]);
    assert!(matches!(repo.inode("other"), Err(Error::UnknownBranch(_))));
    // An empty branch is an empty file.
    assert_eq!(file_text(&repo, "master"), Vec::<u8>::new());
}

#[test]
fn repo_register_patches() {
    let mut repo = Repo::init_tmp();
    let (p1, p2) = two_patches(&mut repo);
    assert_eq!(repo.all_patches(), vec![*p1.id(), *p2.id()]);
    assert_eq!(repo.patch_deps(p2.id()), vec![*p1.id()]);
    assert_eq!(repo.patch_rev_deps(p1.id()), vec![*p2.id()]);
    assert_eq!(repo.open_patch_data(p1.id()).unwrap(), "first");
    // Registering again with the same data is fine; other data is a collision.
    assert!(repo.register_patch_with_data(p1.clone(), "first".to_owned()).is_ok());
    match repo.register_patch_with_data(p1.clone(), "other".to_owned()) {
        Err(Error::PatchId(PatchIdError::Collision(id))) => assert_eq!(id, *p1.id()),
        other => panic!("unexpected {:?}", other),
    }
    assert!(matches!(repo.open_patch_data(&PatchId::from_sha256(b"?")), Err(Error::UnknownPatch(_))));
}

#[test]
fn repo_register_missing_dep() {
    let mut repo = Repo::init_tmp();
    let stranger = NodeId { patch: PatchId::from_sha256(b"unknown"), node: 0 };
    let p = make_patch("needy", vec![Change::DeleteNode { id: stranger }]);
    match repo.register_patch_with_data(p, "needy".to_owned()) {
        Err(Error::MissingDep(d)) => assert_eq!(d, stranger.patch),
        other => panic!("unexpected {:?}", other),
    }
    assert!(repo.all_patches().is_empty());
}

#[test]
fn repo_apply_and_unapply() {
    let mut repo = Repo::init_tmp();
    let (p1, p2) = two_patches(&mut repo);

    // Applying the second patch applies the first one before it.
    let applied = repo.apply_patch("master", p2.id()).unwrap();
    assert_eq!(applied, vec![*p1.id(), *p2.id()]);
    assert!(repo.has_patch("master", p1.id()));
    assert!(repo.has_patch("master", p2.id()));
    assert_eq!(file_text(&repo, "master"), b"b\nc\n".to_vec());
    // Applying it again does nothing.
    assert_eq!(repo.apply_patch("master", p2.id()).unwrap(), vec![]);
    assert_eq!(repo.apply_order("master", p2.id()).unwrap(), vec![]);

    // Unapplying the first patch unapplies the second one before it.
    let unapplied = repo.unapply_patch("master", p1.id()).unwrap();
    assert_eq!(unapplied, vec![*p2.id(), *p1.id()]);
    assert!(repo.patches("master").is_empty());
    assert_eq!(file_text(&repo, "master"), Vec::<u8>::new());

    // Unapplying it again does nothing.
    assert_eq!(repo.unapply_patch("master", p1.id()).unwrap(), vec![]);

    // Applying only the first patch gives its two lines.
    repo.apply_patch("master", p1.id()).unwrap();
    assert_eq!(file_text(&repo, "master"), b"a\nb\n".to_vec());
}

#[test]
fn repo_apply_by_steps() {
    let mut repo = Repo::init_tmp();
    let (p1, p2) = two_patches(&mut repo);
    let all = [&p1, &p2];
    let applied = apply_by_steps(&mut repo, "master", &all, p2.id());
    assert_eq!(applied, vec![*p1.id(), *p2.id()]);
    assert_eq!(file_text(&repo, "master"), b"b\nc\n".to_vec());
    // A patch whose changes do not fit the graggle is refused and changes nothing.
    assert!(matches!(repo.apply_one_patch("master", &p2), Err(Error::DbCorruption)));
    let unapplied = unapply_by_steps(&mut repo, "master", &all, p1.id());
    assert_eq!(unapplied, vec![*p2.id(), *p1.id()]);
    assert_eq!(file_text(&repo, "master"), Vec::<u8>::new());
}

#[test]
fn repo_apply_errors() {
    let mut repo = Repo::init_tmp();
    let (p1, _p2) = two_patches(&mut repo);
    assert!(matches!(repo.apply_patch("nope", p1.id()), Err(Error::UnknownBranch(ref b)) if b == "nope"));
    let unknown = PatchId::from_sha256(b"unknown");
    match repo.apply_patch("master", &unknown) {
        Err(Error::UnknownPatch(q)) => assert_eq!(q, unknown),
        other => panic!("unexpected {:?}", other),
    }
    assert!(repo.patches("master").is_empty());
    assert_eq!(repo.open_patch(p1.id()).unwrap().id(), p1.id());
    assert!(matches!(repo.open_patch(&unknown), Err(Error::UnknownPatch(_))));
}

#[test]
fn repo_clone_clear_and_diff() {
    let mut repo = Repo::init_tmp();
    let (p1, p2) = two_patches(&mut repo);
    repo.apply_patch("master", p1.id()).unwrap();

    repo.clone_branch("master", "copy").unwrap();
    assert_eq!(repo.patches("copy"), vec![*p1.id()]);
    assert_eq!(file_text(&repo, "copy"), b"a\nb\n".to_vec());
    assert!(matches!(repo.clone_branch("master", "copy"), Err(Error::BranchExists(_))));
    assert!(matches!(repo.clone_branch("nope", "copy2"), Err(Error::UnknownBranch(_))));

    // The copy moves on alone.
    repo.apply_patch("copy", p2.id()).unwrap();
    assert_eq!(file_text(&repo, "copy"), b"b\nc\n".to_vec());
    assert_eq!(file_text(&repo, "master"), b"a\nb\n".to_vec());

    let d = repo.diff("master", b"a\nx\nb\n").unwrap();
    assert_eq!(d.diff, vec![LineDiff::Keep(0, 0), LineDiff::New(1), LineDiff::Keep(1, 2)]);

    repo.clear("copy").unwrap();
    assert!(repo.patches("copy").is_empty());
    assert_eq!(file_text(&repo, "copy"), Vec::<u8>::new());
}

#[test]
fn repo_not_ordered() {
    let mut repo = Repo::init_tmp();
    let p = register(
        &mut repo,
        "fork",
        vec![
            Change::NewNode { id: NodeId::cur(0), contents: b"x\n".to_vec() },
            Change::NewNode { id: NodeId::cur(1), contents: b"y\n".to_vec() },
        ],
    );
    repo.apply_patch("master", p.id()).unwrap();
    assert!(matches!(repo.file("master"), Err(Error::NotOrdered)));
}

#[test]
fn repo_register_unknown_node() {
    let mut repo = Repo::init_tmp();
    let (p1, _p2) = two_patches(&mut repo);
    let missing = NodeId { patch: *p1.id(), node: 7 };
    let p = make_patch("ghost", vec![Change::DeleteNode { id: missing }]);
    match repo.register_patch_with_data(p, "ghost".to_owned()) {
        Err(Error::UnknownNode(n)) => assert_eq!(n, missing),
        other => panic!("unexpected {:?}", other),
    }
    assert_eq!(repo.all_patches().len(), 2);
}

#[test]
fn inodes_count_branches_created() {
    let mut repo = Repo::init_tmp();
    let before = repo.inodes_used();
    repo.create_branch("other").unwrap();
    assert_eq!(repo.inodes_used(), before + 1);
    repo.clone_branch("other", "third").unwrap();
    assert_eq!(repo.inodes_used(), before + 2);
}

#[test]
fn open_patch_gives_back_the_registered_patch() {
    let mut repo = Repo::init_tmp();
    let p = make_patch("opened", vec![]);
    let id = *p.id();
    let copy = p.clone();
    repo.register_patch_with_data(p, "opened".to_owned()).unwrap();
    assert_eq!(repo.open_patch(&id).unwrap(), &copy);
    assert!(matches!(repo.open_patch(&PatchId::from_sha256(b"unknown")), Err(Error::UnknownPatch(_))));
}
