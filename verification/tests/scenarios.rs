use ojo::change::Changes;
use ojo::ids::PatchId;
use ojo::patch::UnidentifiedPatch;
use ojo::repo::{Error, Repo};

// Creates and registers the patch that turns the file of `branch` into `text`.
fn create_patch(repo: &mut Repo, branch: &str, text: &[u8], label: &str) -> PatchId {
    let d = repo.diff(branch, text).unwrap();
    let changes = Changes::from_diff(&d.file_a, &d.file_b, &d.diff);
    let up = UnidentifiedPatch::new("Me".to_owned(), label.to_owned(), changes, 0, 0);
    let p = up.set_id(PatchId::from_sha256(label.as_bytes()));
    let id = *p.id();
    repo.register_patch_with_data(p, label.to_owned()).unwrap();
    id
}

fn file_text(repo: &Repo, branch: &str) -> Vec<u8> {
    repo.file(branch).unwrap().as_bytes().to_vec()
}

#[test]
fn scenario_create_apply_revert() {
    let mut repo = Repo::init_tmp();
    let first = create_patch(&mut repo, "master", b"First line\n", "I wuz here");
    assert_eq!(repo.apply_patch("master", &first).unwrap(), vec![first]);
    assert_eq!(file_text(&repo, "master"), b"First line\n".to_vec());

    let second = create_patch(&mut repo, "master", b"First line\nSecond line\n", "Me again");
    assert_eq!(repo.patch_deps(&second), vec![first]);
    assert_eq!(repo.apply_patch("master", &second).unwrap(), vec![second]);
    assert_eq!(file_text(&repo, "master"), b"First line\nSecond line\n".to_vec());

    assert_eq!(repo.unapply_patch("master", &second).unwrap(), vec![second]);
    assert_eq!(file_text(&repo, "master"), b"First line\n".to_vec());
}

#[test]
fn scenario_conflict() {
    let mut repo = Repo::init_tmp();
    let first = create_patch(&mut repo, "master", b"First line\n", "Starting out");
    repo.apply_patch("master", &first).unwrap();
    let second = create_patch(&mut repo, "master", b"First line\nSecond line\n", "Working hard");
    let alternate = create_patch(&mut repo, "master", b"First line\nAlternate second line\n", "Working differently");
    repo.apply_patch("master", &alternate).unwrap();
    assert_eq!(file_text(&repo, "master"), b"First line\nAlternate second line\n".to_vec());

    // Both second lines follow the first one, with no order between them.
    assert_eq!(repo.apply_patch("master", &second).unwrap(), vec![second]);
    assert!(matches!(repo.file("master"), Err(Error::NotOrdered)));

    // Unapplying either one brings back a file.
    repo.unapply_patch("master", &alternate).unwrap();
    assert_eq!(file_text(&repo, "master"), b"First line\nSecond line\n".to_vec());
}

#[test]
fn scenario_deleted_lines_stay_deleted() {
    let mut repo = Repo::init_tmp();
    let first = create_patch(&mut repo, "master", b"a\nb\nc\n", "three");
    repo.apply_patch("master", &first).unwrap();
    let cut = create_patch(&mut repo, "master", b"a\nc\n", "cut");
    repo.apply_patch("master", &cut).unwrap();
    assert_eq!(file_text(&repo, "master"), b"a\nc\n".to_vec());
    // The deleted line is still in the graggle, but not live.
    let g = repo.graggle("master").unwrap();
    assert_eq!(g.nodes().len(), 2);
    repo.unapply_patch("master", &cut).unwrap();
    assert_eq!(file_text(&repo, "master"), b"a\nb\nc\n".to_vec());
}
