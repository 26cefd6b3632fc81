//! A repository: its branches, the patches that it knows, which patches each branch holds and
//! how patches depend on each other, together with the storage of the lines and graggles.
//!
//! Reading and writing the repository's files is left to the caller; so is reading a patch
//! from its data.

use vstd::prelude::*;
use vstd::laws_eq::obeys_view_eq;
use vstd::std_specs::cmp::PartialEqSpecImpl;

use crate::change::{diff_fits, ChangeView};
use crate::apply::{
    applicable, apply_all, changes_applicable, changes_unapplicable, lemma_unapply_undoes_apply, new_id, reversible,
    unapplicable, unapply_all,
};
use crate::diff::{diff, is_patience_diff, is_valid_diff, lemma_valid_diff_in_range, LineDiff};
use crate::file::File;
use crate::graggle::{empty_graggle, Graggle, GraggleData, GraggleView, Skeleton};
use crate::graggle_graph::IdGraph;
use crate::graph::{has_edge, Graph};
use crate::resolver::linked;
use crate::topo::{is_linear_order, lemma_permutation_covers, linear_order};
use crate::ids::{NodeId, PatchId};
use crate::patch::{check_patch_validity, validity, Patch, PatchError, PatchIdError};
use crate::storage::{contents_after, contents_fit, contents_without, INode, Storage};

verus! {

/// What can go wrong in an operation on a repository.
#[derive(Debug)]
pub enum Error {
    /// The branch already exists.
    BranchExists(String),
    /// The branch is the current branch.
    CurrentBranch(String),
    /// The stored data contradicts itself.
    DbCorruption,
    /// A patch was expected to have the first id, but has the second.
    IdMismatch(PatchId, PatchId),
    /// A patch depends on a patch that the repository does not know.
    MissingDep(PatchId),
    /// The data does not represent a totally ordered file.
    NotOrdered,
    /// Something is wrong with a patch id.
    PatchId(PatchIdError),
    /// There is no branch with this name.
    UnknownBranch(String),
    /// There is no node with this id.
    UnknownNode(NodeId),
    /// There is no patch with this id.
    UnknownPatch(PatchId),
}

/// This is the main interface to a repository. `current_branch` is the name of the current
/// branch.
pub struct Repo {
    /// The name of the current branch.
    pub current_branch: String,
    storage: Storage,
    // The inode of each branch, each branch once.
    branches: Vec<(String, INode)>,
    // Every patch that the repository knows, each once: its id, its data and the patch that
    // the data holds.
    patches: Vec<(PatchId, String, Patch)>,
    // The pairs (branch, patch) such that the branch holds the patch, each once.
    branch_patches: Vec<(String, PatchId)>,
    // The pairs (p, q) such that the patch p depends on the patch q, each once.
    patch_deps: Vec<(PatchId, PatchId)>,
    // The pairs (q, p) such that the patch p depends on the patch q, each once.
    patch_rev_deps: Vec<(PatchId, PatchId)>,
}

/// Is `(a, b)` one of the pairs of `v`?
fn pair_in(v: &Vec<(PatchId, PatchId)>, a: &PatchId, b: &PatchId) -> (r: bool)
    ensures
        r == v@.contains((*a, *b)),
{
    let mut i: usize = 0;
    while i < v.len()
        invariant
            i <= v@.len(),
            forall|j: int| 0 <= j < i ==> v@[j] != (*a, *b),
        decreases v@.len() - i,
    {
        if v[i].0 == *a && v[i].1 == *b {
            assert(v@[i as int] == (*a, *b));
            return true;
        }
        i = i + 1;
    }
    false
}

/// The second entries of the pairs of `v` whose first entry is `a`, in order.
fn seconds_of(v: &Vec<(PatchId, PatchId)>, a: &PatchId) -> (r: Vec<PatchId>)
    requires
        v@.no_duplicates(),
    ensures
        forall|b: PatchId| #[trigger] r@.contains(b) <==> v@.contains((*a, b)),
        r@.no_duplicates(),
{
    let mut r: Vec<PatchId> = Vec::new();
    let mut i: usize = 0;
    while i < v.len()
        invariant
            v@.no_duplicates(),
            i <= v@.len(),
            forall|b: PatchId| #[trigger] r@.contains(b) <==> exists|j: int| 0 <= j < i && v@[j] == (*a, b),
            r@.no_duplicates(),
        decreases v@.len() - i,
    {
        let ghost r0 = r@;
        if v[i].0 == *a {
            let b = v[i].1;
            proof {
                assert(v@[i as int] == (*a, b));
                if r0.contains(b) {
                    let j = choose|j: int| 0 <= j < i && v@[j] == (*a, b);
                    assert(v@[j] == v@[i as int]);
                }
            }
            r.push(b);
            proof {
                assert forall|b2: PatchId| #[trigger] r@.contains(b2) <==> exists|j: int| 0 <= j < i + 1 && v@[j] == (*a, b2) by {
                    if r@.contains(b2) {
                        let k = choose|k: int| 0 <= k < r@.len() && r@[k] == b2;
                        if k < r0.len() {
                            assert(r0.contains(b2));
                        } else {
                            assert(v@[i as int] == (*a, b2));
                        }
                    }
                    if exists|j: int| 0 <= j < i + 1 && v@[j] == (*a, b2) {
                        let j = choose|j: int| 0 <= j < i + 1 && v@[j] == (*a, b2);
                        if j < i {
                            assert(r0.contains(b2));
                            let k = choose|k: int| 0 <= k < r0.len() && r0[k] == b2;
                            assert(r@[k] == b2);
                        } else {
                            assert(r@[r0.len() as int] == b2);
                        }
                    }
                }
            }
        } else {
            proof {
                assert forall|b2: PatchId| #[trigger] r@.contains(b2) <==> exists|j: int| 0 <= j < i + 1 && v@[j] == (*a, b2) by {
                    if exists|j: int| 0 <= j < i + 1 && v@[j] == (*a, b2) {
                        let j = choose|j: int| 0 <= j < i + 1 && v@[j] == (*a, b2);
                        assert(j != i);
                    }
                }
            }
        }
        i = i + 1;
    }
    proof {
        assert forall|b: PatchId| #[trigger] r@.contains(b) <==> v@.contains((*a, b)) by {
            if v@.contains((*a, b)) {
                let j = choose|j: int| 0 <= j < v@.len() && v@[j] == (*a, b);
            }
        }
    }
    r
}

/// Adds the pair `(a, b)` to `v`, unless it is there already.
fn add_pair(v: &mut Vec<(PatchId, PatchId)>, a: PatchId, b: PatchId)
    requires
        old(v)@.no_duplicates(),
    ensures
        final(v)@.no_duplicates(),
        final(v)@.to_set() == old(v)@.to_set().insert((a, b)),
{
    if !pair_in(v, &a, &b) {
        v.push((a, b));
        proof {
            assert forall|i: int, j: int| 0 <= i < j < v@.len() implies v@[i] != v@[j] by {
                if j == v@.len() - 1 {
                    assert(old(v)@.contains(v@[i]));
                }
            }
            assert forall|x: (PatchId, PatchId)| v@.contains(x) <==> old(v)@.contains(x) || x == (a, b) by {
                if v@.contains(x) {
                    let k = choose|k: int| 0 <= k < v@.len() && v@[k] == x;
                    if k < old(v)@.len() {
                        assert(old(v)@[k] == x);
                    }
                }
                if old(v)@.contains(x) {
                    let k = choose|k: int| 0 <= k < old(v)@.len() && old(v)@[k] == x;
                    assert(v@[k] == x);
                }
                if x == (a, b) {
                    assert(v@[v@.len() - 1] == x);
                }
            }
            assert(v@.to_set() =~= old(v)@.to_set().insert((a, b)));
        }
    } else {
        proof {
            assert(v@.to_set() =~= old(v)@.to_set().insert((a, b)));
        }
    }
}

/// The pairs (branch name, patch) of a list of branch-patch pairs.
pub open spec fn bp_view(v: Seq<(String, PatchId)>) -> Set<(Seq<char>, PatchId)> {
    Set::new(|t: (Seq<char>, PatchId)| exists|i: int| 0 <= i < v.len() && #[trigger] v[i].0@ == t.0 && v[i].1 == t.1)
}

/// No pair occurs twice in the list.
pub open spec fn bp_distinct(v: Seq<(String, PatchId)>) -> bool {
    forall|i: int, j: int| 0 <= i < j < v.len() ==> !(#[trigger] v[i].0@ == #[trigger] v[j].0@ && v[i].1 == v[j].1)
}

/// Is `(name, p)` one of the pairs of `v`?
fn bp_contains(v: &Vec<(String, PatchId)>, name: &String, p: &PatchId) -> (r: bool)
    ensures
        r == bp_view(v@).contains((name@, *p)),
{
    let mut i: usize = 0;
    while i < v.len()
        invariant
            i <= v@.len(),
            forall|j: int| 0 <= j < i ==> !(v@[j].0@ == name@ && v@[j].1 == *p),
        decreases v@.len() - i,
    {
        if v[i].0 == *name && v[i].1 == *p {
            return true;
        }
        i = i + 1;
    }
    false
}

/// The patches that `v` pairs with `name`, each once.
fn bp_patches(v: &Vec<(String, PatchId)>, name: &String) -> (r: Vec<PatchId>)
    requires
        bp_distinct(v@),
    ensures
        forall|p: PatchId| #[trigger] r@.contains(p) <==> bp_view(v@).contains((name@, p)),
        r@.no_duplicates(),
{
    let mut r: Vec<PatchId> = Vec::new();
    let mut i: usize = 0;
    while i < v.len()
        invariant
            bp_distinct(v@),
            i <= v@.len(),
            forall|p: PatchId| #[trigger] r@.contains(p) <==> exists|j: int| 0 <= j < i && v@[j].0@ == name@ && v@[j].1 == p,
            r@.no_duplicates(),
        decreases v@.len() - i,
    {
        let ghost r0 = r@;
        if v[i].0 == *name {
            let p = v[i].1;
            proof {
                if r0.contains(p) {
                    let j = choose|j: int| 0 <= j < i && v@[j].0@ == name@ && v@[j].1 == p;
                    assert(v@[j].0@ == v@[i as int].0@);
                }
            }
            r.push(p);
            proof {
                assert forall|p2: PatchId| #[trigger] r@.contains(p2) <==> exists|j: int| 0 <= j < i + 1 && v@[j].0@ == name@ && v@[j].1 == p2 by {
                    if r@.contains(p2) {
                        let k = choose|k: int| 0 <= k < r@.len() && r@[k] == p2;
                        if k < r0.len() {
                            assert(r0.contains(p2));
                        }
                    }
                    if exists|j: int| 0 <= j < i + 1 && v@[j].0@ == name@ && v@[j].1 == p2 {
                        let j = choose|j: int| 0 <= j < i + 1 && v@[j].0@ == name@ && v@[j].1 == p2;
                        if j < i {
                            assert(r0.contains(p2));
                            let k = choose|k: int| 0 <= k < r0.len() && r0[k] == p2;
                            assert(r@[k] == p2);
                        } else {
                            assert(r@[r0.len() as int] == p2);
                        }
                    }
                }
            }
        } else {
            proof {
                assert forall|p2: PatchId| #[trigger] r@.contains(p2) <==> exists|j: int| 0 <= j < i + 1 && v@[j].0@ == name@ && v@[j].1 == p2 by {
                    if exists|j: int| 0 <= j < i + 1 && v@[j].0@ == name@ && v@[j].1 == p2 {
                        let j = choose|j: int| 0 <= j < i + 1 && v@[j].0@ == name@ && v@[j].1 == p2;
                        assert(j != i);
                    }
                }
            }
        }
        i = i + 1;
    }
    proof {
        assert forall|p: PatchId| #[trigger] r@.contains(p) <==> bp_view(v@).contains((name@, p)) by {
            if bp_view(v@).contains((name@, p)) {
                let j = choose|j: int| 0 <= j < v@.len() && #[trigger] v@[j].0@ == name@ && v@[j].1 == p;
            }
        }
    }
    r
}

/// Removes the pairs of `v` that `keep` rejects: those with the name `name`, and, when `only`
/// is given, only the one with that patch.
#[verifier::spinoff_prover]
fn bp_remove(v: &mut Vec<(String, PatchId)>, name: &String, only: Option<PatchId>)
    requires
        bp_distinct(old(v)@),
    ensures
        bp_distinct(final(v)@),
        bp_view(final(v)@) == bp_view(old(v)@).filter(|t: (Seq<char>, PatchId)| !(t.0 == name@ && match only {
            Some(p) => t.1 == p,
            None => true,
        })),
{
    let ghost o = old(v)@;
    let mut r: Vec<(String, PatchId)> = Vec::new();
    let ghost mut src: Seq<int> = Seq::empty();
    let mut i: usize = 0;
    while i < v.len()
        invariant
            o == v@,
            bp_distinct(o),
            i <= o.len(),
            src.len() == r@.len(),
            forall|k: int| 0 <= k < src.len() ==> 0 <= #[trigger] src[k] < i && r@[k].0@ == o[src[k]].0@ && r@[k].1 == o[src[k]].1,
            forall|k1: int, k2: int| 0 <= k1 < k2 < src.len() ==> src[k1] < src[k2],
            forall|t: (Seq<char>, PatchId)| #[trigger] bp_view(r@).contains(t) <==> (exists|j: int| 0 <= j < i && #[trigger] o[j].0@ == t.0 && o[j].1 == t.1)
                && !(t.0 == name@ && match only {
                    Some(p) => t.1 == p,
                    None => true,
                }),
        decreases o.len() - i,
    {
        let drop = v[i].0 == *name && match only {
            Some(p) => v[i].1 == p,
            None => true,
        };
        let ghost r0 = r@;
        if !drop {
            let name2 = v[i].0.clone();
            r.push((name2, v[i].1));
            proof {
                src = src.push(i as int);
            }
        }
        proof {
            assert forall|t: (Seq<char>, PatchId)| #[trigger] bp_view(r@).contains(t) <==> (exists|j: int| 0 <= j < i + 1 && #[trigger] o[j].0@ == t.0 && o[j].1 == t.1)
                && !(t.0 == name@ && match only {
                    Some(p) => t.1 == p,
                    None => true,
                }) by {
                if bp_view(r@).contains(t) {
                    let k = choose|k: int| 0 <= k < r@.len() && #[trigger] r@[k].0@ == t.0 && r@[k].1 == t.1;
                    if k < r0.len() {
                        assert(bp_view(r0).contains(t));
                    } else {
                        assert(o[i as int].0@ == t.0 && o[i as int].1 == t.1);
                    }
                }
                if (exists|j: int| 0 <= j < i + 1 && #[trigger] o[j].0@ == t.0 && o[j].1 == t.1)
                    && !(t.0 == name@ && match only {
                        Some(p) => t.1 == p,
                        None => true,
                    }) {
                    let j = choose|j: int| 0 <= j < i + 1 && #[trigger] o[j].0@ == t.0 && o[j].1 == t.1;
                    if j < i {
                        assert(bp_view(r0).contains(t));
                        let k = choose|k: int| 0 <= k < r0.len() && #[trigger] r0[k].0@ == t.0 && r0[k].1 == t.1;
                        assert(r@[k] == r0[k]);
                    } else {
                        assert(r@[r0.len() as int].0@ == t.0);
                    }
                }
            }
        }
        i = i + 1;
    }
    proof {
        assert forall|a: int, b: int| 0 <= a < b < r@.len() implies !(#[trigger] r@[a].0@ == #[trigger] r@[b].0@ && r@[a].1 == r@[b].1) by {
            assert(src[a] < src[b]);
        }
        assert(bp_view(r@) =~= bp_view(o).filter(|t: (Seq<char>, PatchId)| !(t.0 == name@ && match only {
            Some(p) => t.1 == p,
            None => true,
        })));
    }
    *v = r;
}

/// Adds the pair `(name, p)` to `v`, unless it is there already.
fn bp_insert(v: &mut Vec<(String, PatchId)>, name: String, p: PatchId)
    requires
        bp_distinct(old(v)@),
    ensures
        bp_distinct(final(v)@),
        bp_view(final(v)@) == bp_view(old(v)@).insert((name@, p)),
{
    if !bp_contains(v, &name, &p) {
        let ghost n = name@;
        v.push((name, p));
        proof {
            assert(bp_view(v@) =~= bp_view(old(v)@).insert((n, p))) by {
                assert forall|t: (Seq<char>, PatchId)| bp_view(v@).contains(t) <==> bp_view(old(v)@).contains(t) || t == (n, p) by {
                    if bp_view(v@).contains(t) {
                        let k = choose|k: int| 0 <= k < v@.len() && #[trigger] v@[k].0@ == t.0 && v@[k].1 == t.1;
                        if k < old(v)@.len() {
                            assert(old(v)@[k] == v@[k]);
                        }
                    }
                    if bp_view(old(v)@).contains(t) {
                        let k = choose|k: int| 0 <= k < old(v)@.len() && #[trigger] old(v)@[k].0@ == t.0 && old(v)@[k].1 == t.1;
                        assert(v@[k] == old(v)@[k]);
                    }
                    if t == (n, p) {
                        assert(v@[v@.len() - 1].0@ == n);
                    }
                }
            }
            assert forall|a: int, b: int| 0 <= a < b < v@.len() implies !(#[trigger] v@[a].0@ == #[trigger] v@[b].0@ && v@[a].1 == v@[b].1) by {
                if b == v@.len() - 1 {
                    assert(old(v)@[a] == v@[a]);
                    if v@[a].0@ == n && v@[a].1 == p {
                        assert(bp_view(old(v)@).contains((n, p)));
                    }
                } else {
                    assert(old(v)@[a] == v@[a]);
                    assert(old(v)@[b] == v@[b]);
                }
            }
        }
    } else {
        proof {
            assert(bp_view(v@) =~= bp_view(old(v)@).insert((name@, p)));
        }
    }
}

/// The inode of each branch of the list, by name.
pub open spec fn branch_map(v: Seq<(String, INode)>) -> Map<Seq<char>, INode> {
    Map::new(
        |name: Seq<char>| exists|i: int| 0 <= i < v.len() && #[trigger] v[i].0@ == name,
        |name: Seq<char>| {
            let i = choose|i: int| 0 <= i < v.len() && #[trigger] v[i].0@ == name;
            v[i].1
        },
    )
}

/// No name occurs twice in the list.
pub open spec fn names_distinct(v: Seq<(String, INode)>) -> bool {
    forall|i: int, j: int| 0 <= i < j < v.len() ==> v[i].0@ != v[j].0@
}

proof fn lemma_branch_map_at(v: Seq<(String, INode)>, i: int)
    requires
        names_distinct(v),
        0 <= i < v.len(),
    ensures
        branch_map(v).contains_key(v[i].0@),
        branch_map(v)[v[i].0@] == v[i].1,
{
    let name = v[i].0@;
    assert(branch_map(v).contains_key(name));
    let j = choose|j: int| 0 <= j < v.len() && #[trigger] v[j].0@ == name;
    if j != i {
        if j < i {
            assert(v[j].0@ != v[i].0@);
        } else {
            assert(v[i].0@ != v[j].0@);
        }
    }
}

/// The data of each patch of the list, by id.
pub open spec fn patch_map(v: Seq<(PatchId, String, Patch)>) -> Map<PatchId, Seq<char>> {
    Map::new(
        |id: PatchId| exists|i: int| 0 <= i < v.len() && #[trigger] v[i].0 == id,
        |id: PatchId| {
            let i = choose|i: int| 0 <= i < v.len() && #[trigger] v[i].0 == id;
            v[i].1@
        },
    )
}

/// The changes of each patch of the list, by id.
pub open spec fn changes_map(v: Seq<(PatchId, String, Patch)>) -> Map<PatchId, Seq<ChangeView>> {
    Map::new(
        |id: PatchId| exists|i: int| 0 <= i < v.len() && #[trigger] v[i].0 == id,
        |id: PatchId| {
            let i = choose|i: int| 0 <= i < v.len() && #[trigger] v[i].0 == id;
            v[i].2.spec_changes()
        },
    )
}

/// Each patch of the list, by id.
pub open spec fn objs_map(v: Seq<(PatchId, String, Patch)>) -> Map<PatchId, Patch> {
    Map::new(
        |id: PatchId| exists|i: int| 0 <= i < v.len() && #[trigger] v[i].0 == id,
        |id: PatchId| {
            let i = choose|i: int| 0 <= i < v.len() && #[trigger] v[i].0 == id;
            v[i].2
        },
    )
}

/// No id occurs twice in the list.
pub open spec fn ids_distinct(v: Seq<(PatchId, String, Patch)>) -> bool {
    forall|a: int, b: int| 0 <= a < b < v.len() ==> v[a].0 != v[b].0
}

proof fn lemma_patch_map_at(v: Seq<(PatchId, String, Patch)>, i: int)
    requires
        ids_distinct(v),
        0 <= i < v.len(),
    ensures
        patch_map(v).contains_key(v[i].0),
        patch_map(v)[v[i].0] == v[i].1@,
        changes_map(v).contains_key(v[i].0),
        changes_map(v)[v[i].0] == v[i].2.spec_changes(),
        objs_map(v).contains_key(v[i].0),
        objs_map(v)[v[i].0] == v[i].2,
{
    let id = v[i].0;
    assert(patch_map(v).contains_key(id));
    assert(changes_map(v).contains_key(id));
    assert(objs_map(v).contains_key(id));
    let j = choose|j: int| 0 <= j < v.len() && #[trigger] v[j].0 == id;
    if j != i {
        if j < i {
            assert(v[j].0 != v[i].0);
        } else {
            assert(v[i].0 != v[j].0);
        }
    }
}

/// Adding a patch that is not in the list yet to its end.
proof fn lemma_patch_map_push(v: Seq<(PatchId, String, Patch)>, e: (PatchId, String, Patch))
    requires
        ids_distinct(v),
        !patch_map(v).contains_key(e.0),
    ensures
        ids_distinct(v.push(e)),
        patch_map(v.push(e)) == patch_map(v).insert(e.0, e.1@),
        changes_map(v.push(e)) == changes_map(v).insert(e.0, e.2.spec_changes()),
        objs_map(v.push(e)) == objs_map(v).insert(e.0, e.2),
{
    let w = v.push(e);
    let n = v.len();
    assert forall|a: int, b: int| 0 <= a < b < w.len() implies w[a].0 != w[b].0 by {
        assert(w[a] == v[a]);
        if b < n {
            assert(w[b] == v[b]);
        } else if v[a].0 == e.0 {
            assert(patch_map(v).contains_key(v[a].0));
        }
    }
    assert forall|q: PatchId| #[trigger] patch_map(w).contains_key(q) <==> patch_map(v).contains_key(q) || q == e.0 by {
        if patch_map(w).contains_key(q) {
            let j = choose|j: int| 0 <= j < w.len() && #[trigger] w[j].0 == q;
            if j < n {
                assert(v[j].0 == q);
            }
        }
        if patch_map(v).contains_key(q) {
            let j = choose|j: int| 0 <= j < v.len() && #[trigger] v[j].0 == q;
            assert(w[j].0 == q);
        }
        if q == e.0 {
            assert(w[n as int].0 == q);
        }
    }
    assert forall|q: PatchId| #[trigger] patch_map(w).contains_key(q) implies patch_map(w)[q] == patch_map(v).insert(e.0, e.1@)[q]
        && changes_map(w)[q] == changes_map(v).insert(e.0, e.2.spec_changes())[q]
        && objs_map(w)[q] == objs_map(v).insert(e.0, e.2)[q] by {
        let j = choose|j: int| 0 <= j < w.len() && #[trigger] w[j].0 == q;
        lemma_patch_map_at(w, j);
        if j < n {
            assert(w[j] == v[j]);
            lemma_patch_map_at(v, j);
        }
    }
    assert(patch_map(w) =~= patch_map(v).insert(e.0, e.1@));
    assert(changes_map(w) =~= changes_map(v).insert(e.0, e.2.spec_changes()));
    assert(objs_map(w) =~= objs_map(v).insert(e.0, e.2));
}

/// The position of the branch named `name` in `v`, if it is there.
fn find_branch(v: &Vec<(String, INode)>, name: &String) -> (r: Option<usize>)
    ensures
        match r {
            Some(i) => i < v@.len() && v@[i as int].0@ == name@,
            None => forall|j: int| 0 <= j < v@.len() ==> v@[j].0@ != name@,
        },
{
    let mut i: usize = 0;
    while i < v.len()
        invariant
            i <= v@.len(),
            forall|j: int| 0 <= j < i ==> v@[j].0@ != name@,
        decreases v@.len() - i,
    {
        if v[i].0 == *name {
            return Some(i);
        }
        i = i + 1;
    }
    None
}

/// The position of the patch `id` in `v`, if it is there.
fn find_patch(v: &Vec<(PatchId, String, Patch)>, id: &PatchId) -> (r: Option<usize>)
    ensures
        match r {
            Some(i) => i < v@.len() && v@[i as int].0 == *id,
            None => forall|j: int| 0 <= j < v@.len() ==> v@[j].0 != *id,
        },
{
    let mut i: usize = 0;
    while i < v.len()
        invariant
            i <= v@.len(),
            forall|j: int| 0 <= j < i ==> v@[j].0 != *id,
        decreases v@.len() - i,
    {
        if v[i].0 == *id {
            return Some(i);
        }
        i = i + 1;
    }
    None
}

impl Repo {
    /// The inode of each branch, by name.
    pub closed spec fn spec_branches(&self) -> Map<Seq<char>, INode> {
        branch_map(self.branches@)
    }

    /// The data of each known patch, by id.
    pub closed spec fn spec_patches(&self) -> Map<PatchId, Seq<char>> {
        patch_map(self.patches@)
    }

    /// The changes of each known patch, by id.
    pub closed spec fn spec_patch_changes(&self) -> Map<PatchId, Seq<ChangeView>> {
        changes_map(self.patches@)
    }

    /// Each known patch, by id, as it was recorded.
    pub closed spec fn spec_stored_patches(&self) -> Map<PatchId, Patch> {
        objs_map(self.patches@)
    }

    /// The known patches, in the order in which they became known.
    pub closed spec fn spec_patch_list(&self) -> Seq<PatchId> {
        self.patches@.map_values(|e: (PatchId, String, Patch)| e.0)
    }

    /// The pairs (branch, patch) such that the branch holds the patch.
    pub closed spec fn spec_branch_patches(&self) -> Set<(Seq<char>, PatchId)> {
        bp_view(self.branch_patches@)
    }

    /// The pairs (p, q) such that the patch p depends on the patch q.
    pub closed spec fn spec_deps(&self) -> Set<(PatchId, PatchId)> {
        self.patch_deps@.to_set()
    }

    /// The pairs (q, p) such that the patch p depends on the patch q.
    pub closed spec fn spec_rev_deps(&self) -> Set<(PatchId, PatchId)> {
        self.patch_rev_deps@.to_set()
    }

    /// The name of the current branch.
    pub closed spec fn spec_current(&self) -> Seq<char> {
        self.current_branch@
    }

    /// The storage of the lines and the graggles.
    pub closed spec fn spec_storage(&self) -> Storage {
        self.storage
    }

    /// The storage is sound, every branch has its own graggle, every name and every patch is
    /// recorded once, a branch holds patches only while it exists, and the reverse dependencies
    /// mirror the dependencies.
    pub closed spec fn wf(&self) -> bool {
        &&& self.storage.wf()
        &&& forall|i: int, j: int| 0 <= i < j < self.branches@.len() ==> self.branches@[i].0@ != self.branches@[j].0@
            && self.branches@[i].1 != self.branches@[j].1
        &&& forall|i: int| 0 <= i < self.branches@.len() ==> (#[trigger] self.storage.spec_graggle(self.branches@[i].1.spec_n())) is Some
        &&& ids_distinct(self.patches@)
        &&& forall|i: int| 0 <= i < self.patches@.len() ==> (#[trigger] self.patches@[i]).2.spec_id() == self.patches@[i].0
        &&& bp_distinct(self.branch_patches@)
        &&& forall|t: (Seq<char>, PatchId)| #[trigger] self.spec_branch_patches().contains(t) ==> self.spec_branches().contains_key(t.0)
        &&& self.patch_deps@.no_duplicates()
        &&& self.patch_rev_deps@.no_duplicates()
        &&& forall|a: PatchId, b: PatchId| #[trigger] self.spec_deps().contains((a, b)) <==> #[trigger] self.spec_rev_deps().contains((b, a))
    }

    proof fn lemma_branch_at(&self, i: int)
        requires
            self.wf(),
            0 <= i < self.branches@.len(),
        ensures
            self.spec_branches().contains_key(self.branches@[i].0@),
            self.spec_branches()[self.branches@[i].0@] == self.branches@[i].1,
            self.storage.spec_graggle(self.branches@[i].1.spec_n()) is Some,
    {
        lemma_branch_map_at(self.branches@, i);
    }

    proof fn lemma_patch_at(&self, i: int)
        requires
            self.wf(),
            0 <= i < self.patches@.len(),
        ensures
            self.spec_patches().contains_key(self.patches@[i].0),
            self.spec_patches()[self.patches@[i].0] == self.patches@[i].1@,
            self.spec_patch_changes().contains_key(self.patches@[i].0),
            self.spec_patch_changes()[self.patches@[i].0] == self.patches@[i].2.spec_changes(),
            self.patches@[i].2.spec_id() == self.patches@[i].0,
    {
        lemma_patch_map_at(self.patches@, i);
    }

    /// The inode of the branch named `branch`, if there is one.
    fn find_inode(&self, branch: &String) -> (r: Option<INode>)
        requires
            self.wf(),
        ensures
            match r {
                Some(i) => self.spec_branches().contains_key(branch@) && self.spec_branches()[branch@] == i
                    && self.storage.spec_graggle(i.spec_n()) is Some,
                None => !self.spec_branches().contains_key(branch@),
            },
    {
        match find_branch(&self.branches, branch) {
            Some(i) => {
                proof {
                    self.lemma_branch_at(i as int);
                }
                Some(self.branches[i].1)
            },
            None => None,
        }
    }

    /// Creates a repository that lives in memory only, with one empty branch, `master`, which
    /// is the current branch.
    pub fn init_tmp() -> (r: Repo)
        ensures
            r.wf(),
            r.spec_current() == "master"@,
            r.spec_branches().dom() == set!["master"@],
            r.spec_storage().spec_graggle(r.spec_branches()["master"@].spec_n())->0@ == empty_graggle(),
            r.spec_patches() == Map::<PatchId, Seq<char>>::empty(),
            r.spec_patch_changes() == Map::<PatchId, Seq<ChangeView>>::empty(),
            r.spec_branch_patches() == Set::<(Seq<char>, PatchId)>::empty(),
            r.spec_deps() == Set::<(PatchId, PatchId)>::empty(),
    {
        let mut storage = Storage::new();
        let master = storage.allocate_inode();
        let mut branches: Vec<(String, INode)> = Vec::new();
        branches.push(("master".to_owned(), master));
        let r = Repo {
            current_branch: "master".to_owned(),
            storage,
            branches,
            patches: Vec::new(),
            branch_patches: Vec::new(),
            patch_deps: Vec::new(),
            patch_rev_deps: Vec::new(),
        };
        proof {
            r.lemma_branch_at(0);
            assert(r.spec_branches().dom() =~= set!["master"@]);
            assert(r.spec_patches() =~= Map::<PatchId, Seq<char>>::empty());
            assert(r.spec_patch_changes() =~= Map::<PatchId, Seq<ChangeView>>::empty());
            assert(r.spec_branch_patches() =~= Set::<(Seq<char>, PatchId)>::empty());
            assert(r.spec_deps() =~= Set::<(PatchId, PatchId)>::empty());
            assert(r.spec_rev_deps() =~= Set::<(PatchId, PatchId)>::empty());
        }
        r
    }

    /// The inode of the branch named `branch`.
    pub fn inode(&self, branch: &str) -> (r: Result<INode, Error>)
        requires
            self.wf(),
        ensures
            match r {
                Ok(i) => self.spec_branches().contains_key(branch@) && self.spec_branches()[branch@] == i,
                Err(e) => !self.spec_branches().contains_key(branch@) && e is UnknownBranch && e->UnknownBranch_0@ == branch@,
            },
    {
        let name = branch.to_owned();
        match self.find_inode(&name) {
            Some(i) => Ok(i),
            None => Err(Error::UnknownBranch(name)),
        }
    }

    /// A read-only view of the graggle of the branch named `branch`.
    pub fn graggle(&self, branch: &str) -> (r: Result<Graggle<'_>, Error>)
        requires
            self.wf(),
        ensures
            match r {
                Ok(g) => self.spec_branches().contains_key(branch@)
                    && g@ == self.spec_storage().spec_graggle(self.spec_branches()[branch@].spec_n())->0@,
                Err(e) => !self.spec_branches().contains_key(branch@) && e is UnknownBranch && e->UnknownBranch_0@ == branch@,
            },
    {
        let name = branch.to_owned();
        match self.find_inode(&name) {
            Some(i) => Ok(self.storage.graggle(i)),
            None => Err(Error::UnknownBranch(name)),
        }
    }

    /// The names of all the branches.
    pub fn branches(&self) -> (r: Vec<String>)
        requires
            self.wf(),
        ensures
            forall|name: Seq<char>| (exists|i: int| 0 <= i < r@.len() && #[trigger] r@[i]@ == name)
                <==> self.spec_branches().contains_key(name),
            forall|i: int, j: int| 0 <= i < j < r@.len() ==> r@[i]@ != r@[j]@,
    {
        let mut r: Vec<String> = Vec::new();
        let mut i: usize = 0;
        while i < self.branches.len()
            invariant
                i <= self.branches@.len(),
                r@.len() == i,
                forall|j: int| 0 <= j < i ==> #[trigger] r@[j]@ == self.branches@[j].0@,
            decreases self.branches@.len() - i,
        {
            r.push(self.branches[i].0.clone());
            i = i + 1;
        }
        proof {
            assert forall|name: Seq<char>| (exists|i: int| 0 <= i < r@.len() && #[trigger] r@[i]@ == name)
                <==> self.spec_branches().contains_key(name) by {
                if self.spec_branches().contains_key(name) {
                    let j = choose|j: int| 0 <= j < self.branches@.len() && #[trigger] self.branches@[j].0@ == name;
                    assert(r@[j]@ == name);
                }
            }
        }
        r
    }

    /// Makes the branch named `branch`, which must exist, the current branch.
    pub fn switch_branch(&mut self, branch: &str) -> (r: Result<(), Error>)
        requires
            old(self).wf(),
        ensures
            final(self).wf(),
            match r {
                Ok(()) => old(self).spec_branches().contains_key(branch@) && final(self).spec_current() == branch@,
                Err(e) => !old(self).spec_branches().contains_key(branch@) && e is UnknownBranch
                    && e->UnknownBranch_0@ == branch@ && final(self).spec_current() == old(self).spec_current(),
            },
            final(self).spec_branches() == old(self).spec_branches(),
            final(self).spec_storage() == old(self).spec_storage(),
            final(self).spec_patches() == old(self).spec_patches(),
            final(self).spec_patch_changes() == old(self).spec_patch_changes(),
            final(self).spec_stored_patches() == old(self).spec_stored_patches(),
            final(self).spec_branch_patches() == old(self).spec_branch_patches(),
            final(self).spec_deps() == old(self).spec_deps(),
    {
        let name = branch.to_owned();
        match self.find_inode(&name) {
            Some(_) => {
                self.current_branch = name;
                proof {
                    assert(self.spec_branches() =~= old(self).spec_branches());
                    assert(self.spec_branch_patches() =~= old(self).spec_branch_patches());
                    assert(self.spec_deps() =~= old(self).spec_deps());
                    assert(self.spec_rev_deps() =~= old(self).spec_rev_deps());
                }
                Ok(())
            },
            None => Err(Error::UnknownBranch(name)),
        }
    }
}

impl Repo {
    /// Every branch's inode was handed out by the storage.
    proof fn lemma_inode_below(&self, i: int)
        requires
            self.wf(),
            0 <= i < self.branches@.len(),
        ensures
            self.branches@[i].1.spec_n() < self.storage.spec_next_inode(),
    {
        assert(self.storage.spec_graggle(self.branches@[i].1.spec_n()) is Some);
        self.storage.lemma_graggle_below(self.branches@[i].1.spec_n());
    }

    /// How many branch graggles were handed out so far: the number of the next one.
    pub fn inodes_used(&self) -> (r: usize)
        ensures
            r == self.spec_storage().spec_next_inode(),
    {
        self.storage.next_inode()
    }

    /// Creates a new, empty branch named `branch`, which must not exist yet.
    pub fn create_branch(&mut self, branch: &str) -> (r: Result<(), Error>)
        requires
            old(self).wf(),
            old(self).spec_storage().spec_next_inode() < u64::MAX,
        ensures
            final(self).wf(),
            final(self).spec_current() == old(self).spec_current(),
            final(self).spec_patches() == old(self).spec_patches(),
            final(self).spec_patch_changes() == old(self).spec_patch_changes(),
            final(self).spec_stored_patches() == old(self).spec_stored_patches(),
            final(self).spec_branch_patches() == old(self).spec_branch_patches(),
            final(self).spec_deps() == old(self).spec_deps(),
            final(self).spec_storage().spec_contents() == old(self).spec_storage().spec_contents(),
            match r {
                Ok(()) => {
                    &&& !old(self).spec_branches().contains_key(branch@)
                    &&& final(self).spec_branches() == old(self).spec_branches().insert(branch@, final(self).spec_branches()[branch@])
                    &&& final(self).spec_branches()[branch@].spec_n() == old(self).spec_storage().spec_next_inode()
                    &&& final(self).spec_storage().spec_graggle(final(self).spec_branches()[branch@].spec_n())->0@ == empty_graggle()
                    &&& forall|k: nat| k != final(self).spec_branches()[branch@].spec_n() ==>
                        #[trigger] final(self).spec_storage().spec_graggle(k) == old(self).spec_storage().spec_graggle(k)
                },
                Err(e) => old(self).spec_branches().contains_key(branch@) && e is BranchExists && e->BranchExists_0@ == branch@
                    && final(self).spec_branches() == old(self).spec_branches()
                    && final(self).spec_storage() == old(self).spec_storage(),
            },
    {
        let name = branch.to_owned();
        if self.find_inode(&name).is_some() {
            return Err(Error::BranchExists(name));
        }
        let ghost old_b = self.branches@;
        let inode = self.storage.allocate_inode();
        self.branches.push((name, inode));
        proof {
            let n = self.branches@.len() - 1;
            assert forall|i: int, j: int| 0 <= i < j < self.branches@.len() implies self.branches@[i].0@ != self.branches@[j].0@
                && self.branches@[i].1 != self.branches@[j].1 by {
                assert(self.branches@[i] == old(self).branches@[i]);
                if j == n {
                    old(self).lemma_inode_below(i);
                } else {
                    assert(self.branches@[j] == old(self).branches@[j]);
                }
            }
            assert forall|i: int| 0 <= i < self.branches@.len() implies (#[trigger] self.storage.spec_graggle(self.branches@[i].1.spec_n())) is Some by {
                if i < n {
                    assert(self.branches@[i] == old(self).branches@[i]);
                    old(self).lemma_inode_below(i);
                    assert(old(self).storage.spec_graggle(old(self).branches@[i].1.spec_n()) is Some);
                }
            }
            assert(self.spec_branches() =~= old(self).spec_branches().insert(branch@, inode)) by {
                assert forall|nm: Seq<char>| #[trigger] self.spec_branches().contains_key(nm) <==> old(self).spec_branches().contains_key(nm) || nm == branch@ by {
                    if self.spec_branches().contains_key(nm) {
                        let k = choose|k: int| 0 <= k < self.branches@.len() && #[trigger] self.branches@[k].0@ == nm;
                        if k < n {
                            assert(old(self).branches@[k].0@ == nm);
                        }
                    }
                    if old(self).spec_branches().contains_key(nm) {
                        let k = choose|k: int| 0 <= k < old(self).branches@.len() && #[trigger] old(self).branches@[k].0@ == nm;
                        assert(self.branches@[k].0@ == nm);
                    }
                    if nm == branch@ {
                        assert(self.branches@[n].0@ == nm);
                    }
                }
                assert forall|nm: Seq<char>| #[trigger] self.spec_branches().contains_key(nm) implies self.spec_branches()[nm]
                    == old(self).spec_branches().insert(branch@, inode)[nm] by {
                    let k = choose|k: int| 0 <= k < self.branches@.len() && #[trigger] self.branches@[k].0@ == nm;
                    lemma_branch_map_at(self.branches@, k);
                    if k < n {
                        assert(self.branches@[k] == old(self).branches@[k]);
                        old(self).lemma_branch_at(k);
                    }
                }
            }
            lemma_branch_map_at(self.branches@, n);
            assert(self.spec_branch_patches() =~= old(self).spec_branch_patches());
            assert(self.spec_deps() =~= old(self).spec_deps());
            assert(self.spec_rev_deps() =~= old(self).spec_rev_deps());
            assert(self.spec_patches() =~= old(self).spec_patches());
            assert(self.spec_patch_changes() =~= old(self).spec_patch_changes());
        }
        Ok(())
    }
}

impl Repo {
    /// Copies the branch `from` to a new branch `to`, which must not exist yet: the new branch
    /// gets a copy of the graggle and holds the same patches.
    pub fn clone_branch(&mut self, from: &str, to: &str) -> (r: Result<(), Error>)
        requires
            old(self).wf(),
            old(self).spec_storage().spec_next_inode() < u64::MAX,
        ensures
            final(self).wf(),
            final(self).spec_current() == old(self).spec_current(),
            final(self).spec_patches() == old(self).spec_patches(),
            final(self).spec_patch_changes() == old(self).spec_patch_changes(),
            final(self).spec_stored_patches() == old(self).spec_stored_patches(),
            final(self).spec_deps() == old(self).spec_deps(),
            final(self).spec_storage().spec_contents() == old(self).spec_storage().spec_contents(),
            match r {
                Ok(()) => {
                    &&& !old(self).spec_branches().contains_key(to@)
                    &&& old(self).spec_branches().contains_key(from@)
                    &&& final(self).spec_branches() == old(self).spec_branches().insert(to@, final(self).spec_branches()[to@])
                    &&& final(self).spec_branches()[to@].spec_n() == old(self).spec_storage().spec_next_inode()
                    &&& final(self).spec_storage().spec_graggle(final(self).spec_branches()[to@].spec_n())->0@
                        == old(self).spec_storage().spec_graggle(old(self).spec_branches()[from@].spec_n())->0@
                    &&& forall|k: nat| k != final(self).spec_branches()[to@].spec_n() ==>
                        #[trigger] final(self).spec_storage().spec_graggle(k) == old(self).spec_storage().spec_graggle(k)
                    &&& forall|t: (Seq<char>, PatchId)| #[trigger] final(self).spec_branch_patches().contains(t) <==>
                        (old(self).spec_branch_patches().contains(t) || (t.0 == to@ && old(self).spec_branch_patches().contains((from@, t.1))))
                },
                Err(e) => {
                    &&& final(self).spec_branches() == old(self).spec_branches()
                    &&& final(self).spec_storage() == old(self).spec_storage()
                    &&& final(self).spec_branch_patches() == old(self).spec_branch_patches()
                    &&& if old(self).spec_branches().contains_key(to@) {
                        e is BranchExists && e->BranchExists_0@ == to@
                    } else {
                        !old(self).spec_branches().contains_key(from@) && e is UnknownBranch && e->UnknownBranch_0@ == from@
                    }
                },
            },
    {
        let to_name = to.to_owned();
        if self.find_inode(&to_name).is_some() {
            return Err(Error::BranchExists(to_name));
        }
        let from_name = from.to_owned();
        let from_inode = match self.find_inode(&from_name) {
            Some(i) => i,
            None => {
                return Err(Error::UnknownBranch(from_name));
            },
        };
        let to_inode = self.storage.clone_inode(from_inode);
        self.branches.push((to_name.clone(), to_inode));
        let ghost after_push = self.branches@;
        proof {
            let n = self.branches@.len() - 1;
            assert forall|i: int, j: int| 0 <= i < j < self.branches@.len() implies self.branches@[i].0@ != self.branches@[j].0@
                && self.branches@[i].1 != self.branches@[j].1 by {
                assert(self.branches@[i] == old(self).branches@[i]);
                if j == n {
                    old(self).lemma_inode_below(i);
                    if self.branches@[i].0@ == to@ {
                        old(self).lemma_branch_at(i);
                    }
                } else {
                    assert(self.branches@[j] == old(self).branches@[j]);
                }
            }
            assert forall|i: int| 0 <= i < self.branches@.len() implies (#[trigger] self.storage.spec_graggle(self.branches@[i].1.spec_n())) is Some by {
                if i < n {
                    assert(self.branches@[i] == old(self).branches@[i]);
                    old(self).lemma_inode_below(i);
                    assert(old(self).storage.spec_graggle(old(self).branches@[i].1.spec_n()) is Some);
                }
            }
            assert(self.spec_branches() =~= old(self).spec_branches().insert(to@, to_inode)) by {
                assert forall|nm: Seq<char>| #[trigger] self.spec_branches().contains_key(nm) <==> old(self).spec_branches().contains_key(nm) || nm == to@ by {
                    if self.spec_branches().contains_key(nm) {
                        let k = choose|k: int| 0 <= k < self.branches@.len() && #[trigger] self.branches@[k].0@ == nm;
                        if k < n {
                            assert(old(self).branches@[k].0@ == nm);
                        }
                    }
                    if old(self).spec_branches().contains_key(nm) {
                        let k = choose|k: int| 0 <= k < old(self).branches@.len() && #[trigger] old(self).branches@[k].0@ == nm;
                        assert(self.branches@[k].0@ == nm);
                    }
                    if nm == to@ {
                        assert(self.branches@[n].0@ == nm);
                    }
                }
                assert forall|nm: Seq<char>| #[trigger] self.spec_branches().contains_key(nm) implies self.spec_branches()[nm]
                    == old(self).spec_branches().insert(to@, to_inode)[nm] by {
                    let k = choose|k: int| 0 <= k < self.branches@.len() && #[trigger] self.branches@[k].0@ == nm;
                    lemma_branch_map_at(self.branches@, k);
                    if k < n {
                        assert(self.branches@[k] == old(self).branches@[k]);
                        old(self).lemma_branch_at(k);
                    }
                }
            }
            lemma_branch_map_at(self.branches@, n);
        }
        let ps = bp_patches(&self.branch_patches, &from_name);
        let ghost st = self.storage;
        let mut k: usize = 0;
        while k < ps.len()
            invariant
                self.storage == st,
                self.patch_deps@ == old(self).patch_deps@,
                self.patch_rev_deps@ == old(self).patch_rev_deps@,
                self.patches@ == old(self).patches@,
                self.current_branch@ == old(self).current_branch@,
                self.storage.wf(),
                self.branches@ == after_push,
                names_distinct(self.branches@),
                bp_distinct(self.branch_patches@),
                branch_map(self.branches@) == old(self).spec_branches().insert(to@, to_inode),
                to_name@ == to@,
                k <= ps@.len(),
                forall|p: PatchId| #[trigger] ps@.contains(p) <==> old(self).spec_branch_patches().contains((from@, p)),
                forall|t: (Seq<char>, PatchId)| #[trigger] bp_view(self.branch_patches@).contains(t) <==>
                    (old(self).spec_branch_patches().contains(t) || (t.0 == to@ && ps@.take(k as int).contains(t.1))),
            decreases ps@.len() - k,
        {
            let ghost b0 = bp_view(self.branch_patches@);
            bp_insert(&mut self.branch_patches, to_name.clone(), ps[k]);
            proof {
                assert forall|t: (Seq<char>, PatchId)| #[trigger] bp_view(self.branch_patches@).contains(t) <==>
                    (old(self).spec_branch_patches().contains(t) || (t.0 == to@ && ps@.take(k + 1).contains(t.1))) by {
                    let tk = ps@.take(k as int);
                    let tk1 = ps@.take(k + 1);
                    if tk1.contains(t.1) {
                        let m = choose|m: int| 0 <= m < tk1.len() && tk1[m] == t.1;
                        if m < k {
                            assert(tk[m] == t.1);
                        }
                    }
                    if tk.contains(t.1) {
                        let m = choose|m: int| 0 <= m < tk.len() && tk[m] == t.1;
                        assert(tk1[m] == t.1);
                    }
                    assert(tk1[k as int] == ps@[k as int]);
                    assert(b0.contains(t) <==> (old(self).spec_branch_patches().contains(t) || (t.0 == to@ && tk.contains(t.1))));
                }
            }
            k = k + 1;
        }
        proof {
            assert(ps@.take(ps@.len() as int) =~= ps@);
            assert forall|t: (Seq<char>, PatchId)| #[trigger] self.spec_branch_patches().contains(t) implies self.spec_branches().contains_key(t.0) by {
                if old(self).spec_branch_patches().contains(t) {
                    assert(old(self).spec_branches().contains_key(t.0));
                }
            }
            assert(self.spec_deps() =~= old(self).spec_deps());
            assert(self.spec_rev_deps() =~= old(self).spec_rev_deps());
            assert(self.spec_patches() =~= old(self).spec_patches());
            assert(self.spec_patch_changes() =~= old(self).spec_patch_changes());
        }
        Ok(())
    }
}

impl Repo {
    /// Deletes the branch named `branch`, which must exist and must not be the current branch,
    /// together with its graggle and its record of patches.
    pub fn delete_branch(&mut self, branch: &str) -> (r: Result<(), Error>)
        requires
            old(self).wf(),
        ensures
            final(self).wf(),
            final(self).spec_current() == old(self).spec_current(),
            final(self).spec_patches() == old(self).spec_patches(),
            final(self).spec_patch_changes() == old(self).spec_patch_changes(),
            final(self).spec_stored_patches() == old(self).spec_stored_patches(),
            final(self).spec_deps() == old(self).spec_deps(),
            final(self).spec_storage().spec_contents() == old(self).spec_storage().spec_contents(),
            match r {
                Ok(()) => {
                    &&& old(self).spec_branches().contains_key(branch@)
                    &&& branch@ != old(self).spec_current()
                    &&& final(self).spec_branches() == old(self).spec_branches().remove(branch@)
                    &&& final(self).spec_storage().spec_graggle(old(self).spec_branches()[branch@].spec_n()) is None
                    &&& forall|k: nat| k != old(self).spec_branches()[branch@].spec_n() ==>
                        #[trigger] final(self).spec_storage().spec_graggle(k) == old(self).spec_storage().spec_graggle(k)
                    &&& forall|t: (Seq<char>, PatchId)| #[trigger] final(self).spec_branch_patches().contains(t) <==>
                        (old(self).spec_branch_patches().contains(t) && t.0 != branch@)
                },
                Err(e) => {
                    &&& final(self).spec_branches() == old(self).spec_branches()
                    &&& final(self).spec_storage() == old(self).spec_storage()
                    &&& final(self).spec_branch_patches() == old(self).spec_branch_patches()
                    &&& if branch@ == old(self).spec_current() {
                        e is CurrentBranch && e->CurrentBranch_0@ == branch@
                    } else {
                        !old(self).spec_branches().contains_key(branch@) && e is UnknownBranch && e->UnknownBranch_0@ == branch@
                    }
                },
            },
    {
        let name = branch.to_owned();
        if self.current_branch == name {
            return Err(Error::CurrentBranch(name));
        }
        let i = match find_branch(&self.branches, &name) {
            Some(i) => i,
            None => {
                return Err(Error::UnknownBranch(name));
            },
        };
        proof {
            old(self).lemma_branch_at(i as int);
        }
        let inode = self.branches[i].1;
        self.storage.remove_graggle(inode);
        self.branches.remove(i);
        bp_remove(&mut self.branch_patches, &name, None);
        proof {
            let ob = old(self).branches@;
            let nb = self.branches@;
            assert forall|a: int| 0 <= a < nb.len() implies #[trigger] nb[a] == ob[if a < i { a } else { a + 1 }] by {}
            assert forall|a: int, b: int| 0 <= a < b < nb.len() implies nb[a].0@ != nb[b].0@ && nb[a].1 != nb[b].1 by {
                let a0 = if a < i { a } else { a + 1 };
                let b0 = if b < i { b } else { b + 1 };
                assert(nb[a] == ob[a0]);
                assert(nb[b] == ob[b0]);
            }
            assert forall|a: int| 0 <= a < nb.len() implies (#[trigger] self.storage.spec_graggle(nb[a].1.spec_n())) is Some by {
                let a0 = if a < i { a } else { a + 1 };
                assert(nb[a] == ob[a0]);
                old(self).lemma_branch_at(a0);
                if a0 < i {
                    assert(ob[a0].1 != ob[i as int].1);
                } else {
                    assert(ob[i as int].1 != ob[a0].1);
                }
                INode::lemma_n_injective(ob[a0].1, inode);
                assert(ob[a0].1.spec_n() != inode.spec_n());
            }
            assert(self.spec_branches() =~= old(self).spec_branches().remove(branch@)) by {
                assert forall|nm: Seq<char>| #[trigger] self.spec_branches().contains_key(nm) <==>
                    (old(self).spec_branches().contains_key(nm) && nm != branch@) by {
                    if self.spec_branches().contains_key(nm) {
                        let k = choose|k: int| 0 <= k < nb.len() && #[trigger] nb[k].0@ == nm;
                        let k0 = if k < i { k } else { k + 1 };
                        assert(nb[k] == ob[k0]);
                        assert(ob[k0].0@ == nm);
                        if k0 < i {
                            assert(ob[k0].0@ != ob[i as int].0@);
                        } else {
                            assert(ob[i as int].0@ != ob[k0].0@);
                        }
                    }
                    if old(self).spec_branches().contains_key(nm) && nm != branch@ {
                        let k = choose|k: int| 0 <= k < ob.len() && #[trigger] ob[k].0@ == nm;
                        assert(k != i);
                        let k1 = if k < i { k } else { k - 1 };
                        assert(nb[k1] == ob[k]);
                    }
                }
                assert forall|nm: Seq<char>| #[trigger] self.spec_branches().contains_key(nm) implies self.spec_branches()[nm]
                    == old(self).spec_branches().remove(branch@)[nm] by {
                    let k = choose|k: int| 0 <= k < nb.len() && #[trigger] nb[k].0@ == nm;
                    lemma_branch_map_at(nb, k);
                    let k0 = if k < i { k } else { k + 1 };
                    assert(nb[k] == ob[k0]);
                    old(self).lemma_branch_at(k0);
                }
            }
            assert forall|t: (Seq<char>, PatchId)| #[trigger] self.spec_branch_patches().contains(t) <==>
                (old(self).spec_branch_patches().contains(t) && t.0 != branch@) by {}
            assert forall|t: (Seq<char>, PatchId)| #[trigger] self.spec_branch_patches().contains(t) implies self.spec_branches().contains_key(t.0) by {
                assert(old(self).spec_branches().contains_key(t.0));
            }
            assert(self.spec_deps() =~= old(self).spec_deps());
            assert(self.spec_rev_deps() =~= old(self).spec_rev_deps());
            assert(self.spec_patches() =~= old(self).spec_patches());
            assert(self.spec_patch_changes() =~= old(self).spec_patch_changes());
        }
        Ok(())
    }

    /// Clears the branch named `branch`: it holds no patches any more, and its graggle is
    /// empty.
    pub fn clear(&mut self, branch: &str) -> (r: Result<(), Error>)
        requires
            old(self).wf(),
        ensures
            final(self).wf(),
            final(self).spec_current() == old(self).spec_current(),
            final(self).spec_patches() == old(self).spec_patches(),
            final(self).spec_patch_changes() == old(self).spec_patch_changes(),
            final(self).spec_stored_patches() == old(self).spec_stored_patches(),
            final(self).spec_deps() == old(self).spec_deps(),
            final(self).spec_branches() == old(self).spec_branches(),
            final(self).spec_storage().spec_contents() == old(self).spec_storage().spec_contents(),
            match r {
                Ok(()) => {
                    &&& old(self).spec_branches().contains_key(branch@)
                    &&& final(self).spec_storage().spec_graggle(old(self).spec_branches()[branch@].spec_n())->0@ == empty_graggle()
                    &&& forall|k: nat| k != old(self).spec_branches()[branch@].spec_n() ==>
                        #[trigger] final(self).spec_storage().spec_graggle(k) == old(self).spec_storage().spec_graggle(k)
                    &&& forall|t: (Seq<char>, PatchId)| #[trigger] final(self).spec_branch_patches().contains(t) <==>
                        (old(self).spec_branch_patches().contains(t) && t.0 != branch@)
                },
                Err(e) => {
                    &&& final(self).spec_storage() == old(self).spec_storage()
                    &&& final(self).spec_branch_patches() == old(self).spec_branch_patches()
                    &&& !old(self).spec_branches().contains_key(branch@) && e is UnknownBranch && e->UnknownBranch_0@ == branch@
                },
            },
    {
        let name = branch.to_owned();
        let inode = match self.find_inode(&name) {
            Some(i) => i,
            None => {
                return Err(Error::UnknownBranch(name));
            },
        };
        bp_remove(&mut self.branch_patches, &name, None);
        proof {
            self.storage.lemma_graggle_below(inode.spec_n());
        }
        self.storage.remove_graggle(inode);
        self.storage.set_graggle(inode, GraggleData::new());
        proof {
            assert forall|a: int| 0 <= a < self.branches@.len() implies (#[trigger] self.storage.spec_graggle(self.branches@[a].1.spec_n())) is Some by {
                old(self).lemma_branch_at(a);
            }
            assert forall|t: (Seq<char>, PatchId)| #[trigger] self.spec_branch_patches().contains(t) <==>
                (old(self).spec_branch_patches().contains(t) && t.0 != branch@) by {}
            assert forall|t: (Seq<char>, PatchId)| #[trigger] self.spec_branch_patches().contains(t) implies self.spec_branches().contains_key(t.0) by {
                assert(old(self).spec_branches().contains_key(t.0));
            }
            assert(self.spec_deps() =~= old(self).spec_deps());
            assert(self.spec_rev_deps() =~= old(self).spec_rev_deps());
            assert(self.spec_patches() =~= old(self).spec_patches());
            assert(self.spec_patch_changes() =~= old(self).spec_patch_changes());
        }
        Ok(())
    }
}

/// The dependencies that registering the patch `id`, with the dependencies `deps`, records.
pub open spec fn new_deps(id: PatchId, deps: Seq<PatchId>) -> Set<(PatchId, PatchId)> {
    Set::new(|t: (PatchId, PatchId)| t.0 == id && deps.contains(t.1))
}

impl Repo {
    /// The patches that the branch named `branch` holds.
    pub fn patches(&self, branch: &str) -> (r: Vec<PatchId>)
        requires
            self.wf(),
        ensures
            forall|p: PatchId| #[trigger] r@.contains(p) <==> self.spec_branch_patches().contains((branch@, p)),
            r@.no_duplicates(),
    {
        let name = branch.to_owned();
        bp_patches(&self.branch_patches, &name)
    }

    /// Does the branch named `branch` hold the patch `patch`?
    pub fn has_patch(&self, branch: &str, patch: &PatchId) -> (r: bool)
        ensures
            r == self.spec_branch_patches().contains((branch@, *patch)),
    {
        let name = branch.to_owned();
        bp_contains(&self.branch_patches, &name, patch)
    }

    /// All the patches that the repository knows, applied or not, in the order in which they
    /// became known.
    pub fn all_patches(&self) -> (r: Vec<PatchId>)
        requires
            self.wf(),
        ensures
            r@ == self.spec_patch_list(),
            forall|p: PatchId| #[trigger] r@.contains(p) <==> self.spec_patches().contains_key(p),
    {
        let mut r: Vec<PatchId> = Vec::new();
        let mut i: usize = 0;
        while i < self.patches.len()
            invariant
                i <= self.patches@.len(),
                r@.len() == i,
                forall|j: int| 0 <= j < i ==> #[trigger] r@[j] == self.patches@[j].0,
            decreases self.patches@.len() - i,
        {
            r.push(self.patches[i].0);
            i = i + 1;
        }
        proof {
            assert(r@ =~= self.spec_patch_list());
            assert forall|p: PatchId| #[trigger] r@.contains(p) <==> self.spec_patches().contains_key(p) by {
                if r@.contains(p) {
                    let j = choose|j: int| 0 <= j < r@.len() && r@[j] == p;
                    assert(self.patches@[j].0 == p);
                }
                if self.spec_patches().contains_key(p) {
                    let j = choose|j: int| 0 <= j < self.patches@.len() && #[trigger] self.patches@[j].0 == p;
                    assert(r@[j] == p);
                }
            }
        }
        r
    }

    /// The direct dependencies of the patch `patch`.
    pub fn patch_deps(&self, patch: &PatchId) -> (r: Vec<PatchId>)
        requires
            self.wf(),
        ensures
            forall|q: PatchId| #[trigger] r@.contains(q) <==> self.spec_deps().contains((*patch, q)),
            r@.no_duplicates(),
    {
        seconds_of(&self.patch_deps, patch)
    }

    /// The patches that depend directly on the patch `patch`.
    pub fn patch_rev_deps(&self, patch: &PatchId) -> (r: Vec<PatchId>)
        requires
            self.wf(),
        ensures
            forall|q: PatchId| #[trigger] r@.contains(q) <==> self.spec_deps().contains((q, *patch)),
            r@.no_duplicates(),
    {
        let r = seconds_of(&self.patch_rev_deps, patch);
        proof {
            assert forall|q: PatchId| #[trigger] r@.contains(q) <==> self.spec_deps().contains((q, *patch)) by {
                assert(self.spec_rev_deps().contains((*patch, q)) == self.patch_rev_deps@.contains((*patch, q)));
            }
        }
        r
    }

    /// The data of the patch `id`, which is the same data that registered it.
    pub fn open_patch_data(&self, id: &PatchId) -> (r: Result<&String, Error>)
        requires
            self.wf(),
        ensures
            match r {
                Ok(d) => self.spec_patches().contains_key(*id) && d@ == self.spec_patches()[*id],
                Err(e) => !self.spec_patches().contains_key(*id) && e is UnknownPatch && e->UnknownPatch_0 == *id,
            },
    {
        match find_patch(&self.patches, id) {
            Some(i) => {
                proof {
                    self.lemma_patch_at(i as int);
                }
                Ok(&self.patches[i].1)
            },
            None => Err(Error::UnknownPatch(*id)),
        }
    }

    /// The patch `id`, as it was registered.
    pub fn open_patch(&self, id: &PatchId) -> (r: Result<&Patch, Error>)
        requires
            self.wf(),
        ensures
            match r {
                Ok(p) => self.spec_patches().contains_key(*id) && p.spec_id() == *id
                    && p.spec_changes() == self.spec_patch_changes()[*id] && *p == self.spec_stored_patches()[*id],
                Err(e) => !self.spec_patches().contains_key(*id) && e is UnknownPatch && e->UnknownPatch_0 == *id,
            },
    {
        match find_patch(&self.patches, id) {
            Some(i) => {
                proof {
                    self.lemma_patch_at(i as int);
                }
                Ok(&self.patches[i].2)
            },
            None => Err(Error::UnknownPatch(*id)),
        }
    }

    /// The contents of the line `id`, which must be stored.
    pub fn contents(&self, id: &NodeId) -> (r: &[u8])
        requires
            self.wf(),
            self.spec_storage().spec_contents().contains_key(*id),
        ensures
            r@ == self.spec_storage().spec_contents()[*id],
    {
        self.storage.contents(id).as_slice()
    }

    /// Records the patch `patch`, whose data is `data`. A patch that is known already is
    /// accepted again with the same data, and refused as a collision with other data. A new
    /// patch must pass [`check_patch_validity`] against the known patches and lines; its
    /// dependencies are then recorded, and its data stored.
    pub fn register_patch_with_data(&mut self, patch: Patch, data: String) -> (r: Result<(), Error>)
        requires
            old(self).wf(),
        ensures
            final(self).wf(),
            final(self).spec_current() == old(self).spec_current(),
            final(self).spec_branches() == old(self).spec_branches(),
            final(self).spec_branch_patches() == old(self).spec_branch_patches(),
            final(self).spec_storage() == old(self).spec_storage(),
            if old(self).spec_patches().contains_key(patch.spec_id()) {
                &&& final(self).spec_patches() == old(self).spec_patches()
                &&& final(self).spec_patch_changes() == old(self).spec_patch_changes()
                &&& final(self).spec_stored_patches() == old(self).spec_stored_patches()
                &&& final(self).spec_deps() == old(self).spec_deps()
                &&& (r is Ok <==> old(self).spec_patches()[patch.spec_id()] == data@)
                &&& (r is Err ==> r->Err_0 is PatchId && r->Err_0->PatchId_0 is Collision
                    && r->Err_0->PatchId_0->Collision_0 == patch.spec_id())
            } else {
                match validity(old(self).spec_patch_list(), old(self).spec_storage().spec_node_list(), patch.spec_deps(), patch.spec_changes()) {
                    Ok(()) => {
                        &&& r is Ok
                        &&& final(self).spec_patches() == old(self).spec_patches().insert(patch.spec_id(), data@)
                        &&& final(self).spec_patch_changes() == old(self).spec_patch_changes().insert(patch.spec_id(), patch.spec_changes())
                        &&& final(self).spec_stored_patches() == old(self).spec_stored_patches().insert(patch.spec_id(), patch)
                        &&& final(self).spec_deps() == old(self).spec_deps().union(new_deps(patch.spec_id(), patch.spec_deps()))
                    },
                    Err(e) => {
                        &&& final(self).spec_patches() == old(self).spec_patches()
                        &&& final(self).spec_patch_changes() == old(self).spec_patch_changes()
                        &&& final(self).spec_stored_patches() == old(self).spec_stored_patches()
                        &&& final(self).spec_deps() == old(self).spec_deps()
                        &&& r is Err
                        &&& match e {
                            PatchError::MissingDep(p) => r->Err_0 is MissingDep && r->Err_0->MissingDep_0 == p,
                            PatchError::UnknownNode(n) => r->Err_0 is UnknownNode && r->Err_0->UnknownNode_0 == n,
                        }
                    },
                }
            },
    {
        let id = *patch.id();
        match find_patch(&self.patches, &id) {
            Some(i) => {
                proof {
                    self.lemma_patch_at(i as int);
                }
                if self.patches[i].1 == data {
                    Ok(())
                } else {
                    Err(Error::PatchId(PatchIdError::Collision(id)))
                }
            },
            None => {
                proof {
                    assert(!self.spec_patches().contains_key(id));
                }
                let known = self.all_patches();
                let nodes = self.storage.node_ids();
                match check_patch_validity(&known, &nodes, patch.deps(), patch.changes()) {
                    Err(PatchError::MissingDep(p)) => Err(Error::MissingDep(p)),
                    Err(PatchError::UnknownNode(n)) => Err(Error::UnknownNode(n)),
                    Ok(()) => {
                        let deps = patch.deps();
                        let mut k: usize = 0;
                        while k < deps.len()
                            invariant
                                self.storage == old(self).storage,
                                self.branches@ == old(self).branches@,
                                self.branch_patches@ == old(self).branch_patches@,
                                self.patches@ == old(self).patches@,
                                self.current_branch@ == old(self).current_branch@,
                                deps@ == patch.spec_deps(),
                                id == patch.spec_id(),
                                k <= deps@.len(),
                                self.patch_deps@.no_duplicates(),
                                self.patch_rev_deps@.no_duplicates(),
                                self.spec_deps() == old(self).spec_deps().union(new_deps(id, deps@.take(k as int))),
                                forall|a: PatchId, b: PatchId| #[trigger] self.spec_deps().contains((a, b)) <==> #[trigger] self.spec_rev_deps().contains((b, a)),
                            decreases deps@.len() - k,
                        {
                            let d = deps[k];
                            let ghost d0 = self.spec_deps();
                            let ghost r0 = self.spec_rev_deps();
                            add_pair(&mut self.patch_deps, id, d);
                            add_pair(&mut self.patch_rev_deps, d, id);
                            proof {
                                assert(self.spec_deps() == d0.insert((id, d)));
                                assert(deps@.take(k + 1) =~= deps@.take(k as int).push(d));
                                assert(self.spec_deps() =~= old(self).spec_deps().union(new_deps(id, deps@.take(k + 1)))) by {
                                    assert forall|t: (PatchId, PatchId)| self.spec_deps().contains(t) <==>
                                        old(self).spec_deps().union(new_deps(id, deps@.take(k + 1))).contains(t) by {
                                        let t1 = deps@.take(k + 1);
                                        let t0 = deps@.take(k as int);
                                        if t1.contains(t.1) {
                                            let m = choose|m: int| 0 <= m < t1.len() && t1[m] == t.1;
                                            if m < k {
                                                assert(t0[m] == t.1);
                                            }
                                        }
                                        if t0.contains(t.1) {
                                            let m = choose|m: int| 0 <= m < t0.len() && t0[m] == t.1;
                                            assert(t1[m] == t.1);
                                        }
                                        assert(t1[k as int] == d);
                                    }
                                }
                                assert forall|a: PatchId, b: PatchId| #[trigger] self.spec_deps().contains((a, b)) <==> #[trigger] self.spec_rev_deps().contains((b, a)) by {
                                    assert(d0.contains((a, b)) <==> r0.contains((b, a)));
                                }
                            }
                            k = k + 1;
                        }
                        proof {
                            assert(deps@.take(deps@.len() as int) =~= deps@);
                        }
                        let ghost pold = self.patches@;
                        let ghost dv = self.spec_deps();
                        let ghost rv = self.spec_rev_deps();
                        let ghost e = (id, data, patch);
                        proof {
                            lemma_patch_map_push(pold, e);
                        }
                        self.patches.push((id, data, patch));
                        proof {
                            assert(self.spec_deps() =~= dv);
                            assert(self.spec_rev_deps() =~= rv);
                            assert(self.patches@ == pold.push(e));
                            assert forall|i: int| 0 <= i < self.patches@.len() implies (#[trigger] self.patches@[i]).2.spec_id() == self.patches@[i].0 by {
                                if i < pold.len() {
                                    assert(self.patches@[i] == old(self).patches@[i]);
                                }
                            }
                            assert(self.spec_branches() =~= old(self).spec_branches());
                            assert(self.spec_branch_patches() =~= old(self).spec_branch_patches());
                            assert forall|i: int| 0 <= i < self.branches@.len() implies (#[trigger] self.storage.spec_graggle(self.branches@[i].1.spec_n())) is Some by {
                                assert(old(self).storage.spec_graggle(old(self).branches@[i].1.spec_n()) is Some);
                            }
                            assert forall|i: int, j: int| 0 <= i < j < self.branches@.len() implies self.branches@[i].0@ != self.branches@[j].0@
                                && self.branches@[i].1 != self.branches@[j].1 by {
                                assert(old(self).branches@[i].0@ != old(self).branches@[j].0@);
                            }
                            assert forall|t: (Seq<char>, PatchId)| #[trigger] self.spec_branch_patches().contains(t) implies self.spec_branches().contains_key(t.0) by {
                                assert(old(self).spec_branches().contains_key(t.0));
                            }
                        }
                        Ok(())
                    },
                }
            },
        }
    }
}

impl Repo {
    /// One step along the dependencies that applying (`reverse` false) or unapplying
    /// (`reverse` true) a patch to the branch `branch` must follow: to apply `a`, its
    /// dependency `b` must be applied first unless the branch holds it; to unapply `a`, the
    /// patch `b` that depends on it must be unapplied first if the branch holds it.
    #[verifier::opaque]
    pub open spec fn dep_step(&self, branch: Seq<char>, reverse: bool, a: PatchId, b: PatchId) -> bool {
        if reverse {
            self.spec_deps().contains((b, a)) && self.spec_branch_patches().contains((branch, b))
        } else {
            self.spec_deps().contains((a, b)) && !self.spec_branch_patches().contains((branch, b))
        }
    }

    /// `w` is a walk of steps along the dependencies.
    pub open spec fn is_dep_walk(&self, branch: Seq<char>, reverse: bool, w: Seq<PatchId>) -> bool {
        &&& w.len() >= 1
        &&& forall|i: int| 0 <= i < w.len() - 1 ==> #[trigger] self.dep_step(branch, reverse, w[i], w[i + 1])
    }

    /// Applying (or unapplying) `p` requires applying (or unapplying) `q` as well.
    pub open spec fn needs(&self, branch: Seq<char>, reverse: bool, p: PatchId, q: PatchId) -> bool {
        exists|w: Seq<PatchId>| #[trigger] self.is_dep_walk(branch, reverse, w) && w[0] == p && w.last() == q
    }

    /// The patch `p` needs itself through a cycle of dependencies.
    pub open spec fn has_dep_cycle(&self, branch: Seq<char>, reverse: bool, p: PatchId) -> bool {
        exists|w: Seq<PatchId>| #[trigger] self.is_dep_walk(branch, reverse, w) && w.len() >= 2 && w[0] == w.last()
            && self.needs(branch, reverse, p, w[0])
    }

    /// `order` is a way to apply (or unapply) `patch` to the branch `branch`: it holds exactly
    /// the patches that `patch` needs, each once, each after every patch that it needs in one
    /// step.
    pub open spec fn is_dep_order(&self, branch: Seq<char>, reverse: bool, patch: PatchId, order: Seq<PatchId>) -> bool {
        &&& order.no_duplicates()
        &&& forall|q: PatchId| #[trigger] order.contains(q) <==> self.needs(branch, reverse, patch, q)
        &&& forall|i: int, q: PatchId| 0 <= i < order.len() && #[trigger] self.dep_step(branch, reverse, order[i], q) ==>
            exists|j: int| 0 <= j < i && order[j] == q
    }

    /// The next steps from `a`.
    fn dep_steps(&self, branch: &String, reverse: bool, a: &PatchId) -> (r: Vec<PatchId>)
        requires
            self.wf(),
        ensures
            forall|b: PatchId| #[trigger] r@.contains(b) <==> self.dep_step(branch@, reverse, *a, b),
            r@.no_duplicates(),
    {
        proof {
            reveal(Repo::dep_step);
        }
        let cands = if reverse {
            self.patch_rev_deps(a)
        } else {
            self.patch_deps(a)
        };
        let mut r: Vec<PatchId> = Vec::new();
        let mut k: usize = 0;
        while k < cands.len()
            invariant
                self.wf(),
                cands@.no_duplicates(),
                forall|b: PatchId| #[trigger] cands@.contains(b) <==> if reverse {
                    self.spec_deps().contains((b, *a))
                } else {
                    self.spec_deps().contains((*a, b))
                },
                k <= cands@.len(),
                r@.no_duplicates(),
                forall|b: PatchId| #[trigger] r@.contains(b) <==> (exists|j: int| 0 <= j < k && cands@[j] == b)
                    && self.dep_step(branch@, reverse, *a, b),
            decreases cands@.len() - k,
        {
            proof {
                reveal(Repo::dep_step);
            }
            let b = cands[k];
            let held = bp_contains(&self.branch_patches, branch, &b);
            let ghost r0 = r@;
            if held == reverse {
                proof {
                    if r0.contains(b) {
                        let j = choose|j: int| 0 <= j < k && cands@[j] == b;
                        assert(cands@[j] == cands@[k as int]);
                    }
                }
                r.push(b);
            }
            proof {
                assert forall|b2: PatchId| #[trigger] r@.contains(b2) <==> (exists|j: int| 0 <= j < k + 1 && cands@[j] == b2)
                    && self.dep_step(branch@, reverse, *a, b2) by {
                    if r@.contains(b2) {
                        let m = choose|m: int| 0 <= m < r@.len() && r@[m] == b2;
                        if m < r0.len() {
                            assert(r0[m] == b2);
                            assert(r0.contains(b2));
                            let j = choose|j: int| 0 <= j < k && cands@[j] == b2;
                            assert(0 <= j < k + 1 && cands@[j] == b2);
                        } else {
                            assert(b2 == b);
                            assert(cands@[k as int] == b2);
                            assert(cands@.contains(b2));
                            assert(held == self.spec_branch_patches().contains((branch@, b)));
                            assert(self.dep_step(branch@, reverse, *a, b2));
                        }
                    }
                    if (exists|j: int| 0 <= j < k + 1 && cands@[j] == b2) && self.dep_step(branch@, reverse, *a, b2) {
                        let j = choose|j: int| 0 <= j < k + 1 && cands@[j] == b2;
                        if j == k {
                            assert(held == self.spec_branch_patches().contains((branch@, b)));
                            assert(held == reverse);
                        }
                        if j < k {
                            assert(r0.contains(b2));
                            let m = choose|m: int| 0 <= m < r0.len() && r0[m] == b2;
                            assert(r@[m] == b2);
                        } else {
                            assert(cands@.contains(b2));
                            assert(r@[r@.len() - 1] == b2);
                        }
                    }
                }
            }
            k = k + 1;
        }
        proof {
            assert forall|b: PatchId| #[trigger] r@.contains(b) <==> self.dep_step(branch@, reverse, *a, b) by {
                if self.dep_step(branch@, reverse, *a, b) {
                    assert(cands@.contains(b));
                    let j = choose|j: int| 0 <= j < cands@.len() && cands@[j] == b;
                }
            }
        }
        r
    }
}

/// A sequence without repetitions whose entries all lie in `u` is no longer than `u`.
proof fn lemma_distinct_within(s: Seq<PatchId>, u: Seq<PatchId>)
    requires
        s.no_duplicates(),
        forall|x: PatchId| #[trigger] s.contains(x) ==> u.contains(x),
    ensures
        s.len() <= u.len(),
{
    s.unique_seq_to_set();
    u.lemma_cardinality_of_set();
    assert(s.to_set().subset_of(u.to_set()));
    vstd::set_lib::lemma_len_subset(s.to_set(), u.to_set());
}

impl Repo {
    /// A walk of `k` steps from `x` among the patches that `inside` accepts, where each such
    /// patch has a step to another one.
    proof fn lemma_walk_inside(&self, branch: Seq<char>, reverse: bool, inside: spec_fn(PatchId) -> bool, x: PatchId, k: nat) -> (w: Seq<PatchId>)
        requires
            inside(x),
            forall|y: PatchId| #[trigger] inside(y) ==> exists|z: PatchId| inside(z) && #[trigger] self.dep_step(branch, reverse, y, z),
        ensures
            w.len() == k + 1,
            w[0] == x,
            self.is_dep_walk(branch, reverse, w),
            forall|i: int| 0 <= i < w.len() ==> inside(#[trigger] w[i]),
        decreases k,
    {
        if k == 0 {
            seq![x]
        } else {
            let w0 = self.lemma_walk_inside(branch, reverse, inside, x, (k - 1) as nat);
            let y = w0.last();
            assert(inside(w0[w0.len() - 1]));
            let z = choose|z: PatchId| inside(z) && #[trigger] self.dep_step(branch, reverse, y, z);
            let w = w0.push(z);
            assert forall|i: int| 0 <= i < w.len() - 1 implies #[trigger] self.dep_step(branch, reverse, w[i], w[i + 1]) by {
                if i < w0.len() - 1 {
                    assert(w[i] == w0[i] && w[i + 1] == w0[i + 1]);
                } else {
                    assert(w[i] == y && w[i + 1] == z);
                }
            }
            assert forall|i: int| 0 <= i < w.len() implies inside(#[trigger] w[i]) by {
                if i < w0.len() {
                    assert(w[i] == w0[i]);
                }
            }
            w
        }
    }

    /// If each patch that `inside` accepts (all of which lie in `s`) has a step to another
    /// one, the steps go round a cycle among them.
    proof fn lemma_cycle_inside(&self, branch: Seq<char>, reverse: bool, inside: spec_fn(PatchId) -> bool, s: Seq<PatchId>, x: PatchId) -> (w: Seq<PatchId>)
        requires
            inside(x),
            forall|y: PatchId| #[trigger] inside(y) ==> s.contains(y),
            forall|y: PatchId| #[trigger] inside(y) ==> exists|z: PatchId| inside(z) && #[trigger] self.dep_step(branch, reverse, y, z),
        ensures
            self.is_dep_walk(branch, reverse, w),
            w.len() >= 2,
            w[0] == w.last(),
            inside(w[0]),
    {
        let long = self.lemma_walk_inside(branch, reverse, inside, x, s.len());
        if long.no_duplicates() {
            assert forall|y: PatchId| #[trigger] long.contains(y) implies s.contains(y) by {
                let i = choose|i: int| 0 <= i < long.len() && long[i] == y;
                assert(inside(long[i]));
            }
            lemma_distinct_within(long, s);
        }
        let (i, j) = choose|i: int, j: int| 0 <= i < long.len() && 0 <= j < long.len() && i != j && long[i] == long[j];
        let (a, b) = if i < j { (i, j) } else { (j, i) };
        let w = long.subrange(a, b + 1);
        assert forall|t: int| 0 <= t < w.len() - 1 implies #[trigger] self.dep_step(branch, reverse, w[t], w[t + 1]) by {
            assert(w[t] == long[a + t] && w[t + 1] == long[a + t + 1]);
        }
        assert(inside(long[a]));
        w
    }

    /// A walk that starts inside a set closed under steps stays inside it.
    proof fn lemma_walk_closed(&self, branch: Seq<char>, reverse: bool, s: Seq<PatchId>, w: Seq<PatchId>)
        requires
            self.is_dep_walk(branch, reverse, w),
            s.contains(w[0]),
            forall|y: PatchId, z: PatchId| s.contains(y) && #[trigger] self.dep_step(branch, reverse, y, z) ==> s.contains(z),
        ensures
            s.contains(w.last()),
        decreases w.len(),
    {
        if w.len() > 1 {
            let w0 = w.drop_last();
            assert forall|i: int| 0 <= i < w0.len() - 1 implies #[trigger] self.dep_step(branch, reverse, w0[i], w0[i + 1]) by {
                assert(self.dep_step(branch, reverse, w[i], w[i + 1]));
            }
            self.lemma_walk_closed(branch, reverse, s, w0);
            let i = w.len() - 2;
            assert(self.dep_step(branch, reverse, w[i], w[i + 1]));
            assert(w0.last() == w[i]);
        }
    }
}

/// Is `x` in `v`?
fn patch_in_list(v: &Vec<PatchId>, x: &PatchId) -> (r: bool)
    ensures
        r == v@.contains(*x),
{
    let mut i: usize = 0;
    while i < v.len()
        invariant
            i <= v@.len(),
            forall|j: int| 0 <= j < i ==> v@[j] != *x,
        decreases v@.len() - i,
    {
        if v[i] == *x {
            return true;
        }
        i = i + 1;
    }
    false
}

impl Repo {
    /// Every patch that a step leads to occurs in the dependencies.
    spec fn dep_universe(&self, patch: PatchId) -> Seq<PatchId> {
        seq![patch] + self.patch_deps@.map_values(|e: (PatchId, PatchId)| e.0) + self.patch_deps@.map_values(
            |e: (PatchId, PatchId)| e.1,
        )
    }

    proof fn lemma_step_in_universe(&self, branch: Seq<char>, reverse: bool, patch: PatchId, a: PatchId, b: PatchId)
        requires
            self.dep_step(branch, reverse, a, b),
        ensures
            self.dep_universe(patch).contains(b),
    {
        reveal(Repo::dep_step);
        let u = self.dep_universe(patch);
        let n = self.patch_deps@.len();
        if reverse {
            let i = choose|i: int| 0 <= i < n && self.patch_deps@[i] == (b, a);
            assert(u[1 + i] == b);
        } else {
            let i = choose|i: int| 0 <= i < n && self.patch_deps@[i] == (a, b);
            assert(u[1 + n + i] == b);
        }
    }

    /// The patches that applying (or unapplying) `patch` to the branch `branch` requires, in an
    /// order in which they can be applied (or unapplied): each after the patches that it needs.
    /// There is none when the dependencies that `patch` needs go round a cycle.
    fn dep_order(&self, branch: &String, reverse: bool, patch: &PatchId) -> (r: Option<Vec<PatchId>>)
        requires
            self.wf(),
        ensures
            match r {
                Some(o) => self.is_dep_order(branch@, reverse, *patch, o@),
                None => self.has_dep_cycle(branch@, reverse, *patch),
            },
    {
        let ghost u = self.dep_universe(*patch);
        let mut needed: Vec<PatchId> = Vec::new();
        needed.push(*patch);
        let ghost mut walks: Seq<Seq<PatchId>> = seq![seq![*patch]];
        proof {
            assert(u[0] == *patch);
            assert(self.is_dep_walk(branch@, reverse, seq![*patch]));
        }
        let mut k: usize = 0;
        while k < needed.len()
            invariant
                self.wf(),
                u == self.dep_universe(*patch),
                needed@.no_duplicates(),
                needed@.len() >= 1,
                needed@[0] == *patch,
                k <= needed@.len(),
                walks.len() == needed@.len(),
                forall|i: int| 0 <= i < needed@.len() ==> self.is_dep_walk(branch@, reverse, #[trigger] walks[i])
                    && walks[i][0] == *patch && walks[i].last() == needed@[i],
                forall|x: PatchId| #[trigger] needed@.contains(x) ==> u.contains(x),
                forall|i: int, q: PatchId| 0 <= i < k && #[trigger] self.dep_step(branch@, reverse, needed@[i], q) ==> needed@.contains(q),
            decreases u.len() - k,
        {
            proof {
                lemma_distinct_within(needed@, u);
            }
            let cur = needed[k];
            let steps = self.dep_steps(branch, reverse, &cur);
            let mut m: usize = 0;
            while m < steps.len()
                invariant
                    self.wf(),
                    u == self.dep_universe(*patch),
                    needed@.no_duplicates(),
                    needed@.len() >= 1,
                    needed@[0] == *patch,
                    k < needed@.len(),
                    cur == needed@[k as int],
                    m <= steps@.len(),
                    forall|b: PatchId| #[trigger] steps@.contains(b) <==> self.dep_step(branch@, reverse, cur, b),
                    walks.len() == needed@.len(),
                    forall|i: int| 0 <= i < needed@.len() ==> self.is_dep_walk(branch@, reverse, #[trigger] walks[i])
                        && walks[i][0] == *patch && walks[i].last() == needed@[i],
                    forall|x: PatchId| #[trigger] needed@.contains(x) ==> u.contains(x),
                    forall|i: int, q: PatchId| 0 <= i < k && #[trigger] self.dep_step(branch@, reverse, needed@[i], q) ==> needed@.contains(q),
                    forall|t: int| 0 <= t < m ==> needed@.contains(#[trigger] steps@[t]),
                decreases steps@.len() - m,
            {
                let q = steps[m];
                proof {
                    assert(steps@.contains(q));
                    assert(self.dep_step(branch@, reverse, cur, q));
                }
                if !patch_in_list(&needed, &q) {
                    let ghost n0 = needed@;
                    let ghost w = walks[k as int].push(q);
                    needed.push(q);
                    proof {
                        assert forall|i: int| 0 <= i < w.len() - 1 implies #[trigger] self.dep_step(branch@, reverse, w[i], w[i + 1]) by {
                            let wk = walks[k as int];
                            if i < wk.len() - 1 {
                                assert(w[i] == wk[i] && w[i + 1] == wk[i + 1]);
                            } else {
                                assert(w[i] == cur && w[i + 1] == q);
                            }
                        }
                        walks = walks.push(w);
                        self.lemma_step_in_universe(branch@, reverse, *patch, cur, q);
                        assert forall|a: int, b: int| 0 <= a < b < needed@.len() implies needed@[a] != needed@[b] by {
                            if b == n0.len() {
                                assert(n0.contains(needed@[a]));
                            } else {
                                assert(needed@[a] == n0[a] && needed@[b] == n0[b]);
                            }
                        }
                        assert forall|x: PatchId| #[trigger] needed@.contains(x) implies u.contains(x) by {
                            if x != q {
                                let j = choose|j: int| 0 <= j < needed@.len() && needed@[j] == x;
                                assert(n0[j] == x);
                                assert(n0.contains(x));
                            }
                        }
                        assert forall|i: int| 0 <= i < needed@.len() implies self.is_dep_walk(branch@, reverse, #[trigger] walks[i])
                            && walks[i][0] == *patch && walks[i].last() == needed@[i] by {
                            if i < n0.len() {
                                assert(needed@[i] == n0[i]);
                            }
                        }
                        assert forall|i: int, q2: PatchId| 0 <= i < k && #[trigger] self.dep_step(branch@, reverse, needed@[i], q2) implies needed@.contains(q2) by {
                            assert(needed@[i] == n0[i]);
                            assert(n0.contains(q2));
                            let j = choose|j: int| 0 <= j < n0.len() && n0[j] == q2;
                            assert(needed@[j] == q2);
                        }
                        assert forall|t: int| 0 <= t < m + 1 implies needed@.contains(#[trigger] steps@[t]) by {
                            if t < m {
                                assert(n0.contains(steps@[t]));
                                let j = choose|j: int| 0 <= j < n0.len() && n0[j] == steps@[t];
                                assert(needed@[j] == steps@[t]);
                            } else {
                                assert(needed@[n0.len() as int] == q);
                            }
                        }
                    }
                }
                m = m + 1;
            }
            proof {
                assert forall|i: int, q: PatchId| 0 <= i < k + 1 && #[trigger] self.dep_step(branch@, reverse, needed@[i], q) implies needed@.contains(q) by {
                    if i == k {
                        assert(steps@.contains(q));
                        let t = choose|t: int| 0 <= t < steps@.len() && steps@[t] == q;
                        assert(needed@.contains(steps@[t]));
                    }
                }
            }
            k = k + 1;
        }
        // Every patch that a walk from `patch` reaches is needed, and only those.
        proof {
            assert forall|q: PatchId| #[trigger] needed@.contains(q) <==> self.needs(branch@, reverse, *patch, q) by {
                if needed@.contains(q) {
                    let i = choose|i: int| 0 <= i < needed@.len() && needed@[i] == q;
                    assert(self.is_dep_walk(branch@, reverse, walks[i]));
                }
                if self.needs(branch@, reverse, *patch, q) {
                    let w = choose|w: Seq<PatchId>| #[trigger] self.is_dep_walk(branch@, reverse, w) && w[0] == *patch && w.last() == q;
                    assert forall|y: PatchId, z: PatchId| needed@.contains(y) && #[trigger] self.dep_step(branch@, reverse, y, z)
                        implies needed@.contains(z) by {
                        let i = choose|i: int| 0 <= i < needed@.len() && needed@[i] == y;
                        assert(self.dep_step(branch@, reverse, needed@[i], z));
                    }
                    assert(needed@.contains(needed@[0]));
                    self.lemma_walk_closed(branch@, reverse, needed@, w);
                }
            }
        }
        // Place the patches one by one, each once all the patches that it needs are placed.
        let n = needed.len();
        let mut order: Vec<PatchId> = Vec::new();
        let mut placed: Vec<bool> = Vec::new();
        let mut i: usize = 0;
        while i < n
            invariant
                i <= n,
                placed@.len() == i,
                forall|j: int| 0 <= j < i ==> !#[trigger] placed@[j],
            decreases n - i,
        {
            placed.push(false);
            i = i + 1;
        }
        let mut progress = true;
        while progress
            invariant
                self.wf(),
                n == needed@.len(),
                needed@.no_duplicates(),
                placed@.len() == n,
                order@.no_duplicates(),
                forall|x: PatchId| #[trigger] order@.contains(x) ==> needed@.contains(x),
                forall|j: int| 0 <= j < n ==> (#[trigger] placed@[j] <==> order@.contains(needed@[j])),
                forall|a: int, q: PatchId| 0 <= a < order@.len() && #[trigger] self.dep_step(branch@, reverse, order@[a], q) ==>
                    exists|b: int| 0 <= b < a && order@[b] == q,
                !progress ==> forall|j: int| 0 <= j < n && !(#[trigger] placed@[j]) ==> exists|q: PatchId|
                    #[trigger] self.dep_step(branch@, reverse, needed@[j], q) && !order@.contains(q),
            decreases (n - order@.len()) * 2 + (if progress { 1int } else { 0int }),
        {
            proof {
                lemma_distinct_within(order@, needed@);
            }
            progress = false;
            let ghost start_len = order@.len();
            let mut j: usize = 0;
            while j < n
                invariant
                    self.wf(),
                    n == needed@.len(),
                    needed@.no_duplicates(),
                    placed@.len() == n,
                    j <= n,
                    order@.no_duplicates(),
                    forall|x: PatchId| #[trigger] order@.contains(x) ==> needed@.contains(x),
                    forall|j2: int| 0 <= j2 < n ==> (#[trigger] placed@[j2] <==> order@.contains(needed@[j2])),
                    forall|a: int, q: PatchId| 0 <= a < order@.len() && #[trigger] self.dep_step(branch@, reverse, order@[a], q) ==>
                        exists|b: int| 0 <= b < a && order@[b] == q,
                    progress <==> order@.len() > start_len,
                    order@.len() >= start_len,
                    !progress ==> forall|j2: int| 0 <= j2 < j && !(#[trigger] placed@[j2]) ==> exists|q: PatchId|
                        #[trigger] self.dep_step(branch@, reverse, needed@[j2], q) && !order@.contains(q),
                decreases n - j,
            {
                if !placed[j] {
                    let x = needed[j];
                    let steps = self.dep_steps(branch, reverse, &x);
                    let mut ready = true;
                    let mut t: usize = 0;
                    while t < steps.len()
                        invariant
                            t <= steps@.len(),
                            ready <==> forall|t2: int| 0 <= t2 < t ==> order@.contains(#[trigger] steps@[t2]),
                        decreases steps@.len() - t,
                    {
                        if !patch_in_list(&order, &steps[t]) {
                            ready = false;
                        }
                        t = t + 1;
                    }
                    if ready {
                        let ghost o0 = order@;
                        proof {
                            assert(!o0.contains(x));
                        }
                        order.push(x);
                        placed.set(j, true);
                        progress = true;
                        proof {
                            assert forall|a: int, b: int| 0 <= a < b < order@.len() implies order@[a] != order@[b] by {
                                if b == o0.len() {
                                    assert(o0.contains(order@[a]));
                                } else {
                                    assert(order@[a] == o0[a] && order@[b] == o0[b]);
                                }
                            }
                            assert forall|y: PatchId| #[trigger] order@.contains(y) implies needed@.contains(y) by {
                                if y != x {
                                    let c = choose|c: int| 0 <= c < order@.len() && order@[c] == y;
                                    assert(o0[c] == y);
                                    assert(o0.contains(y));
                                } else {
                                    assert(needed@[j as int] == x);
                                    assert(needed@.contains(x));
                                }
                            }
                            assert forall|j2: int| 0 <= j2 < n implies (#[trigger] placed@[j2] <==> order@.contains(needed@[j2])) by {
                                if order@.contains(needed@[j2]) && needed@[j2] != x {
                                    let c = choose|c: int| 0 <= c < order@.len() && order@[c] == needed@[j2];
                                    assert(o0[c] == needed@[j2]);
                                }
                                if o0.contains(needed@[j2]) {
                                    let c = choose|c: int| 0 <= c < o0.len() && o0[c] == needed@[j2];
                                    assert(order@[c] == needed@[j2]);
                                }
                                if j2 != j && needed@[j2] == x {
                                    assert(needed@[j2] == needed@[j as int]);
                                }
                                if needed@[j2] == x {
                                    assert(order@[o0.len() as int] == x);
                                }
                            }
                            assert forall|a: int, q: PatchId| 0 <= a < order@.len() && #[trigger] self.dep_step(branch@, reverse, order@[a], q) implies
                                exists|b: int| 0 <= b < a && order@[b] == q by {
                                if a < o0.len() {
                                    assert(order@[a] == o0[a]);
                                    let b = choose|b: int| 0 <= b < a && o0[b] == q;
                                    assert(order@[b] == q);
                                } else {
                                    assert(order@[a] == x);
                                    assert(steps@.contains(q));
                                    let t2 = choose|t2: int| 0 <= t2 < steps@.len() && steps@[t2] == q;
                                    assert(o0.contains(steps@[t2]));
                                    let b = choose|b: int| 0 <= b < o0.len() && o0[b] == q;
                                    assert(order@[b] == q);
                                }
                            }
                        }
                    } else {
                        proof {
                            let t2 = choose|t2: int| 0 <= t2 < steps@.len() && !order@.contains(#[trigger] steps@[t2]);
                            assert(steps@.contains(steps@[t2]));
                            assert(self.dep_step(branch@, reverse, needed@[j as int], steps@[t2]));
                        }
                    }
                }
                j = j + 1;
            }
            proof {
                lemma_distinct_within(order@, needed@);
            }
        }
        let mut all = true;
        let mut j: usize = 0;
        while j < n
            invariant
                j <= n,
                placed@.len() == n,
                all <==> forall|j2: int| 0 <= j2 < j ==> #[trigger] placed@[j2],
            decreases n - j,
        {
            if !placed[j] {
                all = false;
            }
            j = j + 1;
        }
        if all {
            proof {
                assert forall|q: PatchId| #[trigger] order@.contains(q) <==> self.needs(branch@, reverse, *patch, q) by {
                    if needed@.contains(q) {
                        let c = choose|c: int| 0 <= c < n && needed@[c] == q;
                        assert(placed@[c]);
                    }
                }
            }
            Some(order)
        } else {
            proof {
                let j0 = choose|j2: int| 0 <= j2 < n && !#[trigger] placed@[j2];
                // The patches that were never placed each need one that was never placed.
                let inside = |y: PatchId| needed@.contains(y) && !order@.contains(y);
                assert(inside(needed@[j0]));
                assert forall|y: PatchId| #[trigger] inside(y) implies exists|z: PatchId| inside(z)
                    && #[trigger] self.dep_step(branch@, reverse, y, z) by {
                    let jj = choose|jj: int| 0 <= jj < n && needed@[jj] == y;
                    assert(!placed@[jj]);
                    let z = choose|z: PatchId| #[trigger] self.dep_step(branch@, reverse, needed@[jj], z) && !order@.contains(z);
                    assert(needed@.contains(z)) by {
                        assert(self.needs(branch@, reverse, *patch, y));
                        let w = choose|w: Seq<PatchId>| #[trigger] self.is_dep_walk(branch@, reverse, w) && w[0] == *patch && w.last() == y;
                        let w2 = w.push(z);
                        assert forall|i2: int| 0 <= i2 < w2.len() - 1 implies #[trigger] self.dep_step(branch@, reverse, w2[i2], w2[i2 + 1]) by {
                            if i2 < w.len() - 1 {
                                assert(w2[i2] == w[i2] && w2[i2 + 1] == w[i2 + 1]);
                            }
                        }
                        assert(self.is_dep_walk(branch@, reverse, w2));
                    }
                    assert(inside(z));
                }
                let w = self.lemma_cycle_inside(branch@, reverse, inside, needed@, needed@[j0]);
                assert(self.needs(branch@, reverse, *patch, w[0]));
            }
            None
        }
    }
}

impl Repo {
    /// The patches to apply, in order, to apply `patch` to the branch `branch`: none if the
    /// branch holds it already; otherwise `patch` and every patch that it needs and the branch
    /// does not hold, each after the patches that it depends on. There is no order when those
    /// dependencies go round a cycle.
    pub fn apply_order(&self, branch: &str, patch: &PatchId) -> (r: Option<Vec<PatchId>>)
        requires
            self.wf(),
        ensures
            self.spec_branch_patches().contains((branch@, *patch)) ==> r is Some && r->Some_0@.len() == 0,
            !self.spec_branch_patches().contains((branch@, *patch)) ==> match r {
                Some(o) => self.is_dep_order(branch@, false, *patch, o@),
                None => self.has_dep_cycle(branch@, false, *patch),
            },
    {
        if self.has_patch(branch, patch) {
            return Some(Vec::new());
        }
        let name = branch.to_owned();
        self.dep_order(&name, false, patch)
    }

    /// The patches to unapply, in order, to unapply `patch` from the branch `branch`: none if
    /// the branch does not hold it; otherwise `patch` and every patch held by the branch that
    /// depends on it, each after the patches that depend on it. There is no order when those
    /// dependencies go round a cycle.
    pub fn unapply_order(&self, branch: &str, patch: &PatchId) -> (r: Option<Vec<PatchId>>)
        requires
            self.wf(),
        ensures
            !self.spec_branch_patches().contains((branch@, *patch)) ==> r is Some && r->Some_0@.len() == 0,
            self.spec_branch_patches().contains((branch@, *patch)) ==> match r {
                Some(o) => self.is_dep_order(branch@, true, *patch, o@),
                None => self.has_dep_cycle(branch@, true, *patch),
            },
    {
        if !self.has_patch(branch, patch) {
            return Some(Vec::new());
        }
        let name = branch.to_owned();
        self.dep_order(&name, true, patch)
    }

    /// Applies the changes of `patch` to the graggle of the branch `branch`, stores the contents
    /// of its new lines, and records that the branch holds it. The changes must be applicable
    /// to the graggle, and must not change the contents of a stored line; otherwise nothing
    /// changes and the stored data is found to contradict itself.
    pub fn apply_one_patch(&mut self, branch: &str, patch: &Patch) -> (r: Result<(), Error>)
        requires
            old(self).wf(),
        ensures
            final(self).wf(),
            final(self).spec_current() == old(self).spec_current(),
            final(self).spec_branches() == old(self).spec_branches(),
            final(self).spec_patches() == old(self).spec_patches(),
            final(self).spec_patch_changes() == old(self).spec_patch_changes(),
            final(self).spec_stored_patches() == old(self).spec_stored_patches(),
            final(self).spec_deps() == old(self).spec_deps(),
            match r {
                Ok(()) => {
                    let n = old(self).spec_branches()[branch@].spec_n();
                    let g0 = old(self).spec_storage().spec_graggle(n)->0@.skeleton();
                    &&& old(self).spec_branches().contains_key(branch@)
                    &&& applicable(g0, patch.spec_changes(), patch.spec_id())
                    &&& contents_fit(old(self).spec_storage().spec_contents(), patch.spec_changes())
                    &&& final(self).spec_storage().spec_graggle(n) is Some
                    &&& final(self).spec_storage().spec_graggle(n)->0@.skeleton() == apply_all(g0, patch.spec_changes(), patch.spec_id())
                    &&& final(self).spec_storage().spec_contents() == contents_after(old(self).spec_storage().spec_contents(), patch.spec_changes())
                    &&& forall|k: nat| k != n ==> #[trigger] final(self).spec_storage().spec_graggle(k) == old(self).spec_storage().spec_graggle(k)
                    &&& final(self).spec_branch_patches() == old(self).spec_branch_patches().insert((branch@, patch.spec_id()))
                },
                Err(e) => {
                    &&& final(self).spec_storage() == old(self).spec_storage()
                    &&& final(self).spec_branch_patches() == old(self).spec_branch_patches()
                    &&& if old(self).spec_branches().contains_key(branch@) {
                        let g0 = old(self).spec_storage().spec_graggle(old(self).spec_branches()[branch@].spec_n())->0@.skeleton();
                        e is DbCorruption && !(applicable(g0, patch.spec_changes(), patch.spec_id())
                            && contents_fit(old(self).spec_storage().spec_contents(), patch.spec_changes()))
                    } else {
                        e is UnknownBranch && e->UnknownBranch_0@ == branch@
                    }
                },
            },
    {
        let name = branch.to_owned();
        let inode = match self.find_inode(&name) {
            Some(i) => i,
            None => {
                return Err(Error::UnknownBranch(name));
            },
        };
        let id = *patch.id();
        let ok = changes_applicable(self.storage.graggle_data(inode), patch.changes(), id)
            && self.storage.fits_contents(patch.changes());
        if !ok {
            return Err(Error::DbCorruption);
        }
        self.storage.apply_changes(inode, patch.changes(), id);
        bp_insert(&mut self.branch_patches, name, id);
        proof {
            assert forall|a: int| 0 <= a < self.branches@.len() implies (#[trigger] self.storage.spec_graggle(self.branches@[a].1.spec_n())) is Some by {
                old(self).lemma_branch_at(a);
            }
            assert(self.spec_branches() =~= old(self).spec_branches());
            assert forall|t: (Seq<char>, PatchId)| #[trigger] self.spec_branch_patches().contains(t) implies self.spec_branches().contains_key(t.0) by {
                if t != (branch@, id) {
                    assert(old(self).spec_branch_patches().contains(t));
                    assert(old(self).spec_branches().contains_key(t.0));
                }
            }
            assert(self.spec_deps() =~= old(self).spec_deps());
            assert(self.spec_rev_deps() =~= old(self).spec_rev_deps());
            assert(self.spec_patches() =~= old(self).spec_patches());
            assert(self.spec_patch_changes() =~= old(self).spec_patch_changes());
        }
        Ok(())
    }

    /// Unapplies the changes of `patch` from the graggle of the branch `branch`, forgets the
    /// contents of its new lines, and records that the branch no longer holds it. The changes
    /// must be unapplicable from the graggle; otherwise nothing changes and the stored data is
    /// found to contradict itself.
    pub fn unapply_one_patch(&mut self, branch: &str, patch: &Patch) -> (r: Result<(), Error>)
        requires
            old(self).wf(),
        ensures
            final(self).wf(),
            final(self).spec_current() == old(self).spec_current(),
            final(self).spec_branches() == old(self).spec_branches(),
            final(self).spec_patches() == old(self).spec_patches(),
            final(self).spec_patch_changes() == old(self).spec_patch_changes(),
            final(self).spec_stored_patches() == old(self).spec_stored_patches(),
            final(self).spec_deps() == old(self).spec_deps(),
            match r {
                Ok(()) => {
                    let n = old(self).spec_branches()[branch@].spec_n();
                    let g0 = old(self).spec_storage().spec_graggle(n)->0@.skeleton();
                    &&& old(self).spec_branches().contains_key(branch@)
                    &&& unapplicable(g0, patch.spec_changes(), patch.spec_id())
                    &&& final(self).spec_storage().spec_graggle(n) is Some
                    &&& final(self).spec_storage().spec_graggle(n)->0@.skeleton() == unapply_all(g0, patch.spec_changes(), patch.spec_id())
                    &&& final(self).spec_storage().spec_contents() == contents_without(old(self).spec_storage().spec_contents(), patch.spec_changes())
                    &&& forall|k: nat| k != n ==> #[trigger] final(self).spec_storage().spec_graggle(k) == old(self).spec_storage().spec_graggle(k)
                    &&& final(self).spec_branch_patches() == old(self).spec_branch_patches().remove((branch@, patch.spec_id()))
                },
                Err(e) => {
                    &&& final(self).spec_storage() == old(self).spec_storage()
                    &&& final(self).spec_branch_patches() == old(self).spec_branch_patches()
                    &&& if old(self).spec_branches().contains_key(branch@) {
                        let g0 = old(self).spec_storage().spec_graggle(old(self).spec_branches()[branch@].spec_n())->0@.skeleton();
                        e is DbCorruption && !unapplicable(g0, patch.spec_changes(), patch.spec_id())
                    } else {
                        e is UnknownBranch && e->UnknownBranch_0@ == branch@
                    }
                },
            },
    {
        let name = branch.to_owned();
        let inode = match self.find_inode(&name) {
            Some(i) => i,
            None => {
                return Err(Error::UnknownBranch(name));
            },
        };
        let id = *patch.id();
        if !changes_unapplicable(self.storage.graggle_data(inode), patch.changes(), id) {
            return Err(Error::DbCorruption);
        }
        self.storage.unapply_changes(inode, patch.changes(), id);
        bp_remove(&mut self.branch_patches, &name, Some(id));
        proof {
            assert forall|a: int| 0 <= a < self.branches@.len() implies (#[trigger] self.storage.spec_graggle(self.branches@[a].1.spec_n())) is Some by {
                old(self).lemma_branch_at(a);
            }
            assert(self.spec_branch_patches() =~= old(self).spec_branch_patches().remove((branch@, id)));
            assert forall|t: (Seq<char>, PatchId)| #[trigger] self.spec_branch_patches().contains(t) implies self.spec_branches().contains_key(t.0) by {
                assert(old(self).spec_branches().contains_key(t.0));
            }
            assert(self.spec_deps() =~= old(self).spec_deps());
            assert(self.spec_rev_deps() =~= old(self).spec_rev_deps());
            assert(self.spec_patches() =~= old(self).spec_patches());
            assert(self.spec_patch_changes() =~= old(self).spec_patch_changes());
        }
        Ok(())
    }

    /// Brings the pseudo-edges of the graggle of the branch `branch` up to date.
    pub fn update_cache(&mut self, branch: &str) -> (r: Result<(), Error>)
        requires
            old(self).wf(),
        ensures
            final(self).wf(),
            final(self).spec_current() == old(self).spec_current(),
            final(self).spec_branches() == old(self).spec_branches(),
            final(self).spec_patches() == old(self).spec_patches(),
            final(self).spec_patch_changes() == old(self).spec_patch_changes(),
            final(self).spec_stored_patches() == old(self).spec_stored_patches(),
            final(self).spec_deps() == old(self).spec_deps(),
            final(self).spec_branch_patches() == old(self).spec_branch_patches(),
            final(self).spec_storage().spec_contents() == old(self).spec_storage().spec_contents(),
            match r {
                Ok(()) => {
                    let n = old(self).spec_branches()[branch@].spec_n();
                    &&& old(self).spec_branches().contains_key(branch@)
                    &&& final(self).spec_storage().spec_graggle(n) is Some
                    &&& !final(self).spec_storage().spec_graggle(n)->0.is_dirty()
                    &&& final(self).spec_storage().spec_graggle(n)->0@.skeleton() == old(self).spec_storage().spec_graggle(n)->0@.skeleton()
                    &&& forall|k: nat| k != n ==> #[trigger] final(self).spec_storage().spec_graggle(k) == old(self).spec_storage().spec_graggle(k)
                },
                Err(e) => final(self).spec_storage() == old(self).spec_storage() && !old(self).spec_branches().contains_key(branch@)
                    && e is UnknownBranch && e->UnknownBranch_0@ == branch@,
            },
    {
        let name = branch.to_owned();
        let inode = match self.find_inode(&name) {
            Some(i) => i,
            None => {
                return Err(Error::UnknownBranch(name));
            },
        };
        self.storage.update_cache(inode);
        proof {
            assert forall|a: int| 0 <= a < self.branches@.len() implies (#[trigger] self.storage.spec_graggle(self.branches@[a].1.spec_n())) is Some by {
                old(self).lemma_branch_at(a);
            }
            assert(self.spec_branch_patches() =~= old(self).spec_branch_patches());
            assert(self.spec_deps() =~= old(self).spec_deps());
            assert(self.spec_rev_deps() =~= old(self).spec_rev_deps());
            assert(self.spec_patches() =~= old(self).spec_patches());
            assert(self.spec_patch_changes() =~= old(self).spec_patch_changes());
        }
        Ok(())
    }
}

/// The skeleton and the line contents after applying the patches `order` one after the other,
/// each with its changes in `ch`, starting from the skeleton `s` and the contents `c`; and
/// whether each patch could be applied where it came. The first patch that cannot be applied
/// stops the walk.
pub open spec fn apply_seq(s: Skeleton, c: Map<NodeId, Seq<u8>>, order: Seq<PatchId>, ch: Map<PatchId, Seq<ChangeView>>)
    -> (bool, Skeleton, Map<NodeId, Seq<u8>>)
    decreases order.len(),
{
    if order.len() == 0 {
        (true, s, c)
    } else {
        let p = order[0];
        if applicable(s, ch[p], p) && contents_fit(c, ch[p]) {
            apply_seq(apply_all(s, ch[p], p), contents_after(c, ch[p]), order.drop_first(), ch)
        } else {
            (false, s, c)
        }
    }
}

/// How many of the patches `order`, from the first on, can be applied one after the other
/// before one cannot.
pub open spec fn applied_count(s: Skeleton, c: Map<NodeId, Seq<u8>>, order: Seq<PatchId>, ch: Map<PatchId, Seq<ChangeView>>) -> nat
    decreases order.len(),
{
    if order.len() == 0 {
        0
    } else {
        let p = order[0];
        if applicable(s, ch[p], p) && contents_fit(c, ch[p]) {
            1 + applied_count(apply_all(s, ch[p], p), contents_after(c, ch[p]), order.drop_first(), ch)
        } else {
            0
        }
    }
}

/// How many of the patches `order`, from the first on, can be unapplied one after the other
/// before one cannot.
pub open spec fn unapplied_count(s: Skeleton, c: Map<NodeId, Seq<u8>>, order: Seq<PatchId>, ch: Map<PatchId, Seq<ChangeView>>) -> nat
    decreases order.len(),
{
    if order.len() == 0 {
        0
    } else {
        let p = order[0];
        if unapplicable(s, ch[p], p) {
            1 + unapplied_count(unapply_all(s, ch[p], p), contents_without(c, ch[p]), order.drop_first(), ch)
        } else {
            0
        }
    }
}

/// The skeleton and the line contents after unapplying the patches `order` one after the
/// other, each with its changes in `ch`; and whether each patch could be unapplied where it
/// came. The first patch that cannot be unapplied stops the walk.
pub open spec fn unapply_seq(s: Skeleton, c: Map<NodeId, Seq<u8>>, order: Seq<PatchId>, ch: Map<PatchId, Seq<ChangeView>>)
    -> (bool, Skeleton, Map<NodeId, Seq<u8>>)
    decreases order.len(),
{
    if order.len() == 0 {
        (true, s, c)
    } else {
        let p = order[0];
        if unapplicable(s, ch[p], p) {
            unapply_seq(unapply_all(s, ch[p], p), contents_without(c, ch[p]), order.drop_first(), ch)
        } else {
            (false, s, c)
        }
    }
}

/// `ids` is the order of a totally ordered graggle: its live nodes, each once, each joined to
/// the next, and no edge going backwards.
pub open spec fn is_file_order(g: GraggleView, ids: Seq<NodeId>) -> bool {
    &&& ids.no_duplicates()
    &&& forall|n: NodeId| #[trigger] ids.contains(n) <==> g.live.contains(n)
    &&& forall|i: int| 0 <= i < ids.len() - 1 ==> linked(g, #[trigger] ids[i], ids[i + 1])
    &&& forall|i: int, j: int| 0 <= i < ids.len() && 0 <= j < ids.len() && linked(g, #[trigger] ids[i], #[trigger] ids[j]) ==> i < j
}

/// The ids that the nodes of an order of the live graph stand for.
pub open spec fn order_ids(live: Seq<NodeId>, order: Seq<usize>) -> Seq<NodeId> {
    order.map_values(|x: usize| live[x as int])
}

/// A linear order of the live graph of `g` is a file order of `g`, and there is no file order
/// when the live graph has no linear order.
proof fn lemma_file_order(g: GraggleView, live: &IdGraph, order: Option<Seq<usize>>)
    requires
        live.wf(),
        live.spec_ids().to_set() == g.live,
        forall|i: int, j: int| 0 <= i < live.spec_ids().len() && 0 <= j < live.spec_ids().len() ==>
            (#[trigger] has_edge(live, i, j) <==> exists|e: crate::graggle::Edge| #[trigger] g.edges.contains((live.spec_ids()[i], e))
                && !(e.kind is Deleted) && e.dest == live.spec_ids()[j]),
        match order {
            Some(o) => is_linear_order(live, o),
            None => forall|o: Seq<usize>| !is_linear_order(live, o),
        },
    ensures
        match order {
            Some(o) => is_file_order(g, order_ids(live.spec_ids(), o)),
            None => forall|ids: Seq<NodeId>| !is_file_order(g, ids),
        },
{
    live.lemma_wf();
    let l = live.spec_ids();
    let n = live.spec_num_nodes();
    match order {
        Some(o) => {
            let ids = order_ids(l, o);
            assert forall|a: int, b: int| 0 <= a < ids.len() && 0 <= b < ids.len() && a != b implies ids[a] != ids[b] by {
                assert(o[a] != o[b]);
            }
            assert forall|x: NodeId| #[trigger] ids.contains(x) <==> g.live.contains(x) by {
                if ids.contains(x) {
                    let a = choose|a: int| 0 <= a < ids.len() && ids[a] == x;
                    assert(l.to_set().contains(l[o[a] as int]));
                }
                if g.live.contains(x) {
                    assert(l.to_set().contains(x));
                    let c = choose|c: int| 0 <= c < l.len() && l[c] == x;
                    lemma_permutation_covers(o, n as int, c);
                    let j = choose|j: int| 0 <= j < n && o[j] == c;
                    assert(ids[j] == x);
                }
            }
            assert forall|a: int| 0 <= a < ids.len() - 1 implies linked(g, #[trigger] ids[a], ids[a + 1]) by {
                assert(has_edge(live, o[a] as int, o[a + 1] as int));
            }
            assert forall|a: int, b: int| 0 <= a < ids.len() && 0 <= b < ids.len() && linked(g, #[trigger] ids[a], #[trigger] ids[b]) implies a < b by {
                let e = choose|e: crate::graggle::Edge| #[trigger] g.edges.contains((ids[a], e)) && !(e.kind is Deleted) && e.dest == ids[b];
                assert(has_edge(live, o[a] as int, o[b] as int));
            }
        },
        None => {
            assert forall|ids: Seq<NodeId>| !is_file_order(g, ids) by {
                if is_file_order(g, ids) {
                    let o = Seq::new(ids.len(), |a: int| choose|c: int| 0 <= c < l.len() && l[c] == ids[a]);
                    assert forall|a: int| 0 <= a < ids.len() implies 0 <= #[trigger] o[a] < l.len() && l[o[a] as int] == ids[a] by {
                        assert(g.live.contains(ids[a])) by {
                            assert(ids.contains(ids[a]));
                        }
                        assert(l.to_set().contains(ids[a]));
                    }
                    // The order has one entry per live node.
                    ids.unique_seq_to_set();
                    l.unique_seq_to_set();
                    assert(ids.to_set() =~= l.to_set()) by {
                        assert forall|x: NodeId| ids.to_set().contains(x) <==> l.to_set().contains(x) by {
                            assert(ids.contains(x) <==> g.live.contains(x));
                        }
                    }
                    let ou = Seq::new(ids.len(), |a: int| o[a] as usize);
                    assert forall|a: int| 0 <= a < ou.len() implies #[trigger] ou[a] == o[a] && o[a] < n by {}
                    assert(ou.no_duplicates()) by {
                        assert forall|a: int, b: int| 0 <= a < ou.len() && 0 <= b < ou.len() && a != b implies ou[a] != ou[b] by {
                            assert(l[o[a] as int] == ids[a]);
                            assert(l[o[b] as int] == ids[b]);
                        }
                    }
                    assert forall|a: int, b: int| 0 <= a < ou.len() && 0 <= b < ou.len()
                        && has_edge(live, #[trigger] ou[a] as int, #[trigger] ou[b] as int) implies a < b by {
                        assert(linked(g, ids[a], ids[b]));
                    }
                    assert forall|a: int| 0 <= a < ou.len() - 1 implies has_edge(live, #[trigger] ou[a] as int, ou[a + 1] as int) by {
                        assert(linked(g, ids[a], ids[a + 1]));
                        let e = choose|e: crate::graggle::Edge| #[trigger] g.edges.contains((ids[a], e)) && !(e.kind is Deleted) && e.dest == ids[a + 1];
                        assert(l[ou[a] as int] == ids[a]);
                        assert(l[ou[a + 1] as int] == ids[a + 1]);
                    }
                    assert(is_linear_order(live, ou));
                }
            }
        },
    }
}

impl Repo {
    /// The contents of the branch `branch`, which must be a totally ordered file: its live
    /// nodes in their order, with their contents.
    pub fn file(&self, branch: &str) -> (r: Result<File, Error>)
        requires
            self.wf(),
        ensures
            match r {
                Ok(f) => {
                    let g = self.spec_storage().spec_graggle(self.spec_branches()[branch@].spec_n())->0@;
                    &&& self.spec_branches().contains_key(branch@)
                    &&& f.wf()
                    &&& is_file_order(g, f.spec_ids())
                    &&& forall|i: int| 0 <= i < f.spec_num_nodes() ==> #[trigger] f.spec_node(i)
                        == self.spec_storage().spec_contents()[f.spec_ids()[i]]
                },
                Err(e) => if self.spec_branches().contains_key(branch@) {
                    let g = self.spec_storage().spec_graggle(self.spec_branches()[branch@].spec_n())->0@;
                    ||| e is NotOrdered && forall|ids: Seq<NodeId>| !is_file_order(g, ids)
                    ||| e is DbCorruption && exists|n: NodeId| g.live.contains(n) && !self.spec_storage().spec_contents().contains_key(n)
                } else {
                    e is UnknownBranch && e->UnknownBranch_0@ == branch@
                },
            },
    {
        let name = branch.to_owned();
        let inode = match self.find_inode(&name) {
            Some(i) => i,
            None => {
                return Err(Error::UnknownBranch(name));
            },
        };
        let data = self.storage.graggle_data(inode);
        let g = self.storage.graggle(inode);
        proof {
            assert(data.wf());
            assert(g@ == data@);
        }
        let live = g.as_live_graph();
        proof {
            live.lemma_wf();
        }
        let order = linear_order(&live);
        proof {
            lemma_file_order(g@, &live, match &order {
                Some(o) => Some(o@),
                None => None,
            });
        }
        match order {
            None => Err(Error::NotOrdered),
            Some(o) => {
                proof {
                    live.lemma_wf();
                }
                let lids = live.ids();
                let mut ids: Vec<NodeId> = Vec::new();
                let mut i: usize = 0;
                while i < o.len()
                    invariant
                        lids@ == live.spec_ids(),
                        lids@.len() == live.spec_num_nodes(),
                        is_linear_order(&live, o@),
                        i <= o@.len(),
                        ids@ == order_ids(lids@, o@).take(i as int),
                    decreases o@.len() - i,
                {
                    proof {
                        assert(o@[i as int] < live.spec_num_nodes());
                    }
                    ids.push(lids[o[i]]);
                    i = i + 1;
                    proof {
                        assert(ids@ =~= order_ids(lids@, o@).take(i as int));
                    }
                }
                proof {
                    assert(order_ids(lids@, o@).take(o@.len() as int) =~= order_ids(lids@, o@));
                }
                let mut k: usize = 0;
                while k < ids.len()
                    invariant
                        self.wf(),
                        self.spec_branches().contains_key(branch@),
                        g@ == self.spec_storage().spec_graggle(self.spec_branches()[branch@].spec_n())->0@,
                        is_file_order(g@, ids@),
                        k <= ids@.len(),
                        forall|j: int| 0 <= j < k ==> self.storage.spec_contents().contains_key(#[trigger] ids@[j]),
                    decreases ids@.len() - k,
                {
                    if !self.storage.contains_node(&ids[k]) {
                        proof {
                            assert(ids@.contains(ids@[k as int]));
                            assert(g@.live.contains(ids@[k as int]));
                            assert(g@ == self.spec_storage().spec_graggle(self.spec_branches()[branch@].spec_n())->0@);
                        }
                        return Err(Error::DbCorruption);
                    }
                    k = k + 1;
                }
                Ok(File::from_ids(&ids, &self.storage))
            },
        }
    }
}

/// A line of a file, compared by its bytes.
#[derive(Clone, Debug)]
pub struct Line {
    /// The bytes of the line, with its newline if it has one.
    pub bytes: Vec<u8>,
}

impl View for Line {
    type V = Seq<u8>;

    open spec fn view(&self) -> Seq<u8> {
        self.bytes@
    }
}

impl PartialEq for Line {
    fn eq(&self, other: &Line) -> (r: bool) {
        if self.bytes.len() != other.bytes.len() {
            return false;
        }
        let mut i: usize = 0;
        while i < self.bytes.len()
            invariant
                self.bytes@.len() == other.bytes@.len(),
                i <= self.bytes@.len(),
                forall|k: int| 0 <= k < i ==> self.bytes@[k] == other.bytes@[k],
            decreases self.bytes@.len() - i,
        {
            if self.bytes[i] != other.bytes[i] {
                return false;
            }
            i = i + 1;
        }
        proof {
            assert(self.bytes@ =~= other.bytes@);
        }
        true
    }
}

impl PartialEqSpecImpl for Line {
    open spec fn obeys_eq_spec() -> bool {
        true
    }

    open spec fn eq_spec(&self, other: &Line) -> bool {
        self.bytes@ == other.bytes@
    }
}

/// Lines are equal exactly when their bytes are.
pub proof fn lemma_line_obeys_view_eq()
    ensures
        obeys_view_eq::<Line>(),
{
    reveal(obeys_view_eq);
}

/// The contents of the nodes of a file, in order.
pub open spec fn file_lines(f: File) -> Seq<Seq<u8>> {
    Seq::new(f.spec_num_nodes(), |i: int| f.spec_node(i))
}

/// The lines of a file.
fn lines_of(f: &File) -> (r: Vec<Line>)
    requires
        f.wf(),
    ensures
        crate::diff::views(r@) == file_lines(*f),
{
    let mut r: Vec<Line> = Vec::new();
    let mut i: usize = 0;
    while i < f.num_nodes()
        invariant
            f.wf(),
            i <= f.spec_num_nodes(),
            r@.len() == i,
            forall|k: int| 0 <= k < i ==> (#[trigger] r@[k])@ == f.spec_node(k),
        decreases f.spec_num_nodes() - i,
    {
        let bytes = crate::file::copy_bytes(f.node(i));
        r.push(Line { bytes });
        i = i + 1;
    }
    proof {
        assert(crate::diff::views(r@) =~= file_lines(*f));
    }
    r
}

/// The difference between two [`File`]s.
#[derive(Clone, Debug)]
pub struct Diff {
    /// The first file.
    pub file_a: File,
    /// The second file.
    pub file_b: File,
    /// The diff going from `file_a` to `file_b`.
    pub diff: Vec<LineDiff>,
}

impl Repo {
    /// If the branch `branch` is a totally ordered file (see [`Repo::file`]), the difference
    /// between it and the file with the contents `file`.
    pub fn diff(&self, branch: &str, file: &[u8]) -> (r: Result<Diff, Error>)
        requires
            self.wf(),
        ensures
            match r {
                Ok(d) => {
                    let g = self.spec_storage().spec_graggle(self.spec_branches()[branch@].spec_n())->0@;
                    &&& self.spec_branches().contains_key(branch@)
                    &&& d.file_a.wf()
                    &&& is_file_order(g, d.file_a.spec_ids())
                    &&& forall|i: int| 0 <= i < d.file_a.spec_num_nodes() ==> #[trigger] d.file_a.spec_node(i)
                        == self.spec_storage().spec_contents()[d.file_a.spec_ids()[i]]
                    &&& d.file_b.wf()
                    &&& d.file_b.spec_contents() == file@
                    &&& d.file_b.spec_boundaries() == crate::file::line_boundaries(file@)
                    &&& forall|i: int| 0 <= i < d.file_b.spec_num_nodes() ==> (#[trigger] d.file_b.spec_ids()[i]).patch.spec_is_cur()
                        && d.file_b.spec_ids()[i].node == i
                    &&& is_valid_diff(file_lines(d.file_a), file_lines(d.file_b), d.diff@)
                    &&& is_patience_diff(file_lines(d.file_a), file_lines(d.file_b), d.diff@)
                    &&& diff_fits(d.file_a, d.file_b, d.diff@)
                },
                Err(e) => if self.spec_branches().contains_key(branch@) {
                    let g = self.spec_storage().spec_graggle(self.spec_branches()[branch@].spec_n())->0@;
                    ||| e is NotOrdered && forall|ids: Seq<NodeId>| !is_file_order(g, ids)
                    ||| e is DbCorruption && exists|n: NodeId| g.live.contains(n) && !self.spec_storage().spec_contents().contains_key(n)
                } else {
                    e is UnknownBranch && e->UnknownBranch_0@ == branch@
                },
            },
    {
        let file_a = match self.file(branch) {
            Ok(f) => f,
            Err(e) => {
                return Err(e);
            },
        };
        let lines_a = lines_of(&file_a);
        let file_b = File::from_bytes(file);
        let lines_b = lines_of(&file_b);
        proof {
            lemma_line_obeys_view_eq();
        }
        let d = diff(lines_a.as_slice(), lines_b.as_slice());
        proof {
            lemma_valid_diff_in_range(file_lines(file_a), file_lines(file_b), d@);
        }
        Ok(Diff { file_a, file_b, diff: d })
    }
}

impl Repo {
    /// Records the patch `patch`, whose data is `data`, as a patch that was checked when it
    /// was first registered (for example, when reading a repository back from its files): its
    /// dependencies are recorded and its data stored, unless the patch is known already.
    pub fn load_patch(&mut self, patch: Patch, data: String)
        requires
            old(self).wf(),
        ensures
            final(self).wf(),
            final(self).spec_current() == old(self).spec_current(),
            final(self).spec_branches() == old(self).spec_branches(),
            final(self).spec_branch_patches() == old(self).spec_branch_patches(),
            final(self).spec_storage() == old(self).spec_storage(),
            if old(self).spec_patches().contains_key(patch.spec_id()) {
                &&& final(self).spec_patches() == old(self).spec_patches()
                &&& final(self).spec_patch_changes() == old(self).spec_patch_changes()
                &&& final(self).spec_stored_patches() == old(self).spec_stored_patches()
                &&& final(self).spec_deps() == old(self).spec_deps()
            } else {
                &&& final(self).spec_patches() == old(self).spec_patches().insert(patch.spec_id(), data@)
                &&& final(self).spec_patch_changes() == old(self).spec_patch_changes().insert(patch.spec_id(), patch.spec_changes())
                &&& final(self).spec_stored_patches() == old(self).spec_stored_patches().insert(patch.spec_id(), patch)
                &&& final(self).spec_deps() == old(self).spec_deps().union(new_deps(patch.spec_id(), patch.spec_deps()))
            },
    {
        let id = *patch.id();
        if find_patch(&self.patches, &id).is_some() {
            return;
        }
        let deps = patch.deps();
        let mut k: usize = 0;
        while k < deps.len()
            invariant
                self.storage == old(self).storage,
                self.branches@ == old(self).branches@,
                self.branch_patches@ == old(self).branch_patches@,
                self.patches@ == old(self).patches@,
                self.current_branch@ == old(self).current_branch@,
                deps@ == patch.spec_deps(),
                id == patch.spec_id(),
                k <= deps@.len(),
                self.patch_deps@.no_duplicates(),
                self.patch_rev_deps@.no_duplicates(),
                self.spec_deps() == old(self).spec_deps().union(new_deps(id, deps@.take(k as int))),
                forall|a: PatchId, b: PatchId| #[trigger] self.spec_deps().contains((a, b)) <==> #[trigger] self.spec_rev_deps().contains((b, a)),
            decreases deps@.len() - k,
        {
            let d = deps[k];
            let ghost d0 = self.spec_deps();
            let ghost r0 = self.spec_rev_deps();
            add_pair(&mut self.patch_deps, id, d);
            add_pair(&mut self.patch_rev_deps, d, id);
            proof {
                assert(self.spec_deps() == d0.insert((id, d)));
                assert(deps@.take(k + 1) =~= deps@.take(k as int).push(d));
                assert(self.spec_deps() =~= old(self).spec_deps().union(new_deps(id, deps@.take(k + 1)))) by {
                    assert forall|t: (PatchId, PatchId)| self.spec_deps().contains(t) <==>
                        old(self).spec_deps().union(new_deps(id, deps@.take(k + 1))).contains(t) by {
                        let t1 = deps@.take(k + 1);
                        let t0 = deps@.take(k as int);
                        if t1.contains(t.1) {
                            let m = choose|m: int| 0 <= m < t1.len() && t1[m] == t.1;
                            if m < k {
                                assert(t0[m] == t.1);
                            }
                        }
                        if t0.contains(t.1) {
                            let m = choose|m: int| 0 <= m < t0.len() && t0[m] == t.1;
                            assert(t1[m] == t.1);
                        }
                        assert(t1[k as int] == d);
                    }
                }
                assert forall|a: PatchId, b: PatchId| #[trigger] self.spec_deps().contains((a, b)) <==> #[trigger] self.spec_rev_deps().contains((b, a)) by {
                    assert(d0.contains((a, b)) <==> r0.contains((b, a)));
                }
            }
            k = k + 1;
        }
        proof {
            assert(deps@.take(deps@.len() as int) =~= deps@);
        }
        let ghost pold = self.patches@;
        let ghost dv = self.spec_deps();
        let ghost rv = self.spec_rev_deps();
        let ghost e = (id, data, patch);
        proof {
            lemma_patch_map_push(pold, e);
        }
        self.patches.push((id, data, patch));
        proof {
            assert(self.spec_deps() =~= dv);
            assert(self.spec_rev_deps() =~= rv);
            assert(self.patches@ == pold.push(e));
            assert forall|i: int| 0 <= i < self.patches@.len() implies (#[trigger] self.patches@[i]).2.spec_id() == self.patches@[i].0 by {
                if i < pold.len() {
                    assert(self.patches@[i] == old(self).patches@[i]);
                }
            }
            assert(self.spec_branches() =~= old(self).spec_branches());
            assert(self.spec_branch_patches() =~= old(self).spec_branch_patches());
            assert forall|i: int| 0 <= i < self.branches@.len() implies (#[trigger] self.storage.spec_graggle(self.branches@[i].1.spec_n())) is Some by {
                assert(old(self).storage.spec_graggle(old(self).branches@[i].1.spec_n()) is Some);
            }
            assert forall|t: (Seq<char>, PatchId)| #[trigger] self.spec_branch_patches().contains(t) implies self.spec_branches().contains_key(t.0) by {
                assert(old(self).spec_branches().contains_key(t.0));
            }
        }
    }
}

proof fn lemma_apply_seq_step(s: Skeleton, c: Map<NodeId, Seq<u8>>, o: Seq<PatchId>, k: int, ch: Map<PatchId, Seq<ChangeView>>)
    requires
        0 <= k < o.len(),
    ensures
        apply_seq(s, c, o.subrange(k, o.len() as int), ch) == if applicable(s, ch[o[k]], o[k]) && contents_fit(c, ch[o[k]]) {
            apply_seq(apply_all(s, ch[o[k]], o[k]), contents_after(c, ch[o[k]]), o.subrange(k + 1, o.len() as int), ch)
        } else {
            (false, s, c)
        },
        unapply_seq(s, c, o.subrange(k, o.len() as int), ch) == if unapplicable(s, ch[o[k]], o[k]) {
            unapply_seq(unapply_all(s, ch[o[k]], o[k]), contents_without(c, ch[o[k]]), o.subrange(k + 1, o.len() as int), ch)
        } else {
            (false, s, c)
        },
        applied_count(s, c, o.subrange(k, o.len() as int), ch) == if applicable(s, ch[o[k]], o[k]) && contents_fit(c, ch[o[k]]) {
            1 + applied_count(apply_all(s, ch[o[k]], o[k]), contents_after(c, ch[o[k]]), o.subrange(k + 1, o.len() as int), ch)
        } else {
            0
        },
        unapplied_count(s, c, o.subrange(k, o.len() as int), ch) == if unapplicable(s, ch[o[k]], o[k]) {
            1 + unapplied_count(unapply_all(s, ch[o[k]], o[k]), contents_without(c, ch[o[k]]), o.subrange(k + 1, o.len() as int), ch)
        } else {
            0
        },
{
    assert(o.subrange(k, o.len() as int).drop_first() =~= o.subrange(k + 1, o.len() as int));
    assert(o.subrange(k, o.len() as int)[0] == o[k]);
}

impl Repo {
    /// Taking all the known patches out of `pre` gives `post`.
    proof fn lemma_patches_out(pre: Repo, post: Repo)
        requires
            pre.wf(),
            post.patches@.len() == 0,
            post.current_branch == pre.current_branch,
            post.storage == pre.storage,
            post.branches == pre.branches,
            post.branch_patches == pre.branch_patches,
            post.patch_deps == pre.patch_deps,
            post.patch_rev_deps == pre.patch_rev_deps,
        ensures
            post.wf(),
            post.spec_current() == pre.spec_current(),
            post.spec_storage() == pre.spec_storage(),
            post.spec_branches() == pre.spec_branches(),
            post.spec_branch_patches() == pre.spec_branch_patches(),
            post.spec_deps() == pre.spec_deps(),
    {
        assert(post.spec_branch_patches() == pre.spec_branch_patches());
        assert(post.spec_branches() == pre.spec_branches());
        assert(post.spec_deps() == pre.spec_deps());
        assert(post.spec_rev_deps() == pre.spec_rev_deps());
    }

    /// Putting the known patches of `orig` back into `pre`, which holds none, gives `post`.
    proof fn lemma_patches_back(pre: Repo, post: Repo, orig: Repo)
        requires
            pre.wf(),
            orig.wf(),
            post.patches@ == orig.patches@,
            post.current_branch == pre.current_branch,
            post.storage == pre.storage,
            post.branches == pre.branches,
            post.branch_patches == pre.branch_patches,
            post.patch_deps == pre.patch_deps,
            post.patch_rev_deps == pre.patch_rev_deps,
        ensures
            post.wf(),
            post.spec_current() == pre.spec_current(),
            post.spec_storage() == pre.spec_storage(),
            post.spec_branches() == pre.spec_branches(),
            post.spec_branch_patches() == pre.spec_branch_patches(),
            post.spec_deps() == pre.spec_deps(),
            post.spec_patches() == orig.spec_patches(),
            post.spec_patch_changes() == orig.spec_patch_changes(),
    {
        assert(post.spec_branch_patches() == pre.spec_branch_patches());
        assert(post.spec_branches() == pre.spec_branches());
        assert(post.spec_deps() == pre.spec_deps());
        assert(post.spec_rev_deps() == pre.spec_rev_deps());
    }

    /// The position in the list of known patches of each patch of `order`, or a patch of
    /// `order` that is not known.
    fn locate_patches(&self, order: &Vec<PatchId>) -> (r: Result<Vec<usize>, PatchId>)
        requires
            self.wf(),
        ensures
            match r {
                Ok(idx) => idx@.len() == order@.len() && forall|j: int| 0 <= j < order@.len() ==>
                    (#[trigger] idx@[j]) < self.patches@.len() && self.patches@[idx@[j] as int].0 == order@[j],
                Err(q) => order@.contains(q) && !self.spec_patches().contains_key(q),
            },
    {
        let mut idx: Vec<usize> = Vec::new();
        let mut k: usize = 0;
        while k < order.len()
            invariant
                k <= order@.len(),
                idx@.len() == k,
                forall|j: int| 0 <= j < k ==> (#[trigger] idx@[j]) < self.patches@.len() && self.patches@[idx@[j] as int].0 == order@[j],
            decreases order@.len() - k,
        {
            match find_patch(&self.patches, &order[k]) {
                Some(i) => {
                    idx.push(i);
                },
                None => {
                    proof {
                        assert(order@[k as int] == order@[k as int]);
                    }
                    return Err(order[k]);
                },
            }
            k = k + 1;
        }
        Ok(idx)
    }

    /// Applies the patch `patch` to the branch `branch`, together with every patch that it
    /// needs and the branch does not hold, each after the patches that it depends on, and then
    /// brings the pseudo-edges of the branch up to date. Returns the patches applied, in order:
    /// none if the branch holds `patch` already. A needed patch that is not known, a cycle of
    /// dependencies, or a patch that cannot be applied where it comes, is an error; in the last
    /// case the patches before it stay applied.
    pub fn apply_patch(&mut self, branch: &str, patch: &PatchId) -> (r: Result<Vec<PatchId>, Error>)
        requires
            old(self).wf(),
        ensures
            final(self).wf(),
            final(self).spec_current() == old(self).spec_current(),
            final(self).spec_branches() == old(self).spec_branches(),
            final(self).spec_patches() == old(self).spec_patches(),
            final(self).spec_patch_changes() == old(self).spec_patch_changes(),
            final(self).spec_stored_patches() == old(self).spec_stored_patches(),
            final(self).spec_deps() == old(self).spec_deps(),
            if !old(self).spec_branches().contains_key(branch@) {
                &&& r is Err && r->Err_0 is UnknownBranch && r->Err_0->UnknownBranch_0@ == branch@
                &&& final(self).spec_storage() == old(self).spec_storage()
                &&& final(self).spec_branch_patches() == old(self).spec_branch_patches()
            } else if old(self).spec_branch_patches().contains((branch@, *patch)) {
                &&& r is Ok && r->Ok_0@.len() == 0
                &&& final(self).spec_storage() == old(self).spec_storage()
                &&& final(self).spec_branch_patches() == old(self).spec_branch_patches()
            } else {
                let n = old(self).spec_branches()[branch@].spec_n();
                let s0 = old(self).spec_storage().spec_graggle(n)->0@.skeleton();
                let c0 = old(self).spec_storage().spec_contents();
                let ch = old(self).spec_patch_changes();
                &&& forall|k: nat| k != n ==> #[trigger] final(self).spec_storage().spec_graggle(k) == old(self).spec_storage().spec_graggle(k)
                &&& match r {
                    Ok(v) => {
                        let after = apply_seq(s0, c0, v@, ch);
                        &&& old(self).is_dep_order(branch@, false, *patch, v@)
                        &&& after.0
                        &&& final(self).spec_storage().spec_graggle(n) is Some
                        &&& !final(self).spec_storage().spec_graggle(n)->0.is_dirty()
                        &&& final(self).spec_storage().spec_graggle(n)->0@.skeleton() == after.1
                        &&& final(self).spec_storage().spec_contents() == after.2
                        &&& forall|t: (Seq<char>, PatchId)| #[trigger] final(self).spec_branch_patches().contains(t)
                            <==> old(self).spec_branch_patches().contains(t) || (t.0 == branch@ && v@.contains(t.1))
                    },
                    Err(e) => {
                        &&& match e {
                            Error::UnknownPatch(q) => {
                                &&& old(self).needs(branch@, false, *patch, q)
                                &&& !old(self).spec_patches().contains_key(q)
                                &&& final(self).spec_storage() == old(self).spec_storage()
                            },
                            Error::DbCorruption => {
                                ||| old(self).has_dep_cycle(branch@, false, *patch)
                                    && final(self).spec_storage() == old(self).spec_storage()
                                    && final(self).spec_branch_patches() == old(self).spec_branch_patches()
                                ||| exists|o: Seq<PatchId>| #[trigger] old(self).is_dep_order(branch@, false, *patch, o)
                                    && (forall|q: PatchId| #[trigger] o.contains(q) ==> old(self).spec_patches().contains_key(q))
                                    && !apply_seq(s0, c0, o, ch).0
                                    && final(self).spec_storage().spec_graggle(n) is Some
                                    && final(self).spec_storage().spec_graggle(n)->0@.skeleton() == apply_seq(s0, c0, o, ch).1
                                    && final(self).spec_storage().spec_contents() == apply_seq(s0, c0, o, ch).2
                                    && forall|t: (Seq<char>, PatchId)| #[trigger] final(self).spec_branch_patches().contains(t)
                                        <==> old(self).spec_branch_patches().contains(t)
                                        || (t.0 == branch@ && o.take(applied_count(s0, c0, o, ch) as int).contains(t.1))
                            },
                            _ => false,
                        }
                        &&& forall|t: (Seq<char>, PatchId)| #[trigger] old(self).spec_branch_patches().contains(t)
                            ==> final(self).spec_branch_patches().contains(t)
                        &&& forall|t: (Seq<char>, PatchId)| #[trigger] final(self).spec_branch_patches().contains(t)
                            ==> old(self).spec_branch_patches().contains(t) || (t.0 == branch@ && old(self).needs(branch@, false, *patch, t.1))
                    },
                }
            },
    {
        let name = branch.to_owned();
        let inode = match self.find_inode(&name) {
            Some(i) => i,
            None => {
                return Err(Error::UnknownBranch(name));
            },
        };
        if self.has_patch(branch, patch) {
            return Ok(Vec::new());
        }
        let order = match self.dep_order(&name, false, patch) {
            Some(o) => o,
            None => {
                return Err(Error::DbCorruption);
            },
        };
        let idx = match self.locate_patches(&order) {
            Ok(idx) => idx,
            Err(q) => {
                return Err(Error::UnknownPatch(q));
            },
        };
        let ghost n = inode.spec_n();
        let ghost s0 = self.storage.spec_graggle(n)->0@.skeleton();
        let ghost c0 = self.storage.spec_contents();
        let ghost ch = self.spec_patch_changes();
        proof {
            assert(order@.subrange(0, order@.len() as int) =~= order@);
            assert(self.spec_branch_patches() == old(self).spec_branch_patches());
        }
        let mut stored: Vec<(PatchId, String, Patch)> = Vec::new();
        std::mem::swap(&mut stored, &mut self.patches);
        proof {
            Repo::lemma_patches_out(*old(self), *self);
        }
        let mut k: usize = 0;
        while k < order.len()
            invariant
                old(self).wf(),
                self.wf(),
                stored@ == old(self).patches@,
                self.spec_current() == old(self).spec_current(),
                self.spec_branches() == old(self).spec_branches(),
                self.spec_deps() == old(self).spec_deps(),
                old(self).spec_branches().contains_key(branch@),
                old(self).spec_branches()[branch@] == inode,
                n == inode.spec_n(),
                s0 == old(self).storage.spec_graggle(n)->0@.skeleton(),
                c0 == old(self).storage.spec_contents(),
                ch == old(self).spec_patch_changes(),
                !old(self).spec_branch_patches().contains((branch@, *patch)),
                old(self).is_dep_order(branch@, false, *patch, order@),
                k <= order@.len(),
                idx@.len() == order@.len(),
                forall|j: int| 0 <= j < order@.len() ==> (#[trigger] idx@[j]) < stored@.len() && stored@[idx@[j] as int].0 == order@[j],
                self.storage.spec_graggle(n) is Some,
                apply_seq(s0, c0, order@, ch) == apply_seq(self.storage.spec_graggle(n)->0@.skeleton(), self.storage.spec_contents(),
                    order@.subrange(k as int, order@.len() as int), ch),
                applied_count(s0, c0, order@, ch) == k + applied_count(self.storage.spec_graggle(n)->0@.skeleton(), self.storage.spec_contents(),
                    order@.subrange(k as int, order@.len() as int), ch),
                forall|kk: nat| kk != n ==> #[trigger] self.storage.spec_graggle(kk) == old(self).storage.spec_graggle(kk),
                forall|t: (Seq<char>, PatchId)| #[trigger] self.spec_branch_patches().contains(t)
                    <==> old(self).spec_branch_patches().contains(t) || (t.0 == branch@ && order@.take(k as int).contains(t.1)),
            decreases order@.len() - k,
        {
            let i = idx[k];
            proof {
                old(self).lemma_patch_at(i as int);
                lemma_apply_seq_step(self.storage.spec_graggle(n)->0@.skeleton(), self.storage.spec_contents(), order@, k as int, ch);
            }
            let ghost bp0 = self.spec_branch_patches();
            match self.apply_one_patch(branch, &stored[i].2) {
                Ok(()) => {
                    proof {
                        assert(stored@[i as int].2.spec_id() == order@[k as int]);
                        assert(self.spec_branch_patches() == bp0.insert((branch@, order@[k as int])));
                    }
                },
                Err(e) => {
                    let ghost pre = *self;
                    std::mem::swap(&mut stored, &mut self.patches);
                    proof {
                        Repo::lemma_patches_back(pre, *self, *old(self));
                        assert(!apply_seq(s0, c0, order@, ch).0);
                        assert forall|q: PatchId| #[trigger] order@.contains(q) implies old(self).spec_patches().contains_key(q) by {
                            let j = choose|j: int| 0 <= j < order@.len() && order@[j] == q;
                            old(self).lemma_patch_at(idx@[j] as int);
                        }
                        assert(s0 == old(self).spec_storage().spec_graggle(old(self).spec_branches()[branch@].spec_n())->0@.skeleton());
                        assert(applied_count(s0, c0, order@, ch) == k);
                        assert(old(self).is_dep_order(branch@, false, *patch, order@)
                            && (forall|q: PatchId| #[trigger] order@.contains(q) ==> old(self).spec_patches().contains_key(q))
                            && !apply_seq(s0, c0, order@, ch).0
                            && self.spec_storage().spec_graggle(n) is Some
                            && self.spec_storage().spec_graggle(n)->0@.skeleton() == apply_seq(s0, c0, order@, ch).1
                            && self.spec_storage().spec_contents() == apply_seq(s0, c0, order@, ch).2
                            && forall|t: (Seq<char>, PatchId)| #[trigger] self.spec_branch_patches().contains(t)
                                <==> old(self).spec_branch_patches().contains(t)
                                || (t.0 == branch@ && order@.take(applied_count(s0, c0, order@, ch) as int).contains(t.1)));
                        assert forall|t: (Seq<char>, PatchId)| #[trigger] self.spec_branch_patches().contains(t)
                            implies old(self).spec_branch_patches().contains(t) || (t.0 == branch@ && old(self).needs(branch@, false, *patch, t.1)) by {
                            if !old(self).spec_branch_patches().contains(t) {
                                let t0 = order@.take(k as int);
                                assert(t0.contains(t.1));
                                let j = choose|j: int| 0 <= j < t0.len() && t0[j] == t.1;
                                assert(order@[j] == t.1);
                                assert(order@.contains(t.1));
                            }
                        }
                    }
                    return Err(e);
                },
            }
            proof {
                assert(order@.take(k + 1) =~= order@.take(k as int).push(order@[k as int]));
                assert forall|t: (Seq<char>, PatchId)| #[trigger] self.spec_branch_patches().contains(t)
                    <==> old(self).spec_branch_patches().contains(t) || (t.0 == branch@ && order@.take(k + 1).contains(t.1)) by {
                    assert(bp0.contains(t) <==> old(self).spec_branch_patches().contains(t) || (t.0 == branch@ && order@.take(k as int).contains(t.1)));
                    let t0 = order@.take(k as int);
                    let t1 = order@.take(k + 1);
                    assert(t1[k as int] == order@[k as int]);
                    if t0.contains(t.1) {
                        let j = choose|j: int| 0 <= j < t0.len() && t0[j] == t.1;
                        assert(t1[j] == t.1);
                    }
                    if t1.contains(t.1) {
                        let j = choose|j: int| 0 <= j < t1.len() && t1[j] == t.1;
                        if j < k {
                            assert(t0[j] == t.1);
                        }
                    }
                }
            }
            k = k + 1;
        }
        let ghost pre = *self;
        std::mem::swap(&mut stored, &mut self.patches);
        proof {
            Repo::lemma_patches_back(pre, *self, *old(self));
            assert(order@.subrange(order@.len() as int, order@.len() as int) =~= Seq::<PatchId>::empty());
            assert(order@.take(order@.len() as int) =~= order@);
            assert(self.spec_branches() == old(self).spec_branches());
        }
        let _ = self.update_cache(branch);
        Ok(order)
    }

    /// Unapplies the patch `patch` from the branch `branch`, together with every patch held by
    /// the branch that depends on it, each after the patches that depend on it, and then brings
    /// the pseudo-edges of the branch up to date. Returns the patches unapplied, in order: none
    /// if the branch does not hold `patch`. A needed patch that is not known, a cycle of
    /// dependencies, or a patch that cannot be unapplied where it comes, is an error; in the
    /// last case the patches before it stay unapplied.
    pub fn unapply_patch(&mut self, branch: &str, patch: &PatchId) -> (r: Result<Vec<PatchId>, Error>)
        requires
            old(self).wf(),
        ensures
            final(self).wf(),
            final(self).spec_current() == old(self).spec_current(),
            final(self).spec_branches() == old(self).spec_branches(),
            final(self).spec_patches() == old(self).spec_patches(),
            final(self).spec_patch_changes() == old(self).spec_patch_changes(),
            final(self).spec_stored_patches() == old(self).spec_stored_patches(),
            final(self).spec_deps() == old(self).spec_deps(),
            if !old(self).spec_branches().contains_key(branch@) {
                &&& r is Err && r->Err_0 is UnknownBranch && r->Err_0->UnknownBranch_0@ == branch@
                &&& final(self).spec_storage() == old(self).spec_storage()
                &&& final(self).spec_branch_patches() == old(self).spec_branch_patches()
            } else if !old(self).spec_branch_patches().contains((branch@, *patch)) {
                &&& r is Ok && r->Ok_0@.len() == 0
                &&& final(self).spec_storage() == old(self).spec_storage()
                &&& final(self).spec_branch_patches() == old(self).spec_branch_patches()
            } else {
                let n = old(self).spec_branches()[branch@].spec_n();
                let s0 = old(self).spec_storage().spec_graggle(n)->0@.skeleton();
                let c0 = old(self).spec_storage().spec_contents();
                let ch = old(self).spec_patch_changes();
                &&& forall|k: nat| k != n ==> #[trigger] final(self).spec_storage().spec_graggle(k) == old(self).spec_storage().spec_graggle(k)
                &&& match r {
                    Ok(v) => {
                        let after = unapply_seq(s0, c0, v@, ch);
                        &&& old(self).is_dep_order(branch@, true, *patch, v@)
                        &&& after.0
                        &&& final(self).spec_storage().spec_graggle(n) is Some
                        &&& !final(self).spec_storage().spec_graggle(n)->0.is_dirty()
                        &&& final(self).spec_storage().spec_graggle(n)->0@.skeleton() == after.1
                        &&& final(self).spec_storage().spec_contents() == after.2
                        &&& forall|t: (Seq<char>, PatchId)| #[trigger] final(self).spec_branch_patches().contains(t)
                            <==> old(self).spec_branch_patches().contains(t) && !(t.0 == branch@ && v@.contains(t.1))
                    },
                    Err(e) => {
                        &&& match e {
                            Error::UnknownPatch(q) => {
                                &&& old(self).needs(branch@, true, *patch, q)
                                &&& !old(self).spec_patches().contains_key(q)
                                &&& final(self).spec_storage() == old(self).spec_storage()
                            },
                            Error::DbCorruption => {
                                ||| old(self).has_dep_cycle(branch@, true, *patch)
                                    && final(self).spec_storage() == old(self).spec_storage()
                                    && final(self).spec_branch_patches() == old(self).spec_branch_patches()
                                ||| exists|o: Seq<PatchId>| #[trigger] old(self).is_dep_order(branch@, true, *patch, o)
                                    && (forall|q: PatchId| #[trigger] o.contains(q) ==> old(self).spec_patches().contains_key(q))
                                    && !unapply_seq(s0, c0, o, ch).0
                                    && final(self).spec_storage().spec_graggle(n) is Some
                                    && final(self).spec_storage().spec_graggle(n)->0@.skeleton() == unapply_seq(s0, c0, o, ch).1
                                    && final(self).spec_storage().spec_contents() == unapply_seq(s0, c0, o, ch).2
                                    && forall|t: (Seq<char>, PatchId)| #[trigger] final(self).spec_branch_patches().contains(t)
                                        <==> old(self).spec_branch_patches().contains(t)
                                        && !(t.0 == branch@ && o.take(unapplied_count(s0, c0, o, ch) as int).contains(t.1))
                            },
                            _ => false,
                        }
                        &&& forall|t: (Seq<char>, PatchId)| #[trigger] final(self).spec_branch_patches().contains(t)
                            ==> old(self).spec_branch_patches().contains(t)
                        &&& forall|t: (Seq<char>, PatchId)| #[trigger] old(self).spec_branch_patches().contains(t)
                            ==> final(self).spec_branch_patches().contains(t) || (t.0 == branch@ && old(self).needs(branch@, true, *patch, t.1))
                    },
                }
            },
    {
        let name = branch.to_owned();
        let inode = match self.find_inode(&name) {
            Some(i) => i,
            None => {
                return Err(Error::UnknownBranch(name));
            },
        };
        if !self.has_patch(branch, patch) {
            return Ok(Vec::new());
        }
        let order = match self.dep_order(&name, true, patch) {
            Some(o) => o,
            None => {
                return Err(Error::DbCorruption);
            },
        };
        let idx = match self.locate_patches(&order) {
            Ok(idx) => idx,
            Err(q) => {
                return Err(Error::UnknownPatch(q));
            },
        };
        let ghost n = inode.spec_n();
        let ghost s0 = self.storage.spec_graggle(n)->0@.skeleton();
        let ghost c0 = self.storage.spec_contents();
        let ghost ch = self.spec_patch_changes();
        proof {
            assert(order@.subrange(0, order@.len() as int) =~= order@);
            assert(self.spec_branch_patches() == old(self).spec_branch_patches());
        }
        let mut stored: Vec<(PatchId, String, Patch)> = Vec::new();
        std::mem::swap(&mut stored, &mut self.patches);
        proof {
            Repo::lemma_patches_out(*old(self), *self);
        }
        let mut k: usize = 0;
        while k < order.len()
            invariant
                old(self).wf(),
                self.wf(),
                stored@ == old(self).patches@,
                self.spec_current() == old(self).spec_current(),
                self.spec_branches() == old(self).spec_branches(),
                self.spec_deps() == old(self).spec_deps(),
                old(self).spec_branches().contains_key(branch@),
                old(self).spec_branches()[branch@] == inode,
                n == inode.spec_n(),
                s0 == old(self).storage.spec_graggle(n)->0@.skeleton(),
                c0 == old(self).storage.spec_contents(),
                ch == old(self).spec_patch_changes(),
                old(self).spec_branch_patches().contains((branch@, *patch)),
                old(self).is_dep_order(branch@, true, *patch, order@),
                k <= order@.len(),
                idx@.len() == order@.len(),
                forall|j: int| 0 <= j < order@.len() ==> (#[trigger] idx@[j]) < stored@.len() && stored@[idx@[j] as int].0 == order@[j],
                self.storage.spec_graggle(n) is Some,
                unapply_seq(s0, c0, order@, ch) == unapply_seq(self.storage.spec_graggle(n)->0@.skeleton(), self.storage.spec_contents(),
                    order@.subrange(k as int, order@.len() as int), ch),
                unapplied_count(s0, c0, order@, ch) == k + unapplied_count(self.storage.spec_graggle(n)->0@.skeleton(), self.storage.spec_contents(),
                    order@.subrange(k as int, order@.len() as int), ch),
                forall|kk: nat| kk != n ==> #[trigger] self.storage.spec_graggle(kk) == old(self).storage.spec_graggle(kk),
                forall|t: (Seq<char>, PatchId)| #[trigger] self.spec_branch_patches().contains(t)
                    <==> old(self).spec_branch_patches().contains(t) && !(t.0 == branch@ && order@.take(k as int).contains(t.1)),
            decreases order@.len() - k,
        {
            let i = idx[k];
            proof {
                old(self).lemma_patch_at(i as int);
                lemma_apply_seq_step(self.storage.spec_graggle(n)->0@.skeleton(), self.storage.spec_contents(), order@, k as int, ch);
            }
            let ghost bp0 = self.spec_branch_patches();
            match self.unapply_one_patch(branch, &stored[i].2) {
                Ok(()) => {
                    proof {
                        assert(stored@[i as int].2.spec_id() == order@[k as int]);
                        assert(self.spec_branch_patches() == bp0.remove((branch@, order@[k as int])));
                    }
                },
                Err(e) => {
                    let ghost pre = *self;
                    std::mem::swap(&mut stored, &mut self.patches);
                    proof {
                        Repo::lemma_patches_back(pre, *self, *old(self));
                        assert(!unapply_seq(s0, c0, order@, ch).0);
                        assert forall|q: PatchId| #[trigger] order@.contains(q) implies old(self).spec_patches().contains_key(q) by {
                            let j = choose|j: int| 0 <= j < order@.len() && order@[j] == q;
                            old(self).lemma_patch_at(idx@[j] as int);
                        }
                        assert(s0 == old(self).spec_storage().spec_graggle(old(self).spec_branches()[branch@].spec_n())->0@.skeleton());
                        assert(unapplied_count(s0, c0, order@, ch) == k);
                        assert(old(self).is_dep_order(branch@, true, *patch, order@)
                            && (forall|q: PatchId| #[trigger] order@.contains(q) ==> old(self).spec_patches().contains_key(q))
                            && !unapply_seq(s0, c0, order@, ch).0
                            && self.spec_storage().spec_graggle(n) is Some
                            && self.spec_storage().spec_graggle(n)->0@.skeleton() == unapply_seq(s0, c0, order@, ch).1
                            && self.spec_storage().spec_contents() == unapply_seq(s0, c0, order@, ch).2
                            && forall|t: (Seq<char>, PatchId)| #[trigger] self.spec_branch_patches().contains(t)
                                <==> old(self).spec_branch_patches().contains(t)
                                && !(t.0 == branch@ && order@.take(unapplied_count(s0, c0, order@, ch) as int).contains(t.1)));
                        assert forall|t: (Seq<char>, PatchId)| #[trigger] old(self).spec_branch_patches().contains(t)
                            implies self.spec_branch_patches().contains(t) || (t.0 == branch@ && old(self).needs(branch@, true, *patch, t.1)) by {
                            if !self.spec_branch_patches().contains(t) {
                                let t0 = order@.take(k as int);
                                assert(t0.contains(t.1));
                                let j = choose|j: int| 0 <= j < t0.len() && t0[j] == t.1;
                                assert(order@[j] == t.1);
                                assert(order@.contains(t.1));
                            }
                        }
                    }
                    return Err(e);
                },
            }
            proof {
                assert(order@.take(k + 1) =~= order@.take(k as int).push(order@[k as int]));
                assert forall|t: (Seq<char>, PatchId)| #[trigger] self.spec_branch_patches().contains(t)
                    <==> old(self).spec_branch_patches().contains(t) && !(t.0 == branch@ && order@.take(k + 1).contains(t.1)) by {
                    assert(bp0.contains(t) <==> old(self).spec_branch_patches().contains(t) && !(t.0 == branch@ && order@.take(k as int).contains(t.1)));
                    let t0 = order@.take(k as int);
                    let t1 = order@.take(k + 1);
                    assert(t1[k as int] == order@[k as int]);
                    if t0.contains(t.1) {
                        let j = choose|j: int| 0 <= j < t0.len() && t0[j] == t.1;
                        assert(t1[j] == t.1);
                    }
                    if t1.contains(t.1) {
                        let j = choose|j: int| 0 <= j < t1.len() && t1[j] == t.1;
                        if j < k {
                            assert(t0[j] == t.1);
                        }
                    }
                }
            }
            k = k + 1;
        }
        let ghost pre = *self;
        std::mem::swap(&mut stored, &mut self.patches);
        proof {
            Repo::lemma_patches_back(pre, *self, *old(self));
            assert(order@.subrange(order@.len() as int, order@.len() as int) =~= Seq::<PatchId>::empty());
            assert(order@.take(order@.len() as int) =~= order@);
            assert(self.spec_branches() == old(self).spec_branches());
        }
        let _ = self.update_cache(branch);
        Ok(order)
    }
}

/// Where `k` is not one of the new nodes of `cs`, storing their contents leaves what is stored
/// for `k` as it was.
proof fn lemma_contents_after_outside(c0: Map<NodeId, Seq<u8>>, cs: Seq<ChangeView>, k: NodeId)
    requires
        forall|j: int| 0 <= j < cs.len() ==> #[trigger] new_id(cs[j]) != Some(k),
    ensures
        contents_after(c0, cs).contains_key(k) == c0.contains_key(k),
        c0.contains_key(k) ==> contents_after(c0, cs)[k] == c0[k],
    decreases cs.len(),
{
    if cs.len() > 0 {
        let init = cs.drop_last();
        assert forall|j: int| 0 <= j < init.len() implies #[trigger] new_id(init[j]) != Some(k) by {
            assert(init[j] == cs[j]);
        }
        lemma_contents_after_outside(c0, init, k);
        assert(new_id(cs[cs.len() - 1]) != Some(k));
    }
}

/// Forgetting the contents of the new nodes of `cs` keeps exactly the other lines.
proof fn lemma_contents_without_keeps(m: Map<NodeId, Seq<u8>>, cs: Seq<ChangeView>, k: NodeId)
    ensures
        contents_without(m, cs).contains_key(k) <==> m.contains_key(k) && forall|j: int|
            0 <= j < cs.len() ==> #[trigger] new_id(cs[j]) != Some(k),
        contents_without(m, cs).contains_key(k) ==> contents_without(m, cs)[k] == m[k],
    decreases cs.len(),
{
    if cs.len() > 0 {
        let init = cs.drop_last();
        let last = cs.len() - 1;
        lemma_contents_without_keeps(m, init, k);
        let m2 = contents_without(m, init);
        let r = contents_without(m, cs);
        assert(cs.last() == cs[last]);
        if forall|j: int| 0 <= j < cs.len() ==> #[trigger] new_id(cs[j]) != Some(k) {
            assert forall|j: int| 0 <= j < init.len() implies #[trigger] new_id(init[j]) != Some(k) by {
                assert(init[j] == cs[j]);
            }
            assert(new_id(cs[last]) != Some(k));
            assert(r.contains_key(k) == m2.contains_key(k));
            assert(r.contains_key(k) ==> r[k] == m2[k]);
        } else {
            let j = choose|j: int| 0 <= j < cs.len() && #[trigger] new_id(cs[j]) == Some(k);
            if j < last {
                assert(init[j] == cs[j]);
                assert(new_id(init[j]) == Some(k));
                assert(!m2.contains_key(k));
            } else {
                assert(new_id(cs[last]) == Some(k));
            }
            assert(!r.contains_key(k));
        }
    }
}

/// Reverting a patch right after applying it to a branch gives back the branch's graggle, the
/// stored contents and the record of the patches it holds, as `unapply_one_patch` after
/// `apply_one_patch` leaves them: for a patch that the branch did not hold, whose new nodes and
/// edges were not yet in the graggle, which adds each node once, and none of whose new lines had
/// stored contents. The patch may delete nodes that it adds itself.
pub proof fn lemma_revert_restores(
    s0: Skeleton,
    c0: Map<NodeId, Seq<u8>>,
    held: Set<(Seq<char>, PatchId)>,
    branch: Seq<char>,
    cs: Seq<ChangeView>,
    p: PatchId,
)
    requires
        s0.wf(),
        applicable(s0, cs, p),
        reversible(s0, cs, p),
        forall|j: int| 0 <= j < cs.len() && (#[trigger] new_id(cs[j])) is Some ==> !c0.contains_key(new_id(cs[j])->0),
        !held.contains((branch, p)),
    ensures
        unapplicable(apply_all(s0, cs, p), cs, p),
        unapply_all(apply_all(s0, cs, p), cs, p) == s0,
        contents_without(contents_after(c0, cs), cs) == c0,
        held.insert((branch, p)).remove((branch, p)) == held,
{
    lemma_unapply_undoes_apply(s0, cs, p);
    let c1 = contents_after(c0, cs);
    let c2 = contents_without(c1, cs);
    assert forall|k: NodeId| #[trigger] c2.contains_key(k) == c0.contains_key(k) && (c0.contains_key(k) ==> c2[k] == c0[k]) by {
        lemma_contents_without_keeps(c1, cs, k);
        if forall|j: int| 0 <= j < cs.len() ==> #[trigger] new_id(cs[j]) != Some(k) {
            lemma_contents_after_outside(c0, cs, k);
        } else {
            let j = choose|j: int| 0 <= j < cs.len() && #[trigger] new_id(cs[j]) == Some(k);
            assert(!c0.contains_key(k));
        }
    }
    assert(c2 =~= c0);
    assert(held.insert((branch, p)).remove((branch, p)) =~= held);
}

} // verus!
