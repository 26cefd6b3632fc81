//! The storage of a repository: the contents of the lines, and the graggles of the branches.

use vstd::prelude::*;

use crate::apply::{applicable, apply_all, apply_changes, new_id, unapplicable, unapply_all, unapply_changes};
use crate::change::{Change, ChangeView, Changes};
use crate::graggle::{empty_graggle, Graggle, GraggleData, GraggleView};
use crate::ids::{NodeId, PatchId};

verus! {

/// A unique identifier for a graggle in a repository. There is one graggle per branch, but
/// branches may be renamed while an `INode` never changes.
#[derive(Clone, Copy, Debug, PartialEq, Eq, Structural, Hash, PartialOrd, Ord)]
pub struct INode {
    n: u64,
}

impl INode {
    /// The number of this `INode`: `INode`s are handed out in increasing order from zero.
    pub closed spec fn spec_n(&self) -> nat {
        self.n as nat
    }

    /// An `INode` is its number.
    pub proof fn lemma_n_injective(a: INode, b: INode)
        ensures
            a.spec_n() == b.spec_n() ==> a == b,
    {
    }
}

/// The lines' contents and the graggles of a repository.
#[derive(Debug)]
pub struct Storage {
    // The contents of each line, each line once.
    contents: Vec<(NodeId, Vec<u8>)>,
    // The graggle of each `INode`, by number; `None` once it was removed. The next `INode` to
    // hand out is the length.
    graggles: Vec<Option<GraggleData>>,
}

fn bytes_eq(a: &Vec<u8>, b: &Vec<u8>) -> (r: bool)
    ensures
        r == (a@ == b@),
{
    if a.len() != b.len() {
        return false;
    }
    let mut i: usize = 0;
    while i < a.len()
        invariant
            a@.len() == b@.len(),
            i <= a.len(),
            forall|k: int| 0 <= k < i ==> a@[k] == b@[k],
        decreases a.len() - i,
    {
        if a[i] != b[i] {
            return false;
        }
        i = i + 1;
    }
    assert(a@ =~= b@);
    true
}

fn copy_bytes(v: &Vec<u8>) -> (r: Vec<u8>)
    ensures
        r@ == v@,
{
    let mut r: Vec<u8> = Vec::new();
    let mut i: usize = 0;
    while i < v.len()
        invariant
            i <= v.len(),
            r@ == v@.take(i as int),
        decreases v.len() - i,
    {
        r.push(v[i]);
        i = i + 1;
        assert(r@ =~= v@.take(i as int));
    }
    assert(v@.take(v.len() as int) =~= v@);
    r
}

proof fn lemma_remove_insert<A>(s: Seq<A>, i: int, x: A)
    requires
        0 <= i < s.len(),
    ensures
        s.remove(i).insert(i, x) == s.update(i, x),
{
    s.remove_ensures(i);
    s.remove(i).insert_ensures(i, x);
    assert forall|j: int| 0 <= j < s.len() implies s.remove(i).insert(i, x)[j] == s.update(i, x)[j] by {
        if j > i {
            assert(s.remove(i).insert(i, x)[(j - 1) + 1] == s.remove(i)[j - 1]);
        }
    }
    assert(s.remove(i).insert(i, x) =~= s.update(i, x));
}

/// The contents of the lines after storing those of the new nodes of `cs`, one after the other.
pub open spec fn contents_after(m: Map<NodeId, Seq<u8>>, cs: Seq<ChangeView>) -> Map<NodeId, Seq<u8>>
    decreases cs.len(),
{
    if cs.len() == 0 {
        m
    } else {
        let m2 = contents_after(m, cs.drop_last());
        match cs.last() {
            ChangeView::NewNode { id, contents } => m2.insert(id, contents),
            _ => m2,
        }
    }
}

/// Storing the contents of the new nodes of `cs` one after the other never changes the
/// contents of a stored line.
pub open spec fn contents_fit(m: Map<NodeId, Seq<u8>>, cs: Seq<ChangeView>) -> bool {
    forall|i: int| 0 <= i < cs.len() ==> match #[trigger] cs[i] {
        ChangeView::NewNode { id, contents } => contents_after(m, cs.take(i)).contains_key(id) ==> contents_after(
            m,
            cs.take(i),
        )[id] == contents,
        _ => true,
    }
}

/// The contents of the lines after forgetting those of the new nodes of `cs`.
pub open spec fn contents_without(m: Map<NodeId, Seq<u8>>, cs: Seq<ChangeView>) -> Map<NodeId, Seq<u8>>
    decreases cs.len(),
{
    if cs.len() == 0 {
        m
    } else {
        let m2 = contents_without(m, cs.drop_last());
        match cs.last() {
            ChangeView::NewNode { id, .. } => m2.remove(id),
            _ => m2,
        }
    }
}

/// Where a new node of `cs` gets its contents: whether its contents are already stored when
/// the change `cs[j]` comes, they are the same.
pub open spec fn fits_at(m: Map<NodeId, Seq<u8>>, cs: Seq<ChangeView>, j: int) -> bool {
    match cs[j] {
        ChangeView::NewNode { id, contents } => contents_after(m, cs.take(j)).contains_key(id) ==> contents_after(
            m,
            cs.take(j),
        )[id] == contents,
        _ => true,
    }
}

/// A change that does not create `id` leaves its contents alone.
proof fn lemma_after_other(m: Map<NodeId, Seq<u8>>, cs: Seq<ChangeView>, k: int, id: NodeId)
    requires
        0 <= k < cs.len(),
        new_id(cs[k]) != Some(id),
    ensures
        contents_after(m, cs.take(k + 1)).contains_key(id) == contents_after(m, cs.take(k)).contains_key(id),
        contents_after(m, cs.take(k + 1))[id] == contents_after(m, cs.take(k))[id],
{
    lemma_take_step(cs, k);
}

/// A change that creates `id` gives it its contents.
proof fn lemma_after_new(m: Map<NodeId, Seq<u8>>, cs: Seq<ChangeView>, k: int, id: NodeId)
    requires
        0 <= k < cs.len(),
        new_id(cs[k]) == Some(id),
    ensures
        contents_after(m, cs.take(k + 1)).contains_key(id),
        contents_after(m, cs.take(k + 1))[id] == cs[k]->NewNode_contents,
{
    lemma_take_step(cs, k);
}

proof fn lemma_take_step<T>(cs: Seq<T>, i: int)
    requires
        0 <= i < cs.len(),
    ensures
        cs.take(i + 1).drop_last() == cs.take(i),
        cs.take(i + 1).last() == cs[i],
        cs.take(i + 1).len() == i + 1,
{
    assert(cs.take(i + 1).drop_last() =~= cs.take(i));
}

impl Storage {
    /// The contents of the lines.
    pub closed spec fn spec_contents(&self) -> Map<NodeId, Seq<u8>> {
        Map::new(
            |id: NodeId| exists|i: int| 0 <= i < self.contents@.len() && #[trigger] self.contents@[i].0 == id,
            |id: NodeId| {
                let i = choose|i: int| 0 <= i < self.contents@.len() && #[trigger] self.contents@[i].0 == id;
                self.contents@[i].1@
            },
        )
    }

    /// The graggle data of the `INode` with the number `k`, if it has one.
    pub closed spec fn spec_graggle(&self, k: nat) -> Option<GraggleData> {
        if k < self.graggles@.len() {
            self.graggles@[k as int]
        } else {
            None
        }
    }

    /// The number of the next `INode` to hand out.
    pub closed spec fn spec_next_inode(&self) -> nat {
        self.graggles@.len()
    }

    /// The number of the next `INode` to hand out.
    pub fn next_inode(&self) -> (r: usize)
        ensures
            r == self.spec_next_inode(),
    {
        self.graggles.len()
    }

    /// Each line is stored once and every graggle is sound.
    pub closed spec fn wf(&self) -> bool {
        &&& forall|i: int, j: int| 0 <= i < j < self.contents@.len() ==> self.contents@[i].0 != self.contents@[j].0
        &&& forall|k: nat| #[trigger] self.spec_graggle(k) is Some ==> self.spec_graggle(k)->0.wf()
    }

    proof fn lemma_contents_at(&self, i: int)
        requires
            self.wf(),
            0 <= i < self.contents@.len(),
        ensures
            self.spec_contents().contains_key(self.contents@[i].0),
            self.spec_contents()[self.contents@[i].0] == self.contents@[i].1@,
    {
        let id = self.contents@[i].0;
        assert(self.spec_contents().contains_key(id));
        let j = choose|j: int| 0 <= j < self.contents@.len() && #[trigger] self.contents@[j].0 == id;
        if j != i {
            if j < i {
                assert(self.contents@[j].0 != self.contents@[i].0);
            } else {
                assert(self.contents@[i].0 != self.contents@[j].0);
            }
        }
    }

    /// Creates an empty storage.
    pub fn new() -> (r: Storage)
        ensures
            r.wf(),
            r.spec_contents() == Map::<NodeId, Seq<u8>>::empty(),
            r.spec_next_inode() == 0,
    {
        let r = Storage { contents: Vec::new(), graggles: Vec::new() };
        proof {
            assert(r.spec_contents() =~= Map::<NodeId, Seq<u8>>::empty());
        }
        r
    }

    /// Allocates a new `INode`, whose graggle is empty.
    pub fn allocate_inode(&mut self) -> (r: INode)
        requires
            old(self).wf(),
            old(self).spec_next_inode() < u64::MAX,
        ensures
            final(self).wf(),
            r.spec_n() == old(self).spec_next_inode(),
            final(self).spec_next_inode() == old(self).spec_next_inode() + 1,
            final(self).spec_graggle(r.spec_n()) is Some,
            final(self).spec_graggle(r.spec_n())->0@ == empty_graggle(),
            final(self).spec_graggle(r.spec_n())->0.wf(),
            forall|k: nat| k != r.spec_n() ==> #[trigger] final(self).spec_graggle(k) == old(self).spec_graggle(k),
            final(self).spec_contents() == old(self).spec_contents(),
    {
        let r = INode { n: self.graggles.len() as u64 };
        self.graggles.push(Some(GraggleData::new()));
        proof {
            assert(self.spec_contents() =~= old(self).spec_contents());
            assert forall|k: nat| #[trigger] self.spec_graggle(k) is Some implies self.spec_graggle(k)->0.wf() by {
                if k != r.n {
                    assert(self.spec_graggle(k) == old(self).spec_graggle(k));
                }
            }
        }
        r
    }

    /// Allocates a new `INode`, whose graggle is a copy of that of `inode`.
    pub fn clone_inode(&mut self, inode: INode) -> (r: INode)
        requires
            old(self).wf(),
            old(self).spec_next_inode() < u64::MAX,
            old(self).spec_graggle(inode.spec_n()) is Some,
        ensures
            final(self).wf(),
            r.spec_n() == old(self).spec_next_inode(),
            final(self).spec_next_inode() == old(self).spec_next_inode() + 1,
            final(self).spec_graggle(r.spec_n()) is Some,
            final(self).spec_graggle(r.spec_n())->0@ == old(self).spec_graggle(inode.spec_n())->0@,
            forall|k: nat| k != r.spec_n() ==> #[trigger] final(self).spec_graggle(k) == old(self).spec_graggle(k),
            final(self).spec_contents() == old(self).spec_contents(),
    {
        let r = INode { n: self.graggles.len() as u64 };
        let copy = match &self.graggles[inode.n as usize] {
            Some(g) => g.duplicate(),
            None => GraggleData::new(),
        };
        self.graggles.push(Some(copy));
        proof {
            assert(self.spec_contents() =~= old(self).spec_contents());
            assert forall|k: nat| #[trigger] self.spec_graggle(k) is Some implies self.spec_graggle(k)->0.wf() by {
                if k != r.n {
                    assert(self.spec_graggle(k) == old(self).spec_graggle(k));
                }
            }
        }
        r
    }

    /// The contents of the line `id`, which must be stored.
    pub fn contents(&self, id: &NodeId) -> (r: &Vec<u8>)
        requires
            self.wf(),
            self.spec_contents().contains_key(*id),
        ensures
            r@ == self.spec_contents()[*id],
    {
        let i = self.find_contents(id);
        match i {
            Some(i) => {
                proof {
                    self.lemma_contents_at(i as int);
                }
                &self.contents[i].1
            },
            None => {
                proof {
                    let j = choose|j: int| 0 <= j < self.contents@.len() && #[trigger] self.contents@[j].0 == *id;
                    assert(self.contents@[j].0 != *id);
                }
                &self.contents[0].1
            },
        }
    }

    fn find_contents(&self, id: &NodeId) -> (r: Option<usize>)
        ensures
            match r {
                Some(i) => i < self.contents@.len() && self.contents@[i as int].0 == *id,
                None => forall|i: int| 0 <= i < self.contents@.len() ==> self.contents@[i].0 != *id,
            },
    {
        let mut i: usize = 0;
        while i < self.contents.len()
            invariant
                i <= self.contents.len(),
                forall|j: int| 0 <= j < i ==> self.contents@[j].0 != *id,
            decreases self.contents.len() - i,
        {
            if self.contents[i].0 == *id {
                return Some(i);
            }
            i = i + 1;
        }
        None
    }

    /// The graggle data of `inode`.
    pub fn graggle_data(&self, inode: INode) -> (r: &GraggleData)
        requires
            self.spec_graggle(inode.spec_n()) is Some,
        ensures
            *r == self.spec_graggle(inode.spec_n())->0,
            self.wf() ==> r.wf(),
    {
        proof {
            assert(inode.n < self.graggles@.len());
        }
        let len = self.graggles.len() as u64;
        assert(inode.n < len);
        let i = inode.n as usize;
        match &self.graggles[i] {
            Some(g) => g,
            None => vstd::pervasive::unreached(),
        }
    }

    /// Only the inodes that were handed out have graggles.
    pub proof fn lemma_graggle_below(&self, k: nat)
        requires
            self.spec_graggle(k) is Some,
        ensures
            k < self.spec_next_inode(),
    {
    }

    /// The ids of the stored lines, in the order in which they are stored.
    pub closed spec fn spec_node_list(&self) -> Seq<NodeId> {
        self.contents@.map_values(|e: (NodeId, Vec<u8>)| e.0)
    }

    /// The ids of all the stored lines.
    pub fn node_ids(&self) -> (r: Vec<NodeId>)
        ensures
            r@ == self.spec_node_list(),
            forall|n: NodeId| #[trigger] r@.contains(n) <==> self.spec_contents().contains_key(n),
    {
        let mut r: Vec<NodeId> = Vec::new();
        let mut i: usize = 0;
        while i < self.contents.len()
            invariant
                i <= self.contents@.len(),
                r@.len() == i,
                forall|j: int| 0 <= j < i ==> #[trigger] r@[j] == self.contents@[j].0,
            decreases self.contents@.len() - i,
        {
            r.push(self.contents[i].0);
            i = i + 1;
        }
        proof {
            assert forall|n: NodeId| #[trigger] r@.contains(n) <==> self.spec_contents().contains_key(n) by {
                if r@.contains(n) {
                    let j = choose|j: int| 0 <= j < r@.len() && r@[j] == n;
                    assert(self.contents@[j].0 == n);
                }
                if self.spec_contents().contains_key(n) {
                    let j = choose|j: int| 0 <= j < self.contents@.len() && #[trigger] self.contents@[j].0 == n;
                    assert(r@[j] == n);
                }
            }
            assert(r@ =~= self.spec_node_list());
        }
        r
    }

    /// Can the contents of the new nodes of `changes` be stored, one after the other? A line
    /// that is already stored must get the same contents again.
    pub fn fits_contents(&self, changes: &Changes) -> (r: bool)
        requires
            self.wf(),
        ensures
            r == contents_fit(self.spec_contents(), changes@),
    {
        let ghost m = self.spec_contents();
        let ghost cs = changes@;
        let mut i: usize = 0;
        while i < changes.changes.len()
            invariant
                self.wf(),
                m == self.spec_contents(),
                cs == changes@,
                i <= cs.len(),
                forall|j: int| 0 <= j < i ==> #[trigger] fits_at(m, cs, j),
            decreases cs.len() - i,
        {
            proof {
                assert(cs[i as int] == changes.changes@[i as int]@);
            }
            if let Change::NewNode { id, contents } = &changes.changes[i] {
                let mut k: usize = i;
                let mut found: Option<usize> = None;
                while k > 0 && found.is_none()
                    invariant
                        cs == changes@,
                        i < cs.len(),
                        k <= i,
                        cs[i as int] == (ChangeView::NewNode { id: *id, contents: contents@ }),
                        match found {
                            Some(f) => f < i && cs[f as int] == (ChangeView::NewNode { id: *id, contents: cs[f as int]->NewNode_contents })
                                && contents_after(m, cs.take(i as int)).contains_key(*id)
                                && contents_after(m, cs.take(i as int))[*id] == cs[f as int]->NewNode_contents,
                            None => contents_after(m, cs.take(i as int)).contains_key(*id) == contents_after(m, cs.take(k as int)).contains_key(*id)
                                && contents_after(m, cs.take(i as int))[*id] == contents_after(m, cs.take(k as int))[*id],
                        },
                    decreases k,
                {
                    k = k - 1;
                    proof {
                        assert(cs[k as int] == changes.changes@[k as int]@);
                    }
                    let same = match &changes.changes[k] {
                        Change::NewNode { id: id2, .. } => *id2 == *id,
                        _ => false,
                    };
                    if same {
                        proof {
                            lemma_after_new(m, cs, k as int, *id);
                        }
                        found = Some(k);
                    } else {
                        proof {
                            lemma_after_other(m, cs, k as int, *id);
                        }
                    }
                }
                let ok = match found {
                    Some(f) => match &changes.changes[f] {
                        Change::NewNode { contents: c2, .. } => {
                            proof {
                                assert(cs[f as int] == changes.changes@[f as int]@);
                            }
                            bytes_eq(c2, contents)
                        },
                        _ => true,
                    },
                    None => {
                        proof {
                            assert(cs.take(0) =~= Seq::<ChangeView>::empty());
                        }
                        match self.find_contents(id) {
                            Some(p) => {
                                proof {
                                    self.lemma_contents_at(p as int);
                                }
                                bytes_eq(&self.contents[p].1, contents)
                            },
                            None => true,
                        }
                    },
                };
                proof {
                    assert(ok == fits_at(m, cs, i as int));
                }
                if !ok {
                    proof {
                        assert(!contents_fit(m, cs));
                    }
                    return false;
                }
            }
            i = i + 1;
        }
        proof {
            assert forall|j: int| 0 <= j < cs.len() implies match #[trigger] cs[j] {
                ChangeView::NewNode { id, contents } => contents_after(m, cs.take(j)).contains_key(id) ==> contents_after(
                    m,
                    cs.take(j),
                )[id] == contents,
                _ => true,
            } by {
                assert(fits_at(m, cs, j));
            }
        }
        true
    }

    /// Stores the contents of the line `id`. A line's contents never change: if the line is
    /// already stored, its contents must be the same.
    pub fn add_contents(&mut self, id: NodeId, contents: Vec<u8>)
        requires
            old(self).wf(),
            old(self).spec_contents().contains_key(id) ==> old(self).spec_contents()[id] == contents@,
        ensures
            final(self).wf(),
            final(self).spec_contents() == old(self).spec_contents().insert(id, contents@),
            forall|k: nat| #[trigger] final(self).spec_graggle(k) == old(self).spec_graggle(k),
            final(self).spec_next_inode() == old(self).spec_next_inode(),
    {
        match self.find_contents(&id) {
            Some(i) => {
                proof {
                    self.lemma_contents_at(i as int);
                    assert(old(self).spec_contents().insert(id, contents@) =~= old(self).spec_contents());
                }
            },
            None => {
                let ghost c0 = self.contents@;
                self.contents.push((id, contents));
                proof {
                    assert forall|i: int, j: int| 0 <= i < j < self.contents@.len() implies self.contents@[i].0 != self.contents@[j].0 by {
                        if j == c0.len() {
                            assert(c0[i].0 != id);
                        }
                    }
                    assert forall|k: nat| #[trigger] self.spec_graggle(k) is Some implies self.spec_graggle(k)->0.wf() by {
                        assert(self.spec_graggle(k) == old(self).spec_graggle(k));
                    }
                    assert(self.wf());
                    assert forall|x: NodeId| #[trigger] self.spec_contents().contains_key(x) == old(self).spec_contents().insert(id, contents@).contains_key(x) by {
                        if self.spec_contents().contains_key(x) {
                            let j = choose|j: int| 0 <= j < self.contents@.len() && #[trigger] self.contents@[j].0 == x;
                            if j < c0.len() {
                                assert(c0[j].0 == x);
                            }
                        }
                        if old(self).spec_contents().contains_key(x) {
                            let j = choose|j: int| 0 <= j < c0.len() && #[trigger] c0[j].0 == x;
                            assert(self.contents@[j].0 == x);
                        }
                        if x == id {
                            assert(self.contents@[c0.len() as int].0 == x);
                        }
                    }
                    assert forall|x: NodeId| #[trigger] self.spec_contents().contains_key(x) implies self.spec_contents()[x]
                        == old(self).spec_contents().insert(id, contents@)[x] by {
                        let j = choose|j: int| 0 <= j < self.contents@.len() && #[trigger] self.contents@[j].0 == x;
                        self.lemma_contents_at(j);
                        if j < c0.len() {
                            old(self).lemma_contents_at(j);
                        }
                    }
                    assert(self.spec_contents() =~= old(self).spec_contents().insert(id, contents@));
                }
            },
        }
    }

    /// Forgets the contents of the line `id`.
    pub fn remove_contents(&mut self, id: &NodeId)
        requires
            old(self).wf(),
        ensures
            final(self).wf(),
            final(self).spec_contents() == old(self).spec_contents().remove(*id),
            forall|k: nat| #[trigger] final(self).spec_graggle(k) == old(self).spec_graggle(k),
            final(self).spec_next_inode() == old(self).spec_next_inode(),
    {
        match self.find_contents(id) {
            Some(i) => {
                let ghost c0 = self.contents@;
                self.contents.remove(i);
                proof {
                    assert forall|a: int, b: int| 0 <= a < b < self.contents@.len() implies self.contents@[a].0 != self.contents@[b].0 by {
                        let a0 = if a < i { a } else { a + 1 };
                        let b0 = if b < i { b } else { b + 1 };
                        assert(self.contents@[a] == c0[a0]);
                        assert(self.contents@[b] == c0[b0]);
                    }
                    assert forall|k: nat| #[trigger] self.spec_graggle(k) is Some implies self.spec_graggle(k)->0.wf() by {
                        assert(self.spec_graggle(k) == old(self).spec_graggle(k));
                    }
                    assert(self.wf());
                    assert forall|x: NodeId| #[trigger] self.spec_contents().contains_key(x) == old(self).spec_contents().remove(*id).contains_key(x) by {
                        if self.spec_contents().contains_key(x) {
                            let j = choose|j: int| 0 <= j < self.contents@.len() && #[trigger] self.contents@[j].0 == x;
                            let j0 = if j < i { j } else { j + 1 };
                            assert(c0[j0].0 == x);
                            assert(x != *id) by {
                                if x == *id {
                                    assert(c0[i as int].0 == x);
                                }
                            }
                        }
                        if old(self).spec_contents().contains_key(x) && x != *id {
                            let j = choose|j: int| 0 <= j < c0.len() && #[trigger] c0[j].0 == x;
                            if j < i {
                                assert(self.contents@[j].0 == x);
                            } else {
                                assert(self.contents@[j - 1].0 == x);
                            }
                        }
                    }
                    assert forall|x: NodeId| #[trigger] self.spec_contents().contains_key(x) implies self.spec_contents()[x]
                        == old(self).spec_contents().remove(*id)[x] by {
                        let j = choose|j: int| 0 <= j < self.contents@.len() && #[trigger] self.contents@[j].0 == x;
                        self.lemma_contents_at(j);
                        let j0 = if j < i { j } else { j + 1 };
                        assert(c0[j0] == self.contents@[j]);
                        old(self).lemma_contents_at(j0);
                    }
                    assert(self.spec_contents() =~= old(self).spec_contents().remove(*id));
                }
            },
            None => {
                proof {
                    assert forall|x: NodeId| !(#[trigger] old(self).spec_contents().contains_key(x) && x == *id) by {
                        if old(self).spec_contents().contains_key(x) && x == *id {
                            let j = choose|j: int| 0 <= j < self.contents@.len() && #[trigger] self.contents@[j].0 == x;
                        }
                    }
                    assert(old(self).spec_contents().remove(*id) =~= old(self).spec_contents());
                }
            },
        }
    }

    /// Is the line `id` stored?
    pub fn contains_node(&self, id: &NodeId) -> (r: bool)
        ensures
            r == self.spec_contents().contains_key(*id),
    {
        match self.find_contents(id) {
            Some(i) => {
                proof {
                    assert(self.contents@[i as int].0 == *id);
                }
                true
            },
            None => false,
        }
    }

    /// Takes the graggle of `inode` out, leaving `None` in its place.
    fn take_graggle(&mut self, inode: INode) -> (r: GraggleData)
        requires
            old(self).spec_graggle(inode.spec_n()) is Some,
        ensures
            r == old(self).spec_graggle(inode.spec_n())->0,
            final(self).contents@ == old(self).contents@,
            final(self).graggles@ == old(self).graggles@.update(inode.n as int, None),
    {
        proof {
            assert(inode.n < old(self).graggles@.len());
        }
        let i = inode.n as usize;
        let g = self.graggles.remove(i);
        self.graggles.insert(i, None);
        proof {
            lemma_remove_insert(old(self).graggles@, i as int, None);
        }
        match g {
            Some(g) => g,
            None => {
                proof {
                    assert(false);
                }
                GraggleData::new()
            },
        }
    }

    /// Puts a graggle back in the place of `inode`.
    fn put_graggle(&mut self, inode: INode, g: GraggleData)
        requires
            inode.spec_n() < old(self).graggles@.len(),
        ensures
            final(self).contents@ == old(self).contents@,
            final(self).graggles@ == old(self).graggles@.update(inode.n as int, Some(g)),
    {
        let i = inode.n as usize;
        self.graggles.remove(i);
        self.graggles.insert(i, Some(g));
        proof {
            lemma_remove_insert(old(self).graggles@, i as int, Some(g));
        }
    }

    /// Brings the pseudo-edges of the graggle of `inode` up to date.
    pub fn update_cache(&mut self, inode: INode)
        requires
            old(self).wf(),
            old(self).spec_graggle(inode.spec_n()) is Some,
        ensures
            final(self).wf(),
            final(self).spec_graggle(inode.spec_n()) is Some,
            !final(self).spec_graggle(inode.spec_n())->0.is_dirty(),
            final(self).spec_graggle(inode.spec_n())->0@.skeleton() == old(self).spec_graggle(inode.spec_n())->0@.skeleton(),
            forall|k: nat| k != inode.spec_n() ==> #[trigger] final(self).spec_graggle(k) == old(self).spec_graggle(k),
            final(self).spec_contents() == old(self).spec_contents(),
            final(self).spec_next_inode() == old(self).spec_next_inode(),
    {
        let mut g = self.take_graggle(inode);
        g.resolve_pseudo_edges();
        self.put_graggle(inode, g);
        proof {
            assert(self.spec_contents() =~= old(self).spec_contents());
            assert forall|k: nat| #[trigger] self.spec_graggle(k) is Some implies self.spec_graggle(k)->0.wf() by {
                if k != inode.n {
                    assert(self.spec_graggle(k) == old(self).spec_graggle(k));
                }
            }
        }
    }

    /// Applies the changes of the patch `patch` to the graggle of `inode`, and stores the
    /// contents of the new lines.
    pub fn apply_changes(&mut self, inode: INode, changes: &Changes, patch: PatchId)
        requires
            old(self).wf(),
            old(self).spec_graggle(inode.spec_n()) is Some,
            applicable(old(self).spec_graggle(inode.spec_n())->0@.skeleton(), changes@, patch),
            contents_fit(old(self).spec_contents(), changes@),
        ensures
            final(self).wf(),
            final(self).spec_graggle(inode.spec_n()) is Some,
            final(self).spec_graggle(inode.spec_n())->0@.skeleton() == apply_all(
                old(self).spec_graggle(inode.spec_n())->0@.skeleton(),
                changes@,
                patch,
            ),
            forall|k: nat| k != inode.spec_n() ==> #[trigger] final(self).spec_graggle(k) == old(self).spec_graggle(k),
            final(self).spec_contents() == contents_after(old(self).spec_contents(), changes@),
            final(self).spec_next_inode() == old(self).spec_next_inode(),
    {
        let mut g = self.take_graggle(inode);
        apply_changes(&mut g, changes, patch);
        self.put_graggle(inode, g);
        proof {
            assert(self.spec_contents() =~= old(self).spec_contents());
            assert forall|k: nat| #[trigger] self.spec_graggle(k) is Some implies self.spec_graggle(k)->0.wf() by {
                if k != inode.n {
                    assert(self.spec_graggle(k) == old(self).spec_graggle(k));
                }
            }
        }
        let ghost m0 = self.spec_contents();
        let ghost cs = changes@;
        let mut i: usize = 0;
        while i < changes.changes.len()
            invariant
                cs == changes@,
                m0 == old(self).spec_contents(),
                contents_fit(m0, cs),
                i <= cs.len(),
                self.wf(),
                self.spec_graggle(inode.spec_n()) is Some,
                self.spec_graggle(inode.spec_n())->0@.skeleton() == apply_all(
                    old(self).spec_graggle(inode.spec_n())->0@.skeleton(),
                    cs,
                    patch,
                ),
                forall|k: nat| k != inode.spec_n() ==> #[trigger] self.spec_graggle(k) == old(self).spec_graggle(k),
                self.spec_contents() == contents_after(m0, cs.take(i as int)),
                self.spec_next_inode() == old(self).spec_next_inode(),
            decreases cs.len() - i,
        {
            proof {
                lemma_take_step(cs, i as int);
                assert(cs[i as int] == changes.changes@[i as int]@);
            }
            match &changes.changes[i] {
                Change::NewNode { id, contents } => {
                    proof {
                        assert(contents_fit(m0, cs));
                        assert(cs[i as int] == ChangeView::NewNode { id: *id, contents: contents@ });
                    }
                    self.add_contents(*id, copy_bytes(contents));
                },
                _ => {},
            }
            i = i + 1;
        }
        proof {
            assert(cs.take(cs.len() as int) =~= cs);
        }
    }

    /// Unapplies the changes of the patch `patch` from the graggle of `inode`, and forgets the
    /// contents of the lines that it added.
    pub fn unapply_changes(&mut self, inode: INode, changes: &Changes, patch: PatchId)
        requires
            old(self).wf(),
            old(self).spec_graggle(inode.spec_n()) is Some,
            unapplicable(old(self).spec_graggle(inode.spec_n())->0@.skeleton(), changes@, patch),
        ensures
            final(self).wf(),
            final(self).spec_graggle(inode.spec_n()) is Some,
            final(self).spec_graggle(inode.spec_n())->0@.skeleton() == unapply_all(
                old(self).spec_graggle(inode.spec_n())->0@.skeleton(),
                changes@,
                patch,
            ),
            forall|k: nat| k != inode.spec_n() ==> #[trigger] final(self).spec_graggle(k) == old(self).spec_graggle(k),
            final(self).spec_contents() == contents_without(old(self).spec_contents(), changes@),
            final(self).spec_next_inode() == old(self).spec_next_inode(),
    {
        let mut g = self.take_graggle(inode);
        unapply_changes(&mut g, changes, patch);
        self.put_graggle(inode, g);
        proof {
            assert(self.spec_contents() =~= old(self).spec_contents());
            assert forall|k: nat| #[trigger] self.spec_graggle(k) is Some implies self.spec_graggle(k)->0.wf() by {
                if k != inode.n {
                    assert(self.spec_graggle(k) == old(self).spec_graggle(k));
                }
            }
        }
        let ghost m0 = self.spec_contents();
        let ghost cs = changes@;
        let mut i: usize = 0;
        while i < changes.changes.len()
            invariant
                cs == changes@,
                m0 == old(self).spec_contents(),
                i <= cs.len(),
                self.wf(),
                self.spec_graggle(inode.spec_n()) is Some,
                self.spec_graggle(inode.spec_n())->0@.skeleton() == unapply_all(
                    old(self).spec_graggle(inode.spec_n())->0@.skeleton(),
                    cs,
                    patch,
                ),
                forall|k: nat| k != inode.spec_n() ==> #[trigger] self.spec_graggle(k) == old(self).spec_graggle(k),
                self.spec_contents() == contents_without(m0, cs.take(i as int)),
                self.spec_next_inode() == old(self).spec_next_inode(),
            decreases cs.len() - i,
        {
            proof {
                lemma_take_step(cs, i as int);
                assert(cs[i as int] == changes.changes@[i as int]@);
            }
            match &changes.changes[i] {
                Change::NewNode { id, .. } => {
                    self.remove_contents(id);
                },
                _ => {},
            }
            i = i + 1;
        }
        proof {
            assert(cs.take(cs.len() as int) =~= cs);
        }
    }

    /// A read-only view of the graggle of `inode`.
    pub fn graggle(&self, inode: INode) -> (r: Graggle<'_>)
        requires
            self.spec_graggle(inode.spec_n()) is Some,
        ensures
            r@ == self.spec_graggle(inode.spec_n())->0@,
    {
        proof {
            assert(inode.n < self.graggles@.len());
            assert(self.graggles@[inode.n as int] is Some);
        }
        let len = self.graggles.len() as u64;
        assert(inode.n < len);
        let i = inode.n as usize;
        assert(i == inode.n);
        match &self.graggles[i] {
            Some(g) => g.as_graggle(),
            None => vstd::pervasive::unreached(),
        }
    }

    /// Forgets the graggle of `inode`.
    pub fn remove_graggle(&mut self, inode: INode)
        requires
            old(self).wf(),
        ensures
            final(self).wf(),
            final(self).spec_graggle(inode.spec_n()) is None,
            forall|k: nat| k != inode.spec_n() ==> #[trigger] final(self).spec_graggle(k) == old(self).spec_graggle(k),
            final(self).spec_contents() == old(self).spec_contents(),
            final(self).spec_next_inode() == old(self).spec_next_inode(),
    {
        let len = self.graggles.len() as u64;
        if inode.n < len {
            let i = inode.n as usize;
            self.graggles.remove(i);
            self.graggles.insert(i, None);
            proof {
                lemma_remove_insert(old(self).graggles@, i as int, None);
            }
        }
        proof {
            assert(self.spec_contents() =~= old(self).spec_contents());
            assert forall|k: nat| #[trigger] self.spec_graggle(k) is Some implies self.spec_graggle(k)->0.wf() by {
                assert(self.spec_graggle(k) == old(self).spec_graggle(k));
            }
        }
    }

    /// Replaces the graggle of `inode`, which must have been handed out.
    pub fn set_graggle(&mut self, inode: INode, graggle: GraggleData)
        requires
            old(self).wf(),
            graggle.wf(),
            inode.spec_n() < old(self).spec_next_inode(),
        ensures
            final(self).wf(),
            final(self).spec_graggle(inode.spec_n()) == Some(graggle),
            forall|k: nat| k != inode.spec_n() ==> #[trigger] final(self).spec_graggle(k) == old(self).spec_graggle(k),
            final(self).spec_contents() == old(self).spec_contents(),
            final(self).spec_next_inode() == old(self).spec_next_inode(),
    {
        self.put_graggle(inode, graggle);
        proof {
            assert(self.spec_contents() =~= old(self).spec_contents());
            assert forall|k: nat| #[trigger] self.spec_graggle(k) is Some implies self.spec_graggle(k)->0.wf() by {
                if k != inode.n {
                    assert(self.spec_graggle(k) == old(self).spec_graggle(k));
                }
            }
        }
    }
}

} // verus!
