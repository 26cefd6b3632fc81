//! Changes: the contents of a patch.

use vstd::prelude::*;

use crate::diff::LineDiff;
use crate::file::{copy_bytes, File};
use crate::ids::{NodeId, PatchId};

verus! {

/// A single change.
#[derive(Clone, Debug, PartialEq, Eq, Hash)]
pub enum Change {
    /// A change which adds a new node to the graggle, with an ID that must be unique, and with
    /// the given contents.
    NewNode {
        /// The ID of the new node.
        id: NodeId,
        /// The contents of the new node.
        contents: Vec<u8>,
    },
    /// Marks a node as deleted. Note that deleted nodes are never actually removed; they remain
    /// but they are simply marked as deleted.
    DeleteNode {
        /// The ID of the node to delete.
        id: NodeId,
    },
    /// Adds a new edge (i.e. a new ordering relation) between two nodes.
    NewEdge {
        /// The source of the new edge (i.e. the one that comes first in the ordering).
        src: NodeId,
        /// The destination of the new edge.
        dest: NodeId,
    },
}

/// The mathematical value of a [`Change`].
pub enum ChangeView {
    /// See [`Change::NewNode`].
    NewNode { id: NodeId, contents: Seq<u8> },
    /// See [`Change::DeleteNode`].
    DeleteNode { id: NodeId },
    /// See [`Change::NewEdge`].
    NewEdge { src: NodeId, dest: NodeId },
}

impl View for Change {
    type V = ChangeView;

    open spec fn view(&self) -> ChangeView {
        match self {
            Change::NewNode { id, contents } => ChangeView::NewNode { id: *id, contents: contents@ },
            Change::DeleteNode { id } => ChangeView::DeleteNode { id: *id },
            Change::NewEdge { src, dest } => ChangeView::NewEdge { src: *src, dest: *dest },
        }
    }
}

impl ChangeView {
    /// This change, with every node of the patch under construction moved to the patch `id`.
    pub open spec fn with_patch(self, id: PatchId) -> ChangeView {
        match self {
            ChangeView::NewNode { id: n, contents } => ChangeView::NewNode {
                id: n.with_patch(id),
                contents,
            },
            ChangeView::DeleteNode { id: n } => ChangeView::DeleteNode { id: n.with_patch(id) },
            ChangeView::NewEdge { src, dest } => ChangeView::NewEdge {
                src: src.with_patch(id),
                dest: dest.with_patch(id),
            },
        }
    }
}

impl Change {
    /// Modifies the `PatchId` of this change.
    pub fn set_patch_id(&mut self, new_id: &PatchId)
        ensures
            final(self)@ == old(self)@.with_patch(*new_id),
    {
        match self {
            Change::NewNode { id, .. } => {
                id.set_patch_id(new_id);
            },
            Change::NewEdge { src, dest } => {
                src.set_patch_id(new_id);
                dest.set_patch_id(new_id);
            },
            Change::DeleteNode { id } => {
                id.set_patch_id(new_id);
            },
        }
    }
}

/// A set of [`Change`]s.
///
/// This is basically the "meat" of a patch; everything else is metadata.
#[derive(Clone, Debug, PartialEq, Eq, Hash)]
pub struct Changes {
    /// The list of [`Change`]s.
    pub changes: Vec<Change>,
}

impl View for Changes {
    type V = Seq<ChangeView>;

    open spec fn view(&self) -> Seq<ChangeView> {
        self.changes@.map_values(|c: Change| c@)
    }
}

/// While iterating through a diff, we need to remember what the previous line was and where it
/// came from: either there wasn't one, or it came from one of the two files.
#[derive(Clone, Copy, Debug)]
pub enum LastLine {
    /// No line came before.
    Start,
    /// The previous line was a line of the first file.
    File1(NodeId),
    /// The previous line was a line of the second file.
    File2(NodeId),
}

impl LastLine {
    /// The id of the previous line, if there was one.
    pub open spec fn spec_either(self) -> Option<NodeId> {
        match self {
            LastLine::File1(i) => Some(i),
            LastLine::File2(i) => Some(i),
            LastLine::Start => None,
        }
    }

    /// The id of the previous line, if there was one.
    pub fn either(&self) -> (r: Option<NodeId>)
        ensures
            r == self.spec_either(),
    {
        match *self {
            LastLine::File1(i) => Some(i),
            LastLine::File2(i) => Some(i),
            LastLine::Start => None,
        }
    }
}

/// Every line that `d` refers to exists in the corresponding file.
pub open spec fn diff_fits(file1: File, file2: File, d: Seq<LineDiff>) -> bool {
    forall|k: int|
        0 <= k < d.len() ==> match #[trigger] d[k] {
            LineDiff::New(i) => i < file2.spec_num_nodes(),
            LineDiff::Keep(i, _) => i < file1.spec_num_nodes(),
            LineDiff::Delete(i) => i < file1.spec_num_nodes(),
        }
}

/// The previous line after going through the diff `d`: the last line that was kept or added.
pub open spec fn last_line_after(file1: File, file2: File, d: Seq<LineDiff>) -> LastLine
    decreases d.len(),
{
    if d.len() == 0 {
        LastLine::Start
    } else {
        match d.last() {
            LineDiff::New(i) => LastLine::File2(file2.spec_ids()[i as int]),
            LineDiff::Keep(i, _) => LastLine::File1(file1.spec_ids()[i as int]),
            LineDiff::Delete(_) => last_line_after(file1, file2, d.drop_last()),
        }
    }
}

/// The changes that one line of a diff gives, when `last` is the previous line.
///
/// A new line becomes a new node, joined to the previous line (wherever that came from). A kept
/// line gets an edge from the previous line only if that one is new. A deleted line is deleted.
pub open spec fn line_changes(
    file1: File,
    file2: File,
    last: LastLine,
    x: LineDiff,
) -> Seq<ChangeView> {
    match x {
        LineDiff::New(i) => {
            let id = file2.spec_ids()[i as int];
            let node = seq![ChangeView::NewNode { id, contents: file2.spec_node(i as int) }];
            match last.spec_either() {
                Some(last_id) => node.push(ChangeView::NewEdge { src: last_id, dest: id }),
                None => node,
            }
        },
        LineDiff::Keep(i, _) => {
            let id = file1.spec_ids()[i as int];
            match last {
                LastLine::File2(last_id) => seq![ChangeView::NewEdge { src: last_id, dest: id }],
                _ => Seq::empty(),
            }
        },
        LineDiff::Delete(i) => seq![ChangeView::DeleteNode { id: file1.spec_ids()[i as int] }],
    }
}

/// The changes that turn `file1` into `file2`, given the diff `d` between them.
pub open spec fn changes_from_diff(file1: File, file2: File, d: Seq<LineDiff>) -> Seq<ChangeView>
    decreases d.len(),
{
    if d.len() == 0 {
        Seq::empty()
    } else {
        changes_from_diff(file1, file2, d.drop_last()) + line_changes(
            file1,
            file2,
            last_line_after(file1, file2, d.drop_last()),
            d.last(),
        )
    }
}

impl Changes {
    /// Converts a diff into a set of changes.
    ///
    /// The two `File` arguments should be the same ones (in the same order) as those that were
    /// used to create the diff.
    pub fn from_diff(file1: &File, file2: &File, diff: &[LineDiff]) -> (r: Changes)
        requires
            file1.wf(),
            file2.wf(),
            diff_fits(*file1, *file2, diff@),
        ensures
            r@ == changes_from_diff(*file1, *file2, diff@),
    {
        let mut changes: Vec<Change> = Vec::new();
        let mut last = LastLine::Start;
        let mut k: usize = 0;
        while k < diff.len()
            invariant
                file1.wf(),
                file2.wf(),
                diff_fits(*file1, *file2, diff@),
                k <= diff.len(),
                changes@.map_values(|c: Change| c@) == changes_from_diff(
                    *file1,
                    *file2,
                    diff@.take(k as int),
                ),
                last == last_line_after(*file1, *file2, diff@.take(k as int)),
            decreases diff.len() - k,
        {
            let ghost before = changes@.map_values(|c: Change| c@);
            let ghost last0 = last;
            let d = diff[k];
            proof {
                assert(diff@.take(k + 1).drop_last() =~= diff@.take(k as int));
                assert(diff@.take(k + 1).last() == d);
            }
            match d {
                LineDiff::New(i) => {
                    let id = *file2.node_id(i);
                    changes.push(Change::NewNode { id, contents: copy_bytes(file2.node(i)) });
                    if let Some(last_id) = last.either() {
                        changes.push(Change::NewEdge { src: last_id, dest: id });
                    }
                    last = LastLine::File2(id);
                },
                LineDiff::Keep(i, _) => {
                    let id = *file1.node_id(i);
                    if let LastLine::File2(last_id) = last {
                        changes.push(Change::NewEdge { src: last_id, dest: id });
                    }
                    last = LastLine::File1(id);
                },
                LineDiff::Delete(i) => {
                    let id = *file1.node_id(i);
                    changes.push(Change::DeleteNode { id });
                },
            }
            proof {
                assert(changes@.map_values(|c: Change| c@) =~= before + line_changes(
                    *file1,
                    *file2,
                    last0,
                    d,
                ));
            }
            k = k + 1;
        }
        assert(diff@.take(diff.len() as int) =~= diff@);
        Changes { changes }
    }

    /// Modifies all of the changes in this changeset to have the given `PatchId`.
    pub fn set_patch_id(&mut self, new_id: &PatchId)
        ensures
            final(self)@ == old(self)@.map_values(|c: ChangeView| c.with_patch(*new_id)),
    {
        let ghost orig = self@;
        let mut rest: Vec<Change> = Vec::new();
        std::mem::swap(&mut rest, &mut self.changes);
        let ghost n = rest@.len();
        while rest.len() > 0
            invariant
                rest@.len() <= n,
                n == orig.len(),
                rest@.map_values(|c: Change| c@) == orig.skip(n - rest@.len()),
                self@ == orig.take(n - rest@.len()).map_values(
                    |c: ChangeView| c.with_patch(*new_id),
                ),
            decreases rest@.len(),
        {
            let ghost k = n - rest@.len();
            let ghost before = self.changes@;
            let ghost old_rest = rest@;
            assert(before.len() == k) by {
                assert(before.map_values(|c: Change| c@).len() == before.len());
                assert(orig.take(k).map_values(|c: ChangeView| c.with_patch(*new_id)).len() == k);
            }
            let mut c = rest.remove(0);
            assert(c@ == orig[k]) by {
                assert(old_rest.map_values(|c: Change| c@)[0] == orig.skip(k)[0]);
            }
            c.set_patch_id(new_id);
            self.changes.push(c);
            proof {
                assert forall|j: int| 0 <= j < rest@.len() implies #[trigger] rest@[j]@ == orig.skip(
                    k + 1,
                )[j] by {
                    assert(rest@[j] == old_rest[j + 1]);
                    assert(old_rest.map_values(|c: Change| c@)[j + 1] == orig.skip(k)[j + 1]);
                }
                assert(rest@.map_values(|c: Change| c@) =~= orig.skip(n - rest@.len()));
                assert(self.changes@ == before.push(c));
                assert(self@.len() == k + 1);
                assert forall|j: int| 0 <= j < self@.len() implies #[trigger] self@[j] == orig.take(
                    k + 1,
                ).map_values(|c: ChangeView| c.with_patch(*new_id))[j] by {
                    if j < k {
                        assert(self.changes@[j] == before[j]);
                        assert(before.map_values(|c: Change| c@)[j] == orig.take(k).map_values(
                            |c: ChangeView| c.with_patch(*new_id),
                        )[j]);
                    }
                }
                assert(self@ =~= orig.take(n - rest@.len()).map_values(
                    |c: ChangeView| c.with_patch(*new_id),
                ));
            }
        }
    }
}

} // verus!
