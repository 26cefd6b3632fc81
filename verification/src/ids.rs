//! Identifiers of patches and of nodes.

use vstd::prelude::*;
use vstd::std_specs::cmp::PartialEqSpecImpl;

verus! {

/// The number of bytes in a patch id.
pub const PATCH_ID_LEN: usize = 32;

/// `a` comes strictly before `b` in lexicographic order.
pub open spec fn bytes_before(a: Seq<u8>, b: Seq<u8>) -> bool
    decreases a.len(),
{
    if a.len() == 0 || b.len() == 0 {
        a.len() == 0 && b.len() > 0
    } else if a[0] != b[0] {
        a[0] < b[0]
    } else {
        bytes_before(a.drop_first(), b.drop_first())
    }
}

/// Lexicographic order is a strict total order on byte strings of one length.
pub proof fn lemma_bytes_before(a: Seq<u8>, b: Seq<u8>, c: Seq<u8>)
    ensures
        !bytes_before(a, a),
        a.len() == b.len() && a != b ==> bytes_before(a, b) || bytes_before(b, a),
        bytes_before(a, b) && bytes_before(b, c) ==> bytes_before(a, c),
    decreases a.len(),
{
    if a.len() > 0 && b.len() > 0 && c.len() > 0 {
        lemma_bytes_before(a.drop_first(), b.drop_first(), c.drop_first());
        if a.len() == b.len() && a != b && a[0] == b[0] {
            assert(a.drop_first() != b.drop_first()) by {
                if a.drop_first() == b.drop_first() {
                    assert(a =~= b) by {
                        assert forall|i: int| 0 <= i < a.len() implies a[i] == b[i] by {
                            if i > 0 {
                                assert(a[i] == a.drop_first()[i - 1]);
                                assert(b[i] == b.drop_first()[i - 1]);
                            }
                        }
                    }
                }
            }
        }
    } else if a.len() > 0 && b.len() > 0 {
        lemma_bytes_before(a.drop_first(), b.drop_first(), b.drop_first());
        if a.len() == b.len() && a != b && a[0] == b[0] {
            assert(a.drop_first() != b.drop_first()) by {
                if a.drop_first() == b.drop_first() {
                    assert(a =~= b) by {
                        assert forall|i: int| 0 <= i < a.len() implies a[i] == b[i] by {
                            if i > 0 {
                                assert(a[i] == a.drop_first()[i - 1]);
                                assert(b[i] == b.drop_first()[i - 1]);
                            }
                        }
                    }
                }
            }
        }
    } else if a.len() > 0 {
        lemma_bytes_before(a.drop_first(), a.drop_first(), a.drop_first());
    } else if a.len() == 0 && b.len() == 0 {
        assert(a =~= b);
    }
}

/// A global identifier for a patch.
///
/// A `PatchId` is derived from a patch by hashing its contents. It must be unique: a repository
/// cannot simultaneously contain two patches with the same id.
#[derive(Clone, Copy, Debug, Eq, Hash, PartialOrd, Ord)]
pub struct PatchId {
    pub(crate) data: [u8; 32],
}

impl PartialEq for PatchId {
    fn eq(&self, other: &PatchId) -> (r: bool) {
        let mut i: usize = 0;
        while i < 32
            invariant
                i <= 32,
                forall|k: int| 0 <= k < i ==> #[trigger] self.data@[k] == other.data@[k],
            decreases 32 - i,
        {
            if self.data[i] != other.data[i] {
                return false;
            }
            i = i + 1;
        }
        proof {
            broadcast use vstd::array::axiom_array_ext_equal;
            assert(self.data@ =~= other.data@);
            assert(self.data =~= other.data);
        }
        true
    }
}

impl PartialEqSpecImpl for PatchId {
    open spec fn obeys_eq_spec() -> bool {
        true
    }

    open spec fn eq_spec(&self, other: &PatchId) -> bool {
        *self == *other
    }
}

impl PatchId {
    /// `true` for the special id that stands for the patch under construction.
    pub closed spec fn spec_is_cur(&self) -> bool {
        forall|i: int| 0 <= i < 32 ==> #[trigger] self.data@[i] == 0
    }

    /// The bytes of this id.
    pub closed spec fn bytes(&self) -> Seq<u8> {
        self.data@
    }

    /// An id is 32 bytes long.
    pub proof fn lemma_bytes_len(&self)
        ensures
            self.bytes().len() == 32,
    {
    }

    /// The bytes of an id are its data.
    pub(crate) proof fn lemma_bytes(&self)
        ensures
            self.bytes() == self.data@,
    {
    }

    /// There is a special reserved `PatchId` for patches that are under construction, but not
    /// yet finished. This function returns that special id.
    pub fn cur() -> (r: PatchId)
        ensures
            r.spec_is_cur(),
    {
        PatchId { data: [0u8; 32] }
    }

    /// Does this id come before `other`, in the order of their bytes?
    pub fn is_before(&self, other: &PatchId) -> (r: bool)
        ensures
            r == patch_before(*self, *other),
    {
        let ghost a = self.data@;
        let ghost b = other.data@;
        proof {
            assert(a.skip(0) =~= a);
            assert(b.skip(0) =~= b);
        }
        let mut i: usize = 0;
        while i < 32
            invariant
                i <= 32,
                a == self.data@,
                b == other.data@,
                a.len() == 32,
                b.len() == 32,
                bytes_before(a, b) == bytes_before(a.skip(i as int), b.skip(i as int)),
            decreases 32 - i,
        {
            let x = self.data[i];
            let y = other.data[i];
            proof {
                assert(a.skip(i as int)[0] == x);
                assert(b.skip(i as int)[0] == y);
                assert(a.skip(i as int).drop_first() =~= a.skip(i + 1));
                assert(b.skip(i as int).drop_first() =~= b.skip(i + 1));
            }
            if x != y {
                return x < y;
            }
            i = i + 1;
        }
        proof {
            assert(a.skip(32) =~= Seq::<u8>::empty());
            assert(b.skip(32) =~= Seq::<u8>::empty());
        }
        false
    }

    /// Checks whether this `PatchId` is the one returned by [`PatchId::cur`].
    pub fn is_cur(&self) -> (r: bool)
        ensures
            r == self.spec_is_cur(),
    {
        let mut i: usize = 0;
        while i < 32
            invariant
                i <= 32,
                forall|k: int| 0 <= k < i ==> #[trigger] self.data@[k] == 0,
            decreases 32 - i,
        {
            if self.data[i] != 0 {
                return false;
            }
            i = i + 1;
        }
        true
    }
}

/// `a` comes before `b` in the order of their bytes.
pub open spec fn patch_before(a: PatchId, b: PatchId) -> bool {
    bytes_before(a.bytes(), b.bytes())
}

/// The order of patch ids is a strict total order.
pub proof fn lemma_patch_before(a: PatchId, b: PatchId, c: PatchId)
    ensures
        !patch_before(a, a),
        a != b ==> patch_before(a, b) || patch_before(b, a),
        patch_before(a, b) && patch_before(b, c) ==> patch_before(a, c),
{
    lemma_bytes_before(a.bytes(), b.bytes(), c.bytes());
    if a.bytes() == b.bytes() {
        broadcast use vstd::array::axiom_array_ext_equal;
        assert(a.data =~= b.data);
    }
}

/// `a` comes before `b`: by patch, then by index within the patch.
pub open spec fn node_before(a: NodeId, b: NodeId) -> bool {
    patch_before(a.patch, b.patch) || (a.patch == b.patch && a.node < b.node)
}

/// The order of node ids is a strict total order.
pub proof fn lemma_node_before(a: NodeId, b: NodeId, c: NodeId)
    ensures
        !node_before(a, a),
        a != b ==> node_before(a, b) || node_before(b, a),
        node_before(a, b) && node_before(b, c) ==> node_before(a, c),
{
    lemma_patch_before(a.patch, b.patch, c.patch);
    lemma_patch_before(a.patch, a.patch, a.patch);
    lemma_patch_before(b.patch, b.patch, b.patch);
    lemma_patch_before(a.patch, c.patch, b.patch);
    lemma_patch_before(b.patch, a.patch, c.patch);
}

/// A globally unique ID for identifying a node.
#[derive(Clone, Copy, Debug, Eq, Hash, PartialOrd, Ord)]
pub struct NodeId {
    /// The ID of the patch that first introduced this node.
    pub patch: PatchId,
    /// The index of this node within the patch.
    ///
    /// If a patch introduces `n` nodes, they are given `node` values of `0` through `n-1`.
    pub node: u64,
}

impl PartialEq for NodeId {
    fn eq(&self, other: &NodeId) -> (r: bool) {
        self.node == other.node && self.patch == other.patch
    }
}

impl PartialEqSpecImpl for NodeId {
    open spec fn obeys_eq_spec() -> bool {
        true
    }

    open spec fn eq_spec(&self, other: &NodeId) -> bool {
        *self == *other
    }
}

impl NodeId {
    /// The id that `set_patch_id` gives this node: a node of the patch under construction moves
    /// to the patch `id`, and any other node keeps its patch.
    pub open spec fn with_patch(self, id: PatchId) -> NodeId {
        if self.patch.spec_is_cur() {
            NodeId { patch: id, node: self.node }
        } else {
            self
        }
    }

    /// Does this id come before `other`: by patch, then by index?
    pub fn is_before(&self, other: &NodeId) -> (r: bool)
        ensures
            r == node_before(*self, *other),
    {
        if self.patch.is_before(&other.patch) {
            true
        } else if self.patch == other.patch {
            self.node < other.node
        } else {
            false
        }
    }

    /// Moves a node of the patch under construction to the patch `id`.
    pub fn set_patch_id(&mut self, id: &PatchId)
        ensures
            *final(self) == old(self).with_patch(*id),
    {
        if self.patch.is_cur() {
            self.patch = *id;
        }
    }

    /// Creates a new `NodeId` for referring to a node that is being introduced in the current
    /// patch.
    pub fn cur(node: u64) -> (r: NodeId)
        ensures
            r.patch.spec_is_cur(),
            r.node == node,
    {
        NodeId { patch: PatchId::cur(), node }
    }
}

/// There is exactly one id of the patch under construction.
pub proof fn lemma_cur_unique(p: PatchId, q: PatchId)
    requires
        p.spec_is_cur(),
        q.spec_is_cur(),
    ensures
        p == q,
{
    assert(p.data@ =~= q.data@);
    broadcast use vstd::array::axiom_array_ext_equal;
    assert(p.data =~= q.data);
}

/// Moving nodes to a patch twice is the same as moving them once: after the first move, no node
/// belongs to the patch under construction any more (unless the target is that patch itself).
pub proof fn lemma_with_patch_idempotent(n: NodeId, id: PatchId)
    ensures
        n.with_patch(id).with_patch(id) == n.with_patch(id),
        !id.spec_is_cur() ==> !n.with_patch(id).patch.spec_is_cur(),
{
    if n.patch.spec_is_cur() && id.spec_is_cur() {
        lemma_cur_unique(n.patch, id);
    }
}

} // verus!
