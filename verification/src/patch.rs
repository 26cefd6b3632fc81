//! Patches: sets of changes with their metadata, their dependencies and their ids.

use vstd::prelude::*;

use crate::apply::new_id;
use crate::change::{Change, ChangeView, Changes};
use crate::ids::{NodeId, PatchId};

verus! {

#[verifier::external_type_specification]
#[verifier::external_body]
pub struct ExDecodeError(base64::DecodeError);

/// The digit of the URL-safe base64 alphabet for the 6-bit value `v`: `A` to `Z`, `a` to `z`,
/// `0` to `9`, then `-` and `_`.
pub open spec fn url_safe_digit(v: int) -> char {
    if v < 26 {
        ('A' as int + v) as char
    } else if v < 52 {
        ('a' as int + (v - 26)) as char
    } else if v < 62 {
        ('0' as int + (v - 52)) as char
    } else if v == 62 {
        '-'
    } else {
        '_'
    }
}

/// The URL-safe base64 encoding of `bytes`: each group of three bytes gives four digits of six
/// bits each, and a last group of one or two bytes gives two or three digits, padded with `=`
/// to four.
pub open spec fn url_safe_base64(bytes: Seq<u8>) -> Seq<char>
    decreases bytes.len(),
{
    if bytes.len() == 0 {
        Seq::empty()
    } else if bytes.len() == 1 {
        let b0 = bytes[0] as int;
        seq![url_safe_digit(b0 / 4), url_safe_digit((b0 % 4) * 16), '=', '=']
    } else if bytes.len() == 2 {
        let b0 = bytes[0] as int;
        let b1 = bytes[1] as int;
        seq![url_safe_digit(b0 / 4), url_safe_digit((b0 % 4) * 16 + b1 / 16), url_safe_digit((b1 % 16) * 4), '=']
    } else {
        let b0 = bytes[0] as int;
        let b1 = bytes[1] as int;
        let b2 = bytes[2] as int;
        seq![
            url_safe_digit(b0 / 4),
            url_safe_digit((b0 % 4) * 16 + b1 / 16),
            url_safe_digit((b1 % 16) * 4 + b2 / 64),
            url_safe_digit(b2 % 64),
        ] + url_safe_base64(bytes.skip(3))
    }
}

/// The bytes that the URL-safe base64 text `text` decodes to, if it is valid.
pub uninterp spec fn url_safe_base64_decoded(text: Seq<u8>) -> Option<Seq<u8>>;

/// The SHA-256 digest of `bytes`.
pub uninterp spec fn sha256_digest(bytes: Seq<u8>) -> Seq<u8>;

/// Encodes `bytes` with `base64::encode_config` and the `URL_SAFE` configuration: the
/// URL-safe alphabet, with padding. So the output is four characters for every three bytes or
/// part of three bytes, it is ASCII, and `base64::decode_config` with the same configuration
/// gives the bytes back.
#[verifier::external_body]
fn encode_url_safe(bytes: &[u8]) -> (r: String)
    ensures
        r@ == url_safe_base64(bytes@),
        r@.len() == 4 * ((bytes@.len() + 2) / 3),
        vstd::utf8::is_ascii_chars(r@),
        url_safe_base64_decoded(r@.map_values(|c: char| c as u8)) == Some(bytes@),
{
    base64::encode_config(bytes, base64::URL_SAFE)
}

/// Decodes `text` with `base64::decode_config` and the `URL_SAFE` configuration: the result is
/// the decoded bytes, or the crate's error when `text` is not valid base64.
#[verifier::external_body]
fn decode_url_safe(text: &[u8]) -> (r: Result<Vec<u8>, base64::DecodeError>)
    ensures
        match r {
            Ok(v) => url_safe_base64_decoded(text@) == Some(v@),
            Err(_) => url_safe_base64_decoded(text@) is None,
        },
{
    base64::decode_config(text, base64::URL_SAFE)
}

/// The SHA-256 digest of `bytes`, computed by `sha2::Sha256::digest`: 32 bytes.
#[verifier::external_body]
fn sha256(bytes: &[u8]) -> (r: [u8; 32])
    ensures
        r@ == sha256_digest(bytes@),
{
    let d = <sha2::Sha256 as sha2::Digest>::digest(bytes);
    let mut r = [0u8; 32];
    r.copy_from_slice(&d[..]);
    r
}

/// The ways in which a `PatchId` can fail to be read.
#[derive(Debug)]
pub enum PatchIdError {
    /// The text is not valid base64.
    Base64Decode(base64::DecodeError),
    /// The text decodes to the wrong number of bytes.
    InvalidLength(usize),
    /// Two different patches have the same hash.
    Collision(PatchId),
}

impl PatchId {
    /// The text of this id: the letter `P` followed by the URL-safe base64 encoding of its
    /// bytes. The encoding keeps the text usable as a path, and the letter keeps a command line
    /// from taking it for a flag. The text is ASCII, and what [`PatchId::from_base64`] decodes
    /// from it is the bytes of this id, so that it reads back to this id.
    pub fn to_base64(&self) -> (r: String)
        ensures
            r@ == seq!['P'] + url_safe_base64(self.bytes()),
            r@.len() == 45,
            vstd::utf8::is_ascii_chars(r@),
            url_safe_base64_decoded(r@.subrange(1, 45).map_values(|c: char| c as u8)) == Some(self.bytes()),
    {
        let mut r = "P".to_owned();
        proof {
            reveal_strlit("P");
        }
        let encoded = encode_url_safe(&self.data);
        proof {
            self.lemma_bytes();
        }
        r.append(encoded.as_str());
        proof {
            assert(r@.subrange(1, 45) =~= encoded@);
        }
        r
    }

    /// Reads an id back from its text, as [`PatchId::to_base64`] writes it: the first byte is
    /// skipped and the rest must be URL-safe base64 for exactly 32 bytes.
    pub fn from_base64(name: &[u8]) -> (r: Result<PatchId, PatchIdError>)
        requires
            name@.len() >= 1,
        ensures
            match url_safe_base64_decoded(name@.subrange(1, name@.len() as int)) {
                None => r is Err && r->Err_0 is Base64Decode,
                Some(data) => if data.len() == 32 {
                    r is Ok && r->Ok_0.bytes() == data
                } else {
                    r == Err::<PatchId, PatchIdError>(PatchIdError::InvalidLength(data.len() as usize))
                },
            },
    {
        let rest = slice_from(name, 1);
        match decode_url_safe(rest) {
            Err(e) => Err(PatchIdError::Base64Decode(e)),
            Ok(data) => {
                if data.len() != 32 {
                    Err(PatchIdError::InvalidLength(data.len()))
                } else {
                    let mut ret = PatchId::cur();
                    let mut i: usize = 0;
                    while i < 32
                        invariant
                            i <= 32,
                            data@.len() == 32,
                            forall|k: int| 0 <= k < i ==> ret.data@[k] == data@[k],
                        decreases 32 - i,
                    {
                        ret.data[i] = data[i];
                        i = i + 1;
                    }
                    proof {
                        assert(ret.data@ =~= data@);
                        ret.lemma_bytes();
                    }
                    Ok(ret)
                }
            },
        }
    }

    /// The id of a patch whose serialized contents are `contents`: their SHA-256 digest.
    pub fn from_sha256(contents: &[u8]) -> (r: PatchId)
        ensures
            r.bytes() == sha256_digest(contents@),
    {
        let data = sha256(contents);
        let r = PatchId { data };
        proof {
            r.lemma_bytes();
        }
        r
    }
}

/// The bytes of `s` from the index `from` on.
fn slice_from(s: &[u8], from: usize) -> (r: &[u8])
    requires
        from <= s@.len(),
    ensures
        r@ == s@.subrange(from as int, s@.len() as int),
{
    vstd::slice::slice_subrange(s, from, s.len())
}

/// The change `c` refers to a node of the patch `p` (a new node belongs to no other patch).
pub open spec fn refers_to(c: ChangeView, p: PatchId) -> bool {
    match c {
        ChangeView::DeleteNode { id } => id.patch == p,
        ChangeView::NewEdge { src, dest } => src.patch == p || dest.patch == p,
        ChangeView::NewNode { .. } => false,
    }
}

/// The patches that the changes `cs` depend on: those, other than the patch under construction,
/// whose nodes the changes refer to.
pub open spec fn dep_set(cs: Seq<ChangeView>) -> Set<PatchId> {
    Set::new(|p: PatchId| !p.spec_is_cur() && exists|i: int| 0 <= i < cs.len() && #[trigger] refers_to(cs[i], p))
}

fn patch_in(v: &Vec<PatchId>, p: &PatchId) -> (r: bool)
    ensures
        r == v@.contains(*p),
{
    let mut i: usize = 0;
    while i < v.len()
        invariant
            i <= v.len(),
            forall|j: int| 0 <= j < i ==> v@[j] != *p,
        decreases v.len() - i,
    {
        if v[i] == *p {
            return true;
        }
        i = i + 1;
    }
    false
}

/// Adds `p` to the set `v`, unless it belongs to the patch under construction.
fn add_dep(v: &mut Vec<PatchId>, p: PatchId)
    requires
        old(v)@.no_duplicates(),
    ensures
        final(v)@.no_duplicates(),
        final(v)@.to_set() == if p.spec_is_cur() { old(v)@.to_set() } else { old(v)@.to_set().insert(p) },
{
    if !p.is_cur() && !patch_in(v, &p) {
        let ghost v0 = v@;
        v.push(p);
        proof {
            assert forall|a: int, b: int| 0 <= a < b < v@.len() implies v@[a] != v@[b] by {
                if b == v0.len() {
                    assert(v0.contains(v0[a]));
                }
            }
            assert forall|x: PatchId| v@.contains(x) <==> (v0.contains(x) || x == p) by {
                if v@.contains(x) {
                    let k = choose|k: int| 0 <= k < v@.len() && v@[k] == x;
                    if k < v0.len() {
                        assert(v0[k] == x);
                    }
                }
                if v0.contains(x) {
                    let k = choose|k: int| 0 <= k < v0.len() && v0[k] == x;
                    assert(v@[k] == x);
                }
                if x == p {
                    assert(v@[v0.len() as int] == p);
                }
            }
        }
    }
    proof {
        if !p.spec_is_cur() {
            assert(v@.to_set() =~= old(v)@.to_set().insert(p));
        } else {
            assert(v@.to_set() =~= old(v)@.to_set());
        }
    }
}

/// The patches that the changes depend on, each once.
pub fn patch_deps(changes: &Changes) -> (r: Vec<PatchId>)
    ensures
        r@.no_duplicates(),
        r@.to_set() == dep_set(changes@),
{
    let ghost cs = changes@;
    let mut deps: Vec<PatchId> = Vec::new();
    let mut i: usize = 0;
    while i < changes.changes.len()
        invariant
            cs == changes@,
            i <= cs.len(),
            deps@.no_duplicates(),
            deps@.to_set() == dep_set(cs.take(i as int)),
        decreases cs.len() - i,
    {
        let ghost before = deps@.to_set();
        proof {
            assert(cs[i as int] == changes.changes@[i as int]@);
        }
        match &changes.changes[i] {
            Change::DeleteNode { id } => {
                add_dep(&mut deps, id.patch);
            },
            Change::NewEdge { src, dest } => {
                add_dep(&mut deps, src.patch);
                add_dep(&mut deps, dest.patch);
            },
            Change::NewNode { .. } => {},
        }
        proof {
            let t = cs.take(i + 1);
            assert forall|p: PatchId| dep_set(t).contains(p) <==> deps@.to_set().contains(p) by {
                if dep_set(t).contains(p) {
                    let j = choose|j: int| 0 <= j < t.len() && #[trigger] refers_to(t[j], p);
                    if j < i {
                        assert(cs.take(i as int)[j] == t[j]);
                        assert(dep_set(cs.take(i as int)).contains(p));
                    }
                }
                if before.contains(p) {
                    assert(dep_set(cs.take(i as int)).contains(p));
                    let j = choose|j: int| 0 <= j < i && #[trigger] refers_to(cs.take(i as int)[j], p);
                    assert(t[j] == cs.take(i as int)[j]);
                }
                if deps@.to_set().contains(p) && !before.contains(p) {
                    assert(refers_to(t[i as int], p));
                }
            }
            assert(deps@.to_set() =~= dep_set(t));
        }
        i = i + 1;
    }
    proof {
        assert(cs.take(cs.len() as int) =~= cs);
    }
    deps
}

/// Various metadata associated with a patch. It does not affect what the patch does, but it is
/// hashed with the rest of the patch: changing it gives a different patch.
#[derive(Clone, Debug, PartialEq, Eq, Hash)]
pub struct PatchHeader {
    /// The author of the patch.
    pub author: String,
    /// A description of the patch.
    pub description: String,
    /// The time at which the patch was created: whole seconds since the Unix epoch.
    pub timestamp: i64,
    /// The nanoseconds of the creation time beyond the whole seconds.
    pub timestamp_nanos: u32,
}

/// A patch without its id yet. Its changes refer to its own nodes through the placeholder id
/// [`PatchId::cur`]; it gets its real id, the hash of its serialized contents, when it is written
/// out.
#[derive(Clone, Debug, PartialEq, Eq, Hash)]
pub struct UnidentifiedPatch {
    changes: Changes,
    header: PatchHeader,
    deps: Vec<PatchId>,
}

impl UnidentifiedPatch {
    /// Creates a patch from some metadata and a set of changes, stamped with the time
    /// `timestamp` (whole seconds since the Unix epoch) and `timestamp_nanos` (the nanoseconds
    /// beyond them). Its dependencies are the patches whose nodes the changes refer to.
    pub fn new(author: String, description: String, changes: Changes, timestamp: i64, timestamp_nanos: u32) -> (r: UnidentifiedPatch)
        ensures
            r.spec_changes() == changes@,
            r.spec_header().author@ == author@,
            r.spec_header().description@ == description@,
            r.spec_header().timestamp == timestamp,
            r.spec_header().timestamp_nanos == timestamp_nanos,
            r.spec_deps().no_duplicates(),
            r.spec_deps().to_set() == dep_set(changes@),
    {
        let deps = patch_deps(&changes);
        UnidentifiedPatch {
            header: PatchHeader { author, description, timestamp, timestamp_nanos },
            changes,
            deps,
        }
    }

    /// Puts a patch back together from its parts (as read from a file).
    pub fn from_parts(changes: Changes, header: PatchHeader, deps: Vec<PatchId>) -> (r: UnidentifiedPatch)
        ensures
            r.spec_changes() == changes@,
            r.spec_header() == header,
            r.spec_deps() == deps@,
    {
        UnidentifiedPatch { changes, header, deps }
    }

    /// The changes.
    pub closed spec fn spec_changes(&self) -> Seq<ChangeView> {
        self.changes@
    }

    /// The metadata.
    pub closed spec fn spec_header(&self) -> PatchHeader {
        self.header
    }

    /// The dependencies.
    pub closed spec fn spec_deps(&self) -> Seq<PatchId> {
        self.deps@
    }

    /// The changes that this patch makes.
    pub fn changes(&self) -> (r: &Changes)
        ensures
            r@ == self.spec_changes(),
    {
        &self.changes
    }

    /// The metadata of this patch.
    pub fn header(&self) -> (r: &PatchHeader)
        ensures
            *r == self.spec_header(),
    {
        &self.header
    }

    /// The patches that this patch depends on.
    pub fn deps(&self) -> (r: &Vec<PatchId>)
        ensures
            r@ == self.spec_deps(),
    {
        &self.deps
    }

    /// Gives this patch the id `id`, which turns it into a [`Patch`]: its references to its own
    /// nodes now name `id`.
    pub fn set_id(self, id: PatchId) -> (r: Patch)
        ensures
            r.spec_id() == id,
            r.spec_header() == self.spec_header(),
            r.spec_deps() == self.spec_deps(),
            r.spec_changes() == self.spec_changes().map_values(|c: ChangeView| c.with_patch(id)),
    {
        let mut ret = Patch { id, header: self.header, changes: self.changes, deps: self.deps };
        ret.changes.set_patch_id(&id);
        ret
    }
}

/// A set of changes together with some metadata and a unique id.
#[derive(Clone, Debug, PartialEq, Eq, Hash)]
pub struct Patch {
    id: PatchId,
    header: PatchHeader,
    changes: Changes,
    deps: Vec<PatchId>,
}

impl Patch {
    /// The id.
    pub closed spec fn spec_id(&self) -> PatchId {
        self.id
    }

    /// The metadata.
    pub closed spec fn spec_header(&self) -> PatchHeader {
        self.header
    }

    /// The changes.
    pub closed spec fn spec_changes(&self) -> Seq<ChangeView> {
        self.changes@
    }

    /// The dependencies.
    pub closed spec fn spec_deps(&self) -> Seq<PatchId> {
        self.deps@
    }

    /// The unique id of this patch.
    pub fn id(&self) -> (r: &PatchId)
        ensures
            *r == self.spec_id(),
    {
        &self.id
    }

    /// The patch header.
    pub fn header(&self) -> (r: &PatchHeader)
        ensures
            *r == self.spec_header(),
    {
        &self.header
    }

    /// The changes that this patch makes.
    pub fn changes(&self) -> (r: &Changes)
        ensures
            r@ == self.spec_changes(),
    {
        &self.changes
    }

    /// The dependencies of this patch: they must all be applied before it is.
    pub fn deps(&self) -> (r: &Vec<PatchId>)
        ensures
            r@ == self.spec_deps(),
    {
        &self.deps
    }
}

/// Why a patch cannot be applied to a repository.
#[derive(Clone, Copy, Debug, PartialEq, Eq)]
pub enum PatchError {
    /// The patch depends on a patch that the repository does not know.
    MissingDep(PatchId),
    /// The patch refers to a node that it neither creates nor may see.
    UnknownNode(NodeId),
}

/// The nodes that the changes `cs` create.
pub open spec fn new_nodes(cs: Seq<ChangeView>) -> Set<NodeId> {
    Set::new(|n: NodeId| exists|i: int| 0 <= i < cs.len() && #[trigger] new_id(cs[i]) == Some(n))
}

/// A patch with the dependencies `deps` and the changes `cs` may refer to `n`: it creates `n`,
/// or the repository knows `n` and the patch depends on the patch of `n`.
pub open spec fn may_see(known_nodes: Seq<NodeId>, deps: Seq<PatchId>, cs: Seq<ChangeView>, n: NodeId) -> bool {
    new_nodes(cs).contains(n) || (known_nodes.contains(n) && deps.contains(n.patch))
}

/// The first node that the change `c` refers to without being allowed to, if there is one.
pub open spec fn unseen_node(known_nodes: Seq<NodeId>, deps: Seq<PatchId>, cs: Seq<ChangeView>, c: ChangeView) -> Option<NodeId> {
    match c {
        ChangeView::NewNode { id, .. } => if may_see(known_nodes, deps, cs, id) { None } else { Some(id) },
        ChangeView::DeleteNode { id } => if may_see(known_nodes, deps, cs, id) { None } else { Some(id) },
        ChangeView::NewEdge { src, dest } => if !may_see(known_nodes, deps, cs, src) {
            Some(src)
        } else if !may_see(known_nodes, deps, cs, dest) {
            Some(dest)
        } else {
            None
        },
    }
}

/// What checking a patch gives: the first dependency that the repository does not know, or
/// else the first node that a change refers to without being allowed to, or else success.
pub open spec fn validity(known_patches: Seq<PatchId>, known_nodes: Seq<NodeId>, deps: Seq<PatchId>, cs: Seq<ChangeView>) -> Result<(), PatchError> {
    if exists|i: int| 0 <= i < deps.len() && !known_patches.contains(#[trigger] deps[i]) {
        let i = choose|i: int| 0 <= i < deps.len() && !known_patches.contains(#[trigger] deps[i])
            && forall|j: int| 0 <= j < i ==> known_patches.contains(deps[j]);
        Err(PatchError::MissingDep(deps[i]))
    } else if exists|i: int| 0 <= i < cs.len() && (#[trigger] unseen_node(known_nodes, deps, cs, cs[i])) is Some {
        let i = choose|i: int| 0 <= i < cs.len() && (#[trigger] unseen_node(known_nodes, deps, cs, cs[i])) is Some
            && forall|j: int| 0 <= j < i ==> unseen_node(known_nodes, deps, cs, cs[j]) is None;
        Err(PatchError::UnknownNode(unseen_node(known_nodes, deps, cs, cs[i])->0))
    } else {
        Ok(())
    }
}

fn node_in(v: &Vec<NodeId>, n: &NodeId) -> (r: bool)
    ensures
        r == v@.contains(*n),
{
    let mut i: usize = 0;
    while i < v.len()
        invariant
            i <= v.len(),
            forall|j: int| 0 <= j < i ==> v@[j] != *n,
        decreases v.len() - i,
    {
        if v[i] == *n {
            return true;
        }
        i = i + 1;
    }
    false
}

/// The nodes that the changes create.
fn created_nodes(changes: &Changes) -> (r: Vec<NodeId>)
    ensures
        forall|n: NodeId| r@.contains(n) <==> new_nodes(changes@).contains(n),
{
    let ghost cs = changes@;
    let mut r: Vec<NodeId> = Vec::new();
    let mut i: usize = 0;
    while i < changes.changes.len()
        invariant
            cs == changes@,
            i <= cs.len(),
            forall|n: NodeId| r@.contains(n) <==> exists|j: int| 0 <= j < i && #[trigger] new_id(cs[j]) == Some(n),
        decreases cs.len() - i,
    {
        proof {
            assert(cs[i as int] == changes.changes@[i as int]@);
        }
        let ghost r0 = r@;
        match &changes.changes[i] {
            Change::NewNode { id, .. } => {
                r.push(*id);
                proof {
                    assert(new_id(cs[i as int]) == Some(*id));
                    assert forall|n: NodeId| r@.contains(n) <==> (r0.contains(n) || n == *id) by {
                        if r@.contains(n) {
                            let k = choose|k: int| 0 <= k < r@.len() && r@[k] == n;
                            if k < r0.len() {
                                assert(r0[k] == n);
                            }
                        }
                        if r0.contains(n) {
                            let k = choose|k: int| 0 <= k < r0.len() && r0[k] == n;
                            assert(r@[k] == n);
                        }
                        if n == *id {
                            assert(r@[r0.len() as int] == n);
                        }
                    }
                }
            },
            _ => {
                proof {
                    assert(new_id(cs[i as int]) is None);
                }
            },
        }
        proof {
            assert forall|n: NodeId| r@.contains(n) <==> exists|j: int| 0 <= j < i + 1 && #[trigger] new_id(cs[j]) == Some(n) by {
                if exists|j: int| 0 <= j < i + 1 && #[trigger] new_id(cs[j]) == Some(n) {
                    let j = choose|j: int| 0 <= j < i + 1 && #[trigger] new_id(cs[j]) == Some(n);
                    if j < i {
                        assert(r0.contains(n));
                    }
                }
                if r0.contains(n) {
                    let j = choose|j: int| 0 <= j < i && #[trigger] new_id(cs[j]) == Some(n);
                    assert(0 <= j < i + 1);
                }
            }
        }
        i = i + 1;
    }
    r
}

/// Checks that a patch can be applied to a repository that knows the patches `known_patches`
/// and the nodes `known_nodes`: every dependency is known, and every node that a change refers
/// to is created by the patch or is a known node of one of its dependencies.
pub fn check_patch_validity(
    known_patches: &Vec<PatchId>,
    known_nodes: &Vec<NodeId>,
    deps: &Vec<PatchId>,
    changes: &Changes,
) -> (r: Result<(), PatchError>)
    ensures
        r == validity(known_patches@, known_nodes@, deps@, changes@),
{
    let ghost kp = known_patches@;
    let ghost kn = known_nodes@;
    let ghost ds = deps@;
    let ghost cs = changes@;
    let mut i: usize = 0;
    while i < deps.len()
        invariant
            ds == deps@,
            kp == known_patches@,
            i <= ds.len(),
            forall|j: int| 0 <= j < i ==> kp.contains(ds[j]),
        decreases ds.len() - i,
    {
        if !patch_in(known_patches, &deps[i]) {
            proof {
                let k = choose|k: int| 0 <= k < ds.len() && !kp.contains(#[trigger] ds[k])
                    && forall|j: int| 0 <= j < k ==> kp.contains(ds[j]);
                assert(k == i) by {
                    if k < i {
                        assert(kp.contains(ds[k]));
                    }
                    if k > i {
                        assert(kp.contains(ds[i as int]));
                    }
                }
            }
            return Err(PatchError::MissingDep(deps[i]));
        }
        i = i + 1;
    }
    let created = created_nodes(changes);
    let mut i: usize = 0;
    while i < changes.changes.len()
        invariant
            ds == deps@,
            kp == known_patches@,
            kn == known_nodes@,
            cs == changes@,
            forall|j: int| 0 <= j < ds.len() ==> kp.contains(ds[j]),
            forall|n: NodeId| created@.contains(n) <==> new_nodes(cs).contains(n),
            i <= cs.len(),
            forall|j: int| 0 <= j < i ==> (#[trigger] unseen_node(kn, ds, cs, cs[j])) is None,
        decreases cs.len() - i,
    {
        proof {
            assert(cs[i as int] == changes.changes@[i as int]@);
        }
        let bad: Option<NodeId> = match &changes.changes[i] {
            Change::NewNode { id, .. } => if may_see_exec(&created, known_nodes, deps, id) {
                None
            } else {
                Some(*id)
            },
            Change::DeleteNode { id } => if may_see_exec(&created, known_nodes, deps, id) {
                None
            } else {
                Some(*id)
            },
            Change::NewEdge { src, dest } => if !may_see_exec(&created, known_nodes, deps, src) {
                Some(*src)
            } else if !may_see_exec(&created, known_nodes, deps, dest) {
                Some(*dest)
            } else {
                None
            },
        };
        proof {
            assert(bad == unseen_node(kn, ds, cs, cs[i as int]));
        }
        if let Some(n) = bad {
            proof {
                assert(!(exists|k: int| 0 <= k < ds.len() && !kp.contains(#[trigger] ds[k])));
                assert(unseen_node(kn, ds, cs, cs[i as int]) is Some);
                let k = choose|k: int| 0 <= k < cs.len() && (#[trigger] unseen_node(kn, ds, cs, cs[k])) is Some
                    && forall|j: int| 0 <= j < k ==> unseen_node(kn, ds, cs, cs[j]) is None;
                assert(k == i) by {
                    if k > i {
                        assert(unseen_node(kn, ds, cs, cs[i as int]) is None);
                    }
                }
            }
            return Err(PatchError::UnknownNode(n));
        }
        i = i + 1;
    }
    proof {
        assert(!(exists|k: int| 0 <= k < ds.len() && !kp.contains(#[trigger] ds[k])));
        assert(!(exists|k: int| 0 <= k < cs.len() && (#[trigger] unseen_node(kn, ds, cs, cs[k])) is Some));
    }
    Ok(())
}

/// May a patch with the dependencies `deps`, which creates the nodes `created`, refer to `n`?
fn may_see_exec(created: &Vec<NodeId>, known_nodes: &Vec<NodeId>, deps: &Vec<PatchId>, n: &NodeId) -> (r: bool)
    ensures
        r == (created@.contains(*n) || (known_nodes@.contains(*n) && deps@.contains(n.patch))),
{
    node_in(created, n) || (node_in(known_nodes, n) && patch_in(deps, &n.patch))
}

} // verus!
