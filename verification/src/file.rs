//! Files: graggles whose nodes are in a linear order.

use vstd::prelude::*;

use crate::ids::NodeId;
use crate::storage::Storage;

verus! {

/// The byte value of `'\n'`.
pub const NEWLINE: u8 = 10;

/// The positions just after each newline in `bytes`, in increasing order.
pub open spec fn newline_ends(bytes: Seq<u8>) -> Seq<usize>
    decreases bytes.len(),
{
    if bytes.len() == 0 {
        Seq::empty()
    } else if bytes.last() == NEWLINE {
        newline_ends(bytes.drop_last()).push(bytes.len() as usize)
    } else {
        newline_ends(bytes.drop_last())
    }
}

/// The boundaries between the lines of `bytes`: the start of the file, the position after every
/// newline and, if the file does not end with a newline, the end of the file.
pub open spec fn line_boundaries(bytes: Seq<u8>) -> Seq<usize> {
    let ends = seq![0usize] + newline_ends(bytes);
    if bytes.len() > 0 && bytes.last() != NEWLINE {
        ends.push(bytes.len() as usize)
    } else {
        ends
    }
}

proof fn lemma_newline_ends(bytes: Seq<u8>)
    requires
        bytes.len() <= usize::MAX,
    ensures
        forall|i: int| 0 <= i < newline_ends(bytes).len() ==> 1 <= #[trigger] newline_ends(bytes)[i] <= bytes.len()
            && bytes[newline_ends(bytes)[i] - 1] == NEWLINE,
        forall|i: int, j: int| 0 <= i < j < newline_ends(bytes).len() ==> #[trigger] newline_ends(bytes)[i]
            < #[trigger] newline_ends(bytes)[j],
        forall|k: int| 0 <= k < bytes.len() && bytes[k] == NEWLINE ==> #[trigger] newline_ends(bytes).contains((k + 1) as usize),
    decreases bytes.len(),
{
    if bytes.len() > 0 {
        let init = bytes.drop_last();
        lemma_newline_ends(init);
        let e0 = newline_ends(init);
        let e = newline_ends(bytes);
        assert forall|k: int| 0 <= k < bytes.len() && bytes[k] == NEWLINE implies #[trigger] e.contains((k + 1) as usize) by {
            if k < init.len() {
                assert(init[k] == bytes[k]);
                assert(e0.contains((k + 1) as usize));
                let m = choose|m: int| 0 <= m < e0.len() && e0[m] == (k + 1) as usize;
                assert(e[m] == e0[m]);
            } else {
                assert(e[e.len() - 1] == bytes.len());
            }
        }
        assert forall|i: int| 0 <= i < e.len() implies 1 <= #[trigger] e[i] <= bytes.len() && bytes[e[i] - 1] == NEWLINE by {
            if i < e0.len() {
                assert(e[i] == e0[i]);
                assert(init[e0[i] - 1] == bytes[e0[i] - 1]);
            }
        }
    }
}

/// What splitting into lines does: the boundaries start at 0, end at the end of the bytes and
/// grow strictly; there is a boundary just after every newline; and each line holds no
/// newline but possibly its last byte, and every line but the last ends with a newline.
pub proof fn lemma_line_boundaries(bytes: Seq<u8>)
    requires
        bytes.len() <= usize::MAX,
    ensures
        line_boundaries(bytes).len() >= 1,
        line_boundaries(bytes)[0] == 0,
        line_boundaries(bytes).last() == bytes.len(),
        forall|i: int, j: int| 0 <= i < j < line_boundaries(bytes).len() ==> #[trigger] line_boundaries(bytes)[i]
            < #[trigger] line_boundaries(bytes)[j],
        forall|k: int| 0 <= k < bytes.len() && bytes[k] == NEWLINE ==> #[trigger] line_boundaries(bytes).contains((k + 1) as usize),
        forall|j: int, k: int| #![trigger line_boundaries(bytes)[j], bytes[k]]
            0 <= j < line_boundaries(bytes).len() - 1 && line_boundaries(bytes)[j] <= k < line_boundaries(bytes)[j + 1] - 1
            ==> bytes[k] != NEWLINE,
        forall|j: int| 0 <= j < line_boundaries(bytes).len() - 2 ==> bytes[#[trigger] line_boundaries(bytes)[j + 1] - 1] == NEWLINE,
{
    lemma_newline_ends(bytes);
    let e = newline_ends(bytes);
    let b = line_boundaries(bytes);
    let ends = seq![0usize] + e;
    if bytes.len() > 0 {
        if bytes.last() == NEWLINE {
            let k = bytes.len() - 1;
            assert(bytes[k] == NEWLINE);
            assert(e.contains((k + 1) as usize));
            let m = choose|m: int| 0 <= m < e.len() && e[m] == (k + 1) as usize;
            if m < e.len() - 1 {
                assert(e[m] < e[e.len() - 1]);
            }
            assert(b.last() == bytes.len());
        }
    } else {
        assert(e.len() == 0);
    }
    assert forall|i: int, j: int| 0 <= i < j < b.len() implies #[trigger] b[i] < #[trigger] b[j] by {
        if j < ends.len() {
            if i > 0 {
                assert(b[i] == e[i - 1] && b[j] == e[j - 1]);
            } else {
                assert(b[j] == e[j - 1]);
            }
        } else {
            if i > 0 {
                assert(b[i] == e[i - 1]);
                assert(bytes[e[i - 1] - 1] == NEWLINE);
                assert(e[i - 1] < bytes.len());
            }
        }
    }
    assert forall|k: int| 0 <= k < bytes.len() && bytes[k] == NEWLINE implies #[trigger] b.contains((k + 1) as usize) by {
        assert(e.contains((k + 1) as usize));
        let m = choose|m: int| 0 <= m < e.len() && e[m] == (k + 1) as usize;
        assert(ends[m + 1] == e[m]);
        assert(b[m + 1] == e[m]);
    }
    assert forall|j: int, k: int| #![trigger b[j], bytes[k]] 0 <= j < b.len() - 1 && b[j] <= k < b[j + 1] - 1
        implies bytes[k] != NEWLINE by {
        if bytes[k] == NEWLINE {
            assert(b.contains((k + 1) as usize));
            let m = choose|m: int| 0 <= m < b.len() && b[m] == (k + 1) as usize;
            if m <= j {
                if m < j {
                    assert(b[m] < b[j]);
                }
            } else if m == j + 1 {
            } else {
                assert(b[j + 1] < b[m]);
            }
        }
    }
    assert forall|j: int| 0 <= j < b.len() - 2 implies bytes[#[trigger] b[j + 1] - 1] == NEWLINE by {
        assert(b[j + 1] == e[j]);
    }
}

/// `line` is one line of a file: it is not empty, it holds no newline but possibly as its
/// last byte, and unless it is the last line it ends with a newline.
pub open spec fn is_line(line: Seq<u8>, last: bool) -> bool {
    &&& line.len() > 0
    &&& forall|k: int| 0 <= k < line.len() - 1 ==> #[trigger] line[k] != NEWLINE
    &&& !last ==> line.last() == NEWLINE
}

/// Each line between two boundaries is a line.
proof fn lemma_lines_are_lines(bytes: Seq<u8>, i: int)
    requires
        bytes.len() <= usize::MAX,
        0 <= i < line_boundaries(bytes).len() - 1,
    ensures
        is_line(bytes.subrange(line_boundaries(bytes)[i] as int, line_boundaries(bytes)[i + 1] as int),
            i == line_boundaries(bytes).len() - 2),
{
    lemma_line_boundaries(bytes);
    let b = line_boundaries(bytes);
    let line = bytes.subrange(b[i] as int, b[i + 1] as int);
    assert(b[i] < b[i + 1]);
    assert forall|k: int| 0 <= k < line.len() - 1 implies #[trigger] line[k] != NEWLINE by {
        assert(line[k] == bytes[b[i] + k]);
        assert(b[i] <= b[i] + k < b[i + 1] - 1);
    }
    if i < b.len() - 2 {
        assert(bytes[b[i + 1] - 1] == NEWLINE);
        assert(line.last() == bytes[b[i + 1] - 1]);
    }
}

/// Cutting `bytes` at the boundaries `b` and putting the first `m` pieces back together gives
/// the bytes up to the `m`-th boundary.
proof fn lemma_pieces_flatten(bytes: Seq<u8>, b: Seq<usize>, m: int)
    requires
        b.len() >= 1,
        b[0] == 0,
        forall|i: int, j: int| 0 <= i < j < b.len() ==> #[trigger] b[i] < #[trigger] b[j],
        b.last() == bytes.len(),
        0 <= m < b.len(),
    ensures
        Seq::new(m as nat, |i: int| bytes.subrange(b[i] as int, b[i + 1] as int)).flatten_alt() == bytes.subrange(0, b[m] as int),
    decreases m,
{
    let pieces = Seq::new(m as nat, |i: int| bytes.subrange(b[i] as int, b[i + 1] as int));
    if m == 0 {
        assert(bytes.subrange(0, 0) =~= Seq::<u8>::empty());
    } else {
        lemma_pieces_flatten(bytes, b, m - 1);
        let prev = Seq::new((m - 1) as nat, |i: int| bytes.subrange(b[i] as int, b[i + 1] as int));
        assert(pieces.drop_last() =~= prev);
        if m < b.len() - 1 {
            assert(b[m] < b[b.len() - 1]);
        }
        if m - 1 > 0 {
            assert(b[0] < b[m - 1]);
        }
        assert(b[m - 1] < b[m]);
        assert(bytes.subrange(0, b[m - 1] as int) + bytes.subrange(b[m - 1] as int, b[m] as int) =~= bytes.subrange(0, b[m] as int));
    }
}

/// Copies a slice of bytes into a new vector.
pub fn copy_bytes(s: &[u8]) -> (r: Vec<u8>)
    ensures
        r@ == s@,
{
    let mut r: Vec<u8> = Vec::new();
    let mut i: usize = 0;
    while i < s.len()
        invariant
            i <= s.len(),
            r@ == s@.take(i as int),
        decreases s.len() - i,
    {
        r.push(s[i]);
        i = i + 1;
        assert(r@ =~= s@.take(i as int));
    }
    assert(s@.take(s.len() as int) =~= s@);
    r
}

/// The `k`-th boundary of a file under construction: `b[k]`, or the length `total` of the
/// contents after the last one.
pub open spec fn bound(b: Seq<usize>, total: nat, k: int) -> int {
    if k < b.len() {
        b[k] as int
    } else {
        total as int
    }
}

/// A `File` is a special case of a graggle, in which there is just a linear order.
///
/// This struct offers convenient (read-only) access to a `File`, allowing the contents and ids of
/// nodes to be accessed by indexing.
#[derive(Clone, Debug)]
pub struct File {
    ids: Vec<NodeId>,
    // The contents of the file, in one long vector.
    contents: Vec<u8>,
    // The ith node is in contents[boundaries[i]..boundaries[i+1]]. In particular, boundaries is
    // always one longer than ids.
    boundaries: Vec<usize>,
}

impl File {
    /// The ids of the nodes of this file.
    pub closed spec fn spec_ids(&self) -> Seq<NodeId> {
        self.ids@
    }

    /// The contents of this file.
    pub closed spec fn spec_contents(&self) -> Seq<u8> {
        self.contents@
    }

    /// The positions in the contents at which the nodes begin, followed by the end of the
    /// contents.
    pub closed spec fn spec_boundaries(&self) -> Seq<usize> {
        self.boundaries@
    }

    /// The number of nodes of this file.
    pub open spec fn spec_num_nodes(&self) -> nat {
        self.spec_ids().len()
    }

    /// The contents of the node at index `i`.
    pub open spec fn spec_node(&self, i: int) -> Seq<u8> {
        self.spec_contents().subrange(
            self.spec_boundaries()[i] as int,
            self.spec_boundaries()[i + 1] as int,
        )
    }

    /// The boundaries partition the contents into one part per node.
    pub open spec fn wf(&self) -> bool {
        &&& self.spec_boundaries().len() == self.spec_ids().len() + 1
        &&& self.spec_boundaries()[0] == 0
        &&& self.spec_boundaries().last() == self.spec_contents().len()
        &&& forall|i: int, j: int|
            0 <= i <= j < self.spec_boundaries().len() ==> #[trigger] self.spec_boundaries()[i]
                <= #[trigger] self.spec_boundaries()[j]
    }

    /// Creates a `File` from the raw bytes, by dividing them into lines.
    ///
    /// The `NodeId`s are synthesized: they have the id of the patch under construction, and their
    /// node indices are consecutive, starting from zero.
    pub fn from_bytes(bytes: &[u8]) -> (r: File)
        ensures
            r.wf(),
            r.spec_contents() == bytes@,
            r.spec_boundaries() == line_boundaries(bytes@),
            forall|i: int|
                0 <= i < r.spec_num_nodes() ==> (#[trigger] r.spec_ids()[i]).patch.spec_is_cur()
                    && r.spec_ids()[i].node == i,
            forall|k: int| 0 <= k < bytes@.len() && bytes@[k] == NEWLINE ==> #[trigger] r.spec_boundaries().contains((k + 1) as usize),
            forall|i: int| 0 <= i < r.spec_num_nodes() ==> is_line(#[trigger] r.spec_node(i), i == r.spec_num_nodes() - 1),
            Seq::new(r.spec_num_nodes(), |i: int| r.spec_node(i)).flatten() == bytes@,
    {
        let mut contents: Vec<u8> = Vec::new();
        let mut boundaries: Vec<usize> = Vec::new();
        boundaries.push(0);
        let mut i: usize = 0;
        while i < bytes.len()
            invariant
                i <= bytes.len(),
                contents@ == bytes@.take(i as int),
                boundaries@ == seq![0usize] + newline_ends(bytes@.take(i as int)),
                boundaries@.len() >= 1,
                boundaries@[0] == 0,
                forall|j: int|
                    0 <= j < boundaries@.len() ==> #[trigger] boundaries@[j] <= i,
                forall|j: int, k: int|
                    0 <= j <= k < boundaries@.len() ==> #[trigger] boundaries@[j]
                        <= #[trigger] boundaries@[k],
            decreases bytes.len() - i,
        {
            let b = bytes[i];
            contents.push(b);
            proof {
                assert(bytes@.take(i + 1).drop_last() =~= bytes@.take(i as int));
                assert(contents@ =~= bytes@.take(i + 1));
            }
            if b == NEWLINE {
                boundaries.push(i + 1);
            }
            i = i + 1;
            proof {
                let t = bytes@.take(i as int);
                assert(t.last() == b);
                if b == NEWLINE {
                    assert(boundaries@ =~= seq![0usize] + newline_ends(t));
                } else {
                    assert(boundaries@ =~= seq![0usize] + newline_ends(t));
                }
            }
        }
        assert(bytes@.take(bytes.len() as int) =~= bytes@);
        if bytes.len() > 0 && bytes[bytes.len() - 1] != NEWLINE {
            boundaries.push(bytes.len());
        }
        assert(boundaries@ == line_boundaries(bytes@));
        if bytes.len() > 0 && bytes[bytes.len() - 1] == NEWLINE {
            assert(boundaries@.last() == bytes.len());
        }
        let mut ids: Vec<NodeId> = Vec::new();
        let n = boundaries.len() - 1;
        let mut k: usize = 0;
        while k < n
            invariant
                k <= n,
                n < boundaries@.len(),
                ids@.len() == k,
                forall|j: int|
                    0 <= j < k ==> (#[trigger] ids@[j]).patch.spec_is_cur() && ids@[j].node == j,
            decreases n - k,
        {
            ids.push(NodeId::cur(k as u64));
            k = k + 1;
        }
        let r = File { ids, contents, boundaries };
        proof {
            lemma_line_boundaries(bytes@);
            assert forall|i: int| 0 <= i < r.spec_num_nodes() implies is_line(#[trigger] r.spec_node(i), i == r.spec_num_nodes() - 1) by {
                lemma_lines_are_lines(bytes@, i);
            }
            let b = line_boundaries(bytes@);
            let m = b.len() - 1;
            lemma_pieces_flatten(bytes@, b, m);
            let pieces = Seq::new(m as nat, |i: int| bytes@.subrange(b[i] as int, b[i + 1] as int));
            assert(Seq::new(r.spec_num_nodes(), |i: int| r.spec_node(i)) =~= pieces);
            pieces.lemma_flatten_and_flatten_alt_are_equivalent();
            assert(bytes@.subrange(0, b[m] as int) =~= bytes@);
        }
        r
    }

    /// The file made of the stored lines `ids`, in this order.
    pub fn from_ids(ids: &Vec<NodeId>, storage: &Storage) -> (r: File)
        requires
            storage.wf(),
            forall|i: int| 0 <= i < ids@.len() ==> storage.spec_contents().contains_key(#[trigger] ids@[i]),
        ensures
            r.wf(),
            r.spec_ids() == ids@,
            forall|i: int| 0 <= i < ids@.len() ==> #[trigger] r.spec_node(i) == storage.spec_contents()[ids@[i]],
    {
        let mut contents: Vec<u8> = Vec::new();
        let mut boundaries: Vec<usize> = Vec::new();
        let mut out: Vec<NodeId> = Vec::new();
        let mut i: usize = 0;
        while i < ids.len()
            invariant
                storage.wf(),
                forall|k: int| 0 <= k < ids@.len() ==> storage.spec_contents().contains_key(#[trigger] ids@[k]),
                i <= ids@.len(),
                out@ == ids@.take(i as int),
                boundaries@.len() == i,
                forall|a: int, b: int| 0 <= a <= b <= i ==> #[trigger] bound(boundaries@, contents@.len(), a)
                    <= #[trigger] bound(boundaries@, contents@.len(), b),
                bound(boundaries@, contents@.len(), 0) == 0,
                forall|k: int| 0 <= k < i ==> #[trigger] contents@.subrange(
                    bound(boundaries@, contents@.len(), k),
                    bound(boundaries@, contents@.len(), k + 1),
                ) == storage.spec_contents()[ids@[k]],
            decreases ids@.len() - i,
        {
            let ghost b0 = boundaries@;
            let ghost c0 = contents@;
            boundaries.push(contents.len());
            let c = storage.contents(&ids[i]);
            let mut t: usize = 0;
            while t < c.len()
                invariant
                    t <= c@.len(),
                    contents@ == c0 + c@.take(t as int),
                decreases c@.len() - t,
            {
                contents.push(c[t]);
                t = t + 1;
                proof {
                    assert(contents@ =~= c0 + c@.take(t as int));
                }
            }
            out.push(ids[i]);
            proof {
                assert(c@.take(c@.len() as int) =~= c@);
                assert(out@ =~= ids@.take(i + 1));
                let b1 = boundaries@;
                let n1 = contents@.len();
                assert forall|k: int| 0 <= k <= i implies #[trigger] bound(b1, n1, k) == bound(b0, c0.len(), k) by {}
                assert forall|a: int, b: int| 0 <= a <= b <= i + 1 implies #[trigger] bound(b1, n1, a) <= #[trigger] bound(b1, n1, b) by {
                    if b <= i {
                        assert(bound(b0, c0.len(), a) <= bound(b0, c0.len(), b));
                    } else if a <= i {
                        assert(bound(b0, c0.len(), a) <= bound(b0, c0.len(), i as int));
                    }
                }
                assert forall|k: int| 0 <= k < i + 1 implies #[trigger] contents@.subrange(bound(b1, n1, k), bound(b1, n1, k + 1))
                    == storage.spec_contents()[ids@[k]] by {
                    if k < i {
                        assert(bound(b0, c0.len(), k) <= bound(b0, c0.len(), k + 1));
                        assert(bound(b0, c0.len(), k + 1) <= bound(b0, c0.len(), i as int));
                        assert(contents@.subrange(bound(b1, n1, k), bound(b1, n1, k + 1))
                            =~= c0.subrange(bound(b0, c0.len(), k), bound(b0, c0.len(), k + 1)));
                    } else {
                        assert(contents@.subrange(bound(b1, n1, k), bound(b1, n1, k + 1)) =~= c@);
                    }
                }
                if i == 0 {
                    assert(bound(b0, c0.len(), 0) == 0);
                    assert(bound(b1, n1, 0) == 0);
                }
            }
            i = i + 1;
        }
        let ghost bf = boundaries@;
        let ghost nf = contents@.len();
        boundaries.push(contents.len());
        let r = File { ids: out, contents, boundaries };
        proof {
            assert(ids@.take(ids@.len() as int) =~= ids@);
            assert forall|k: int| 0 <= k < r.spec_boundaries().len() implies #[trigger] r.spec_boundaries()[k] == bound(bf, nf, k) by {}
            assert forall|k: int| 0 <= k < ids@.len() implies #[trigger] r.spec_node(k) == storage.spec_contents()[ids@[k]] by {
                assert(r.spec_boundaries()[k] == bound(bf, nf, k));
                assert(r.spec_boundaries()[k + 1] == bound(bf, nf, k + 1));
            }
            assert(r.spec_boundaries()[0] == bound(bf, nf, 0));
            assert forall|a: int, b: int| 0 <= a <= b < r.spec_boundaries().len() implies #[trigger] r.spec_boundaries()[a]
                <= #[trigger] r.spec_boundaries()[b] by {
                assert(bound(bf, nf, a) <= bound(bf, nf, b));
            }
        }
        r
    }

    /// How many nodes does this file have?
    pub fn num_nodes(&self) -> (r: usize)
        ensures
            r == self.spec_num_nodes(),
    {
        self.ids.len()
    }

    /// How many lines does this file have? (Lines and nodes are the same thing.)
    pub fn num_lines(&self) -> (r: usize)
        ensures
            r == self.spec_num_nodes(),
    {
        self.ids.len()
    }

    /// Gets the contents of the node at the given index. This includes the `\n` character, if
    /// there was one.
    pub fn node(&self, idx: usize) -> (r: &[u8])
        requires
            self.wf(),
            idx < self.spec_num_nodes(),
        ensures
            r@ == self.spec_node(idx as int),
    {
        let n = self.boundaries.len();
        assert(idx + 1 < n);
        let start = self.boundaries[idx];
        let end = self.boundaries[idx + 1];
        &self.contents.as_slice()[start..end]
    }

    /// Gets the contents of the line at the given index (the same as [`File::node`]).
    pub fn line(&self, idx: usize) -> (r: &[u8])
        requires
            self.wf(),
            idx < self.spec_num_nodes(),
        ensures
            r@ == self.spec_node(idx as int),
    {
        self.node(idx)
    }

    /// Gets the id of the node at the given index.
    pub fn node_id(&self, idx: usize) -> (r: &NodeId)
        requires
            idx < self.spec_num_nodes(),
        ensures
            *r == self.spec_ids()[idx as int],
    {
        &self.ids[idx]
    }

    /// Gets the id of the line at the given index (the same as [`File::node_id`]).
    pub fn line_id(&self, idx: usize) -> (r: &NodeId)
        requires
            idx < self.spec_num_nodes(),
        ensures
            *r == self.spec_ids()[idx as int],
    {
        self.node_id(idx)
    }

    /// Gets the whole file, as an array of bytes.
    pub fn as_bytes(&self) -> (r: &[u8])
        ensures
            r@ == self.spec_contents(),
    {
        self.contents.as_slice()
    }

    /// The positions in the contents at which the nodes begin, followed by the end of the
    /// contents.
    pub fn boundaries(&self) -> (r: &Vec<usize>)
        ensures
            r@ == self.spec_boundaries(),
    {
        &self.boundaries
    }

    /// The ids of the nodes of this file.
    pub fn ids(&self) -> (r: &Vec<NodeId>)
        ensures
            r@ == self.spec_ids(),
    {
        &self.ids
    }
}

/// Splits `input` into its lines, each with its `\n` where it has one: the pieces between
/// the [`line_boundaries`] of `input`. Empty input is one empty line.
pub fn lines(input: &[u8]) -> (r: Vec<Vec<u8>>)
    ensures
        input@.len() == 0 ==> r@.len() == 1 && r@[0]@.len() == 0,
        input@.len() > 0 ==> {
            let b = line_boundaries(input@);
            &&& r@.len() == b.len() - 1
            &&& forall|i: int| 0 <= i < r@.len() ==> (#[trigger] r@[i])@ == input@.subrange(b[i] as int, b[i + 1] as int)
            &&& forall|i: int| 0 <= i < r@.len() ==> is_line((#[trigger] r@[i])@, i == r@.len() - 1)
        },
        r@.map_values(|v: Vec<u8>| v@).flatten() == input@,
{
    let mut r: Vec<Vec<u8>> = Vec::new();
    if input.len() == 0 {
        r.push(Vec::new());
        proof {
            let s = r@.map_values(|v: Vec<u8>| v@);
            assert(s.len() == 1);
            s.lemma_flatten_one_element();
            assert(s.first() =~= input@);
        }
        return r;
    }
    let f = File::from_bytes(input);
    let n = f.num_nodes();
    let mut i: usize = 0;
    while i < n
        invariant
            f.wf(),
            f.spec_contents() == input@,
            f.spec_boundaries() == line_boundaries(input@),
            n == f.spec_num_nodes(),
            i <= n,
            r@.len() == i,
            forall|j: int| 0 <= j < i ==> (#[trigger] r@[j])@ == f.spec_node(j),
        decreases n - i,
    {
        r.push(copy_bytes(f.node(i)));
        i = i + 1;
    }
    proof {
        let b = line_boundaries(input@);
        lemma_line_boundaries(input@);
        assert forall|i: int| 0 <= i < r@.len() implies is_line((#[trigger] r@[i])@, i == r@.len() - 1) by {
            lemma_lines_are_lines(input@, i);
        }
        let m = b.len() - 1;
        lemma_pieces_flatten(input@, b, m);
        let pieces = Seq::new(m as nat, |i: int| input@.subrange(b[i] as int, b[i + 1] as int));
        assert(r@.map_values(|v: Vec<u8>| v@) =~= pieces);
        pieces.lemma_flatten_and_flatten_alt_are_equivalent();
        assert(input@.subrange(0, b[m] as int) =~= input@);
    }
    r
}

} // verus!
