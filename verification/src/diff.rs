//! Line-based diffs between two files (the "patience" diff).

use vstd::prelude::*;
use vstd::laws_eq::obeys_view_eq;

use crate::lis::{is_increasing_subseq, is_patience_choice, longest_increasing_subsequence};


verus! {

/// One line of a diff.
#[derive(Clone, Copy, Debug, PartialEq, Eq, Hash, Structural)]
pub enum LineDiff {
    /// This line was introduced in the second file, and the `usize` is the line number in the
    /// second file.
    New(usize),
    /// This line was in the first file, but got deleted.
    Delete(usize),
    /// This line was present in both files; the first `usize` is the line number in the first
    /// file, and the second is the line number in the second file.
    Keep(usize, usize),
}

/// The views of the elements of a sequence.
pub open spec fn views<T: View>(s: Seq<T>) -> Seq<T::V> {
    s.map_values(|x: T| x@)
}

/// The line numbers of the first file that a diff mentions, in order.
pub open spec fn src_indices(d: Seq<LineDiff>) -> Seq<int>
    decreases d.len(),
{
    if d.len() == 0 {
        Seq::empty()
    } else {
        let p = src_indices(d.drop_last());
        match d.last() {
            LineDiff::New(_) => p,
            LineDiff::Delete(i) => p.push(i as int),
            LineDiff::Keep(i, _) => p.push(i as int),
        }
    }
}

/// The line numbers of the second file that a diff mentions, in order.
pub open spec fn dst_indices(d: Seq<LineDiff>) -> Seq<int>
    decreases d.len(),
{
    if d.len() == 0 {
        Seq::empty()
    } else {
        let p = dst_indices(d.drop_last());
        match d.last() {
            LineDiff::New(j) => p.push(j as int),
            LineDiff::Delete(_) => p,
            LineDiff::Keep(_, j) => p.push(j as int),
        }
    }
}

/// The sequence `0, 1, ..., n - 1`.
pub open spec fn upto(n: int) -> Seq<int> {
    Seq::new(n as nat, |i: int| i)
}

/// A kept line joins two equal lines.
pub open spec fn keep_ok<V>(a: Seq<V>, b: Seq<V>, x: LineDiff) -> bool {
    match x {
        LineDiff::Keep(i, j) => i < a.len() && j < b.len() && a[i as int] == b[j as int],
        _ => true,
    }
}

/// `d` is a valid diff between the first `pa` lines of `a` and the first `pb` lines of `b`.
pub open spec fn diff_upto<V>(a: Seq<V>, b: Seq<V>, d: Seq<LineDiff>, pa: int, pb: int) -> bool {
    &&& 0 <= pa
    &&& 0 <= pb
    &&& src_indices(d) == upto(pa)
    &&& dst_indices(d) == upto(pb)
    &&& forall|k: int| 0 <= k < d.len() ==> #[trigger] keep_ok(a, b, d[k])
}

/// A diff between `a` and `b` is valid if every line of `a` appears exactly once, in increasing
/// order, every line of `b` appears exactly once, in increasing order, and every kept line joins
/// two equal lines.
pub open spec fn is_valid_diff<V>(a: Seq<V>, b: Seq<V>, d: Seq<LineDiff>) -> bool {
    diff_upto(a, b, d, a.len() as int, b.len() as int)
}

/// The length of the longest common prefix of `a` and `b`.
pub open spec fn spec_prefix_len<V>(a: Seq<V>, b: Seq<V>) -> nat
    decreases a.len(),
{
    if a.len() == 0 || b.len() == 0 || a[0] != b[0] {
        0
    } else {
        1 + spec_prefix_len(a.drop_first(), b.drop_first())
    }
}

/// The length of the longest common suffix of `a` and `b`.
pub open spec fn spec_suffix_len<V>(a: Seq<V>, b: Seq<V>) -> nat
    decreases a.len(),
{
    if a.len() == 0 || b.len() == 0 || a.last() != b.last() {
        0
    } else {
        1 + spec_suffix_len(a.drop_last(), b.drop_last())
    }
}

/// The element `i` places from the end of `s`.
pub open spec fn from_end<V>(s: Seq<V>, i: int) -> V {
    s[s.len() - 1 - i]
}

/// The number of times `x` occurs in `s`.
pub open spec fn count_of<V>(s: Seq<V>, x: V) -> nat
    decreases s.len(),
{
    if s.len() == 0 {
        0
    } else {
        count_of(s.drop_last(), x) + if s.last() == x { 1nat } else { 0nat }
    }
}

/// `n` consecutive kept lines starting at `a_off` and `b_off`.
pub open spec fn keeps(n: nat, a_off: int, b_off: int) -> Seq<LineDiff> {
    Seq::new(n, |i: int| LineDiff::Keep((a_off + i) as usize, (b_off + i) as usize))
}

/// `n` consecutive deleted lines starting at `a_off`.
pub open spec fn deletes(n: nat, a_off: int) -> Seq<LineDiff> {
    Seq::new(n, |i: int| LineDiff::Delete((a_off + i) as usize))
}

/// `n` consecutive new lines starting at `b_off`.
pub open spec fn news(n: nat, b_off: int) -> Seq<LineDiff> {
    Seq::new(n, |i: int| LineDiff::New((b_off + i) as usize))
}

/// The diff that keeps the common prefix and suffix of `a` and `b` and marks everything else as
/// changed; line numbers are shifted by `a_off` and `b_off`.
pub open spec fn ends_diff<V>(a: Seq<V>, a_off: int, b: Seq<V>, b_off: int) -> Seq<LineDiff> {
    let p = spec_prefix_len(a, b);
    let s = spec_suffix_len(a.skip(p as int), b.skip(p as int));
    let am = (a.len() - p - s) as nat;
    let bm = (b.len() - p - s) as nat;
    keeps(p, a_off, b_off) + deletes(am, a_off + p) + news(bm, b_off + p) + keeps(
        s,
        a_off + p + am,
        b_off + p + bm,
    )
}

/// `ua` lists, in increasing order, the positions in `a` of the lines that occur exactly once in
/// each of `a` and `b`, and `ub[k]` is the position in `b` of the line at `ua[k]`.
pub open spec fn unique_pairs<V>(a: Seq<V>, b: Seq<V>, ua: Seq<usize>, ub: Seq<usize>) -> bool {
    &&& ua.len() == ub.len()
    &&& forall|k: int| 0 <= k < ua.len() ==> #[trigger] ua[k] < a.len() && ub[k] < b.len() && a[ua[k] as int] == b[ub[k] as int]
    &&& forall|k: int, l: int| 0 <= k < l < ua.len() ==> #[trigger] ua[k] < #[trigger] ua[l]
    &&& forall|i: int| 0 <= i < a.len() ==> (ua.contains(i as usize) <==> unique_in_both(a, b, i))
}

/// `r` is the patience diff of `a` and `b`: between their common prefix and suffix, the lines
/// that occur exactly once in each file are the anchors, the longest increasing run of them
/// that patience sorting picks is kept, and each chunk between kept anchors is diffed by its
/// common prefix and suffix.
#[verifier::opaque]
pub open spec fn is_patience_diff<V>(a: Seq<V>, b: Seq<V>, r: Seq<LineDiff>) -> bool {
    let p = spec_prefix_len(a, b);
    let s = spec_suffix_len(a.skip(p as int), b.skip(p as int));
    exists|ua: Seq<usize>, ub: Seq<usize>, lis: Seq<usize>|
        #![trigger patience_diff(a, b, ua, ub, lis)]
        unique_pairs(a.subrange(p as int, a.len() - s), b.subrange(p as int, b.len() - s), ua, ub)
        && is_longest_increasing(ub, lis)
        && r == patience_diff(a, b, ua, ub, lis)
}

/// Appends `n` kept lines, the first at `a_off` in the old file and at `b_off` in the new one.
fn push_keeps(ret: &mut Vec<LineDiff>, a_off: usize, b_off: usize, n: usize)
    requires
        a_off + n <= usize::MAX,
        b_off + n <= usize::MAX,
    ensures
        final(ret)@ == old(ret)@ + keeps(n as nat, a_off as int, b_off as int),
{
    let ghost start = ret@;
    let mut i: usize = 0;
    while i < n
        invariant
            i <= n,
            a_off + n <= usize::MAX,
            b_off + n <= usize::MAX,
            ret@ == start + keeps(i as nat, a_off as int, b_off as int),
        decreases n - i,
    {
        ret.push(LineDiff::Keep(a_off + i, b_off + i));
        i = i + 1;
        assert(ret@ =~= start + keeps(i as nat, a_off as int, b_off as int));
    }
}

proof fn lemma_patience_diff_witness<V>(
    a: Seq<V>,
    b: Seq<V>,
    r: Seq<LineDiff>,
    p: int,
    s: int,
    am: Seq<V>,
    bm: Seq<V>,
    ua: Seq<usize>,
    ub: Seq<usize>,
    lis: Seq<usize>,
)
    requires
        p == spec_prefix_len(a, b),
        s == spec_suffix_len(a.skip(p), b.skip(p)),
        am == a.subrange(p, a.len() - s),
        bm == b.subrange(p, b.len() - s),
        unique_pairs(am, bm, ua, ub),
        is_longest_increasing(ub, lis),
        r == patience_diff(a, b, ua, ub, lis),
    ensures
        is_patience_diff(a, b, r),
{
    reveal(is_patience_diff);
}

/// `lis` is a longest strictly increasing subsequence of `seq`, given by its positions: the
/// one that patience sorting picks.
pub open spec fn is_longest_increasing(seq: Seq<usize>, lis: Seq<usize>) -> bool {
    &&& is_increasing_subseq(seq, lis)
    &&& forall|idx: Seq<usize>| is_increasing_subseq(seq, idx) ==> idx.len() <= lis.len()
    &&& is_patience_choice(seq, lis)
}

/// Where the `c`-th chunk between anchors ends in `a`: at the `c`-th anchor, or at the end.
pub open spec fn anchor_a(alen: nat, ua: Seq<usize>, lis: Seq<usize>, c: int) -> int {
    if c < lis.len() {
        ua[lis[c] as int] as int
    } else {
        alen as int
    }
}

/// Where the `c`-th chunk between anchors starts in `a`: at the previous anchor, or at 0.
pub open spec fn chunk_start(ua: Seq<usize>, lis: Seq<usize>, c: int) -> int {
    if c == 0 {
        0
    } else {
        ua[lis[c - 1] as int] as int
    }
}

/// The diff of the first `c` chunks between the anchors `lis` (positions into `ua` and `ub`)
/// of the middles `a` and `b`: each chunk runs from one anchor (or the start) to the next (or
/// the end) and is diffed by its common prefix and suffix; line numbers are shifted by `off`.
pub open spec fn anchored_chunks<V>(
    a: Seq<V>,
    b: Seq<V>,
    off: int,
    ua: Seq<usize>,
    ub: Seq<usize>,
    lis: Seq<usize>,
    c: int,
) -> Seq<LineDiff>
    decreases c,
{
    if c <= 0 {
        Seq::empty()
    } else {
        let k = c - 1;
        anchored_chunks(a, b, off, ua, ub, lis, k) + ends_diff(
            a.subrange(chunk_start(ua, lis, k), anchor_a(a.len(), ua, lis, k)),
            off + chunk_start(ua, lis, k),
            b.subrange(chunk_start(ub, lis, k), anchor_a(b.len(), ub, lis, k)),
            off + chunk_start(ub, lis, k),
        )
    }
}

/// The patience diff of `a` and `b`: the common prefix and suffix are kept; in between, the
/// chunks between the anchors `lis` are diffed by their common prefixes and suffixes.
pub open spec fn patience_diff<V>(a: Seq<V>, b: Seq<V>, ua: Seq<usize>, ub: Seq<usize>, lis: Seq<usize>) -> Seq<LineDiff> {
    let p = spec_prefix_len(a, b);
    let s = spec_suffix_len(a.skip(p as int), b.skip(p as int));
    keeps(p, 0, 0) + anchored_chunks(
        a.subrange(p as int, a.len() - s),
        b.subrange(p as int, b.len() - s),
        p as int,
        ua,
        ub,
        lis,
        lis.len() + 1int,
    ) + keeps(s, a.len() - s, b.len() - s)
}

// ---------------------------------------------------------------------------------------------
// Lemmas about the specifications above.

proof fn lemma_prefix_props<V>(a: Seq<V>, b: Seq<V>)
    ensures
        spec_prefix_len(a, b) <= a.len(),
        spec_prefix_len(a, b) <= b.len(),
        forall|i: int| 0 <= i < spec_prefix_len(a, b) ==> a[i] == b[i],
        spec_prefix_len(a, b) < a.len() && spec_prefix_len(a, b) < b.len() ==> a[
            spec_prefix_len(a, b) as int
        ] != b[spec_prefix_len(a, b) as int],
    decreases a.len(),
{
    if a.len() == 0 || b.len() == 0 || a[0] != b[0] {
    } else {
        lemma_prefix_props(a.drop_first(), b.drop_first());
        let p = spec_prefix_len(a, b);
        assert forall|i: int| 0 <= i < p implies a[i] == b[i] by {
            if i > 0 {
                assert(a.drop_first()[i - 1] == b.drop_first()[i - 1]);
            }
        }
    }
}

proof fn lemma_prefix_unique<V>(a: Seq<V>, b: Seq<V>, r: int)
    requires
        0 <= r <= a.len(),
        r <= b.len(),
        forall|i: int| 0 <= i < r ==> a[i] == b[i],
        r < a.len() && r < b.len() ==> a[r] != b[r],
    ensures
        r == spec_prefix_len(a, b),
    decreases r,
{
    if r == 0 {
    } else {
        assert(a[0] == b[0]);
        assert forall|i: int| 0 <= i < r - 1 implies a.drop_first()[i] == b.drop_first()[i] by {
            assert(a[i + 1] == b[i + 1]);
        }
        lemma_prefix_unique(a.drop_first(), b.drop_first(), r - 1);
    }
}

proof fn lemma_suffix_props<V>(a: Seq<V>, b: Seq<V>)
    ensures
        spec_suffix_len(a, b) <= a.len(),
        spec_suffix_len(a, b) <= b.len(),
        forall|i: int|
            0 <= i < spec_suffix_len(a, b) ==> #[trigger] from_end(a, i) == from_end(b, i),
    decreases a.len(),
{
    if a.len() == 0 || b.len() == 0 || a.last() != b.last() {
    } else {
        lemma_suffix_props(a.drop_last(), b.drop_last());
        let s = spec_suffix_len(a, b);
        assert forall|i: int| 0 <= i < s implies #[trigger] from_end(a, i) == from_end(b, i) by {
            if i > 0 {
                assert(from_end(a.drop_last(), i - 1) == from_end(b.drop_last(), i - 1));
            }
        }
    }
}

proof fn lemma_suffix_unique<V>(a: Seq<V>, b: Seq<V>, r: int)
    requires
        0 <= r <= a.len(),
        r <= b.len(),
        forall|i: int| 0 <= i < r ==> #[trigger] from_end(a, i) == from_end(b, i),
        r < a.len() && r < b.len() ==> from_end(a, r) != from_end(b, r),
    ensures
        r == spec_suffix_len(a, b),
    decreases r,
{
    if r == 0 {
    } else {
        assert(from_end(a, 0) == from_end(b, 0));
        let a2 = a.drop_last();
        let b2 = b.drop_last();
        assert forall|i: int| 0 <= i < r - 1 implies #[trigger] from_end(a2, i) == from_end(b2, i) by {
            assert(from_end(a, i + 1) == from_end(b, i + 1));
        }
        lemma_suffix_unique(a2, b2, r - 1);
    }
}

/// The line numbers that the `k`-th entry of `d` mentions are among those that `d` mentions.
proof fn lemma_index_mentioned(d: Seq<LineDiff>, k: int)
    requires
        0 <= k < d.len(),
    ensures
        match d[k] {
            LineDiff::New(j) => dst_indices(d).contains(j as int),
            LineDiff::Delete(i) => src_indices(d).contains(i as int),
            LineDiff::Keep(i, j) => src_indices(d).contains(i as int) && dst_indices(d).contains(j as int),
        },
    decreases d.len(),
{
    let p = d.drop_last();
    if k == d.len() - 1 {
        match d[k] {
            LineDiff::New(j) => assert(dst_indices(d).last() == j as int),
            LineDiff::Delete(i) => assert(src_indices(d).last() == i as int),
            LineDiff::Keep(i, j) => {
                assert(src_indices(d).last() == i as int);
                assert(dst_indices(d).last() == j as int);
            },
        }
    } else {
        lemma_index_mentioned(p, k);
        assert(p[k] == d[k]);
        let sp = src_indices(p);
        let dp = dst_indices(p);
        assert forall|x: int| sp.contains(x) implies src_indices(d).contains(x) by {
            let m = choose|m: int| 0 <= m < sp.len() && sp[m] == x;
            assert(src_indices(d)[m] == x);
        }
        assert forall|x: int| dp.contains(x) implies dst_indices(d).contains(x) by {
            let m = choose|m: int| 0 <= m < dp.len() && dp[m] == x;
            assert(dst_indices(d)[m] == x);
        }
    }
}

/// Every line number that a valid diff mentions is a line of its file.
pub proof fn lemma_valid_diff_in_range<V>(a: Seq<V>, b: Seq<V>, d: Seq<LineDiff>)
    requires
        is_valid_diff(a, b, d),
    ensures
        forall|k: int| 0 <= k < d.len() ==> match #[trigger] d[k] {
            LineDiff::New(j) => j < b.len(),
            LineDiff::Delete(i) => i < a.len(),
            LineDiff::Keep(i, j) => i < a.len() && j < b.len(),
        },
{
    assert forall|k: int| 0 <= k < d.len() implies match #[trigger] d[k] {
        LineDiff::New(j) => j < b.len(),
        LineDiff::Delete(i) => i < a.len(),
        LineDiff::Keep(i, j) => i < a.len() && j < b.len(),
    } by {
        lemma_index_mentioned(d, k);
        match d[k] {
            LineDiff::New(j) => {
                let m = choose|m: int| 0 <= m < upto(b.len() as int).len() && upto(b.len() as int)[m] == j as int;
            },
            LineDiff::Delete(i) => {
                let m = choose|m: int| 0 <= m < upto(a.len() as int).len() && upto(a.len() as int)[m] == i as int;
            },
            LineDiff::Keep(i, j) => {
                let m = choose|m: int| 0 <= m < upto(a.len() as int).len() && upto(a.len() as int)[m] == i as int;
                let m2 = choose|m2: int| 0 <= m2 < upto(b.len() as int).len() && upto(b.len() as int)[m2] == j as int;
            },
        }
    }
}

proof fn lemma_upto_push(n: int)
    requires
        0 <= n,
    ensures
        upto(n).push(n) == upto(n + 1),
{
    assert(upto(n).push(n) =~= upto(n + 1));
}

proof fn lemma_push_keep<V>(a: Seq<V>, b: Seq<V>, d: Seq<LineDiff>, pa: int, pb: int)
    requires
        diff_upto(a, b, d, pa, pb),
        pa < a.len(),
        pb < b.len(),
        a[pa] == b[pb],
        pa <= usize::MAX,
        pb <= usize::MAX,
    ensures
        diff_upto(a, b, d.push(LineDiff::Keep(pa as usize, pb as usize)), pa + 1, pb + 1),
{
    let d2 = d.push(LineDiff::Keep(pa as usize, pb as usize));
    assert(d2.drop_last() =~= d);
    lemma_upto_push(pa);
    lemma_upto_push(pb);
    assert forall|k: int| 0 <= k < d2.len() implies #[trigger] keep_ok(a, b, d2[k]) by {
        if k < d.len() {
            assert(d2[k] == d[k]);
        }
    }
}

proof fn lemma_push_delete<V>(a: Seq<V>, b: Seq<V>, d: Seq<LineDiff>, pa: int, pb: int)
    requires
        diff_upto(a, b, d, pa, pb),
        pa <= usize::MAX,
    ensures
        diff_upto(a, b, d.push(LineDiff::Delete(pa as usize)), pa + 1, pb),
{
    let d2 = d.push(LineDiff::Delete(pa as usize));
    assert(d2.drop_last() =~= d);
    lemma_upto_push(pa);
    assert forall|k: int| 0 <= k < d2.len() implies #[trigger] keep_ok(a, b, d2[k]) by {
        if k < d.len() {
            assert(d2[k] == d[k]);
        }
    }
}

proof fn lemma_push_new<V>(a: Seq<V>, b: Seq<V>, d: Seq<LineDiff>, pa: int, pb: int)
    requires
        diff_upto(a, b, d, pa, pb),
        pb <= usize::MAX,
    ensures
        diff_upto(a, b, d.push(LineDiff::New(pb as usize)), pa, pb + 1),
{
    let d2 = d.push(LineDiff::New(pb as usize));
    assert(d2.drop_last() =~= d);
    lemma_upto_push(pb);
    assert forall|k: int| 0 <= k < d2.len() implies #[trigger] keep_ok(a, b, d2[k]) by {
        if k < d.len() {
            assert(d2[k] == d[k]);
        }
    }
}

proof fn lemma_append_keeps<V>(
    a: Seq<V>,
    b: Seq<V>,
    d: Seq<LineDiff>,
    pa: int,
    pb: int,
    n: nat,
)
    requires
        diff_upto(a, b, d, pa, pb),
        pa + n <= a.len(),
        pb + n <= b.len(),
        pa + n <= usize::MAX,
        pb + n <= usize::MAX,
        forall|k: int| pa <= k < pa + n ==> a[k] == b[pb + (k - pa)],
    ensures
        diff_upto(a, b, d + keeps(n, pa, pb), pa + n, pb + n),
    decreases n,
{
    if n == 0 {
        assert(d + keeps(n, pa, pb) =~= d);
    } else {
        let m = (n - 1) as nat;
        lemma_append_keeps(a, b, d, pa, pb, m);
        assert(a[pa + m] == b[pb + (pa + m - pa)]);
        lemma_push_keep(a, b, d + keeps(m, pa, pb), pa + m, pb + m);
        assert((d + keeps(m, pa, pb)).push(LineDiff::Keep((pa + m) as usize, (pb + m) as usize))
            =~= d + keeps(n, pa, pb));
    }
}

proof fn lemma_append_deletes<V>(a: Seq<V>, b: Seq<V>, d: Seq<LineDiff>, pa: int, pb: int, n: nat)
    requires
        diff_upto(a, b, d, pa, pb),
        pa + n <= usize::MAX,
    ensures
        diff_upto(a, b, d + deletes(n, pa), pa + n, pb),
    decreases n,
{
    if n == 0 {
        assert(d + deletes(n, pa) =~= d);
    } else {
        let m = (n - 1) as nat;
        lemma_append_deletes(a, b, d, pa, pb, m);
        lemma_push_delete(a, b, d + deletes(m, pa), pa + m, pb);
        assert((d + deletes(m, pa)).push(LineDiff::Delete((pa + m) as usize)) =~= d + deletes(
            n,
            pa,
        ));
    }
}

proof fn lemma_append_news<V>(a: Seq<V>, b: Seq<V>, d: Seq<LineDiff>, pa: int, pb: int, n: nat)
    requires
        diff_upto(a, b, d, pa, pb),
        pb + n <= usize::MAX,
    ensures
        diff_upto(a, b, d + news(n, pb), pa, pb + n),
    decreases n,
{
    if n == 0 {
        assert(d + news(n, pb) =~= d);
    } else {
        let m = (n - 1) as nat;
        lemma_append_news(a, b, d, pa, pb, m);
        lemma_push_new(a, b, d + news(m, pb), pa, pb + m);
        assert((d + news(m, pb)).push(LineDiff::New((pb + m) as usize)) =~= d + news(n, pb));
    }
}

/// Appending the diff of two chunks to a valid diff of everything before the chunks gives a
/// valid diff of everything up to the ends of the chunks.
proof fn lemma_append_ends<V>(
    a: Seq<V>,
    b: Seq<V>,
    d: Seq<LineDiff>,
    pa: int,
    pb: int,
    ca: Seq<V>,
    cb: Seq<V>,
)
    requires
        diff_upto(a, b, d, pa, pb),
        pa + ca.len() <= a.len(),
        pb + cb.len() <= b.len(),
        ca == a.subrange(pa, pa + ca.len()),
        cb == b.subrange(pb, pb + cb.len()),
        a.len() <= usize::MAX,
        b.len() <= usize::MAX,
    ensures
        diff_upto(a, b, d + ends_diff(ca, pa, cb, pb), pa + ca.len(), pb + cb.len()),
{
    let p = spec_prefix_len(ca, cb);
    lemma_prefix_props(ca, cb);
    let ra = ca.skip(p as int);
    let rb = cb.skip(p as int);
    let s = spec_suffix_len(ra, rb);
    lemma_suffix_props(ra, rb);
    let am = (ca.len() - p - s) as nat;
    let bm = (cb.len() - p - s) as nat;
    assert forall|k: int| pa <= k < pa + p implies a[k] == b[pb + (k - pa)] by {
        assert(ca[k - pa] == cb[k - pa]);
    }
    lemma_append_keeps(a, b, d, pa, pb, p);
    let d1 = d + keeps(p, pa, pb);
    lemma_append_deletes(a, b, d1, pa + p, pb + p, am);
    let d2 = d1 + deletes(am, pa + p);
    lemma_append_news(a, b, d2, pa + p + am, pb + p, bm);
    let d3 = d2 + news(bm, pb + p);
    assert forall|k: int| pa + p + am <= k < pa + p + am + s implies a[k] == b[pb + p + bm + (k
        - (pa + p + am))] by {
        let j = s - 1 - (k - (pa + p + am));
        assert(from_end(ra, j) == from_end(rb, j));
    }
    lemma_append_keeps(a, b, d3, pa + p + am, pb + p + bm, s);
    assert(d3 + keeps(s, pa + p + am, pb + p + bm) =~= d + ends_diff(ca, pa, cb, pb));
}

proof fn lemma_views_subrange<T: View>(s: Seq<T>, i: int, j: int)
    requires
        0 <= i <= j <= s.len(),
    ensures
        views(s.subrange(i, j)) == views(s).subrange(i, j),
{
    assert(views(s.subrange(i, j)) =~= views(s).subrange(i, j));
}

// ---------------------------------------------------------------------------------------------
// Executable code.

/// Compares two lines.
fn lines_eq<T: PartialEq + View>(x: &T, y: &T) -> (r: bool)
    requires
        obeys_view_eq::<T>(),
    ensures
        r == (x@ == y@),
{
    proof {
        reveal(obeys_view_eq);
    }
    x.eq(y)
}

/// Returns the number of times that `line` appears among `lines`.
fn line_counts<T: PartialEq + View>(lines: &[T], line: &T) -> (r: usize)
    requires
        obeys_view_eq::<T>(),
    ensures
        r == count_of(views(lines@), line@),
{
    let mut count: usize = 0;
    let mut i: usize = 0;
    while i < lines.len()
        invariant
            obeys_view_eq::<T>(),
            i <= lines.len(),
            count == count_of(views(lines@).take(i as int), line@),
            count <= i,
        decreases lines.len() - i,
    {
        let ghost vs = views(lines@);
        assert(vs.take(i + 1).drop_last() =~= vs.take(i as int));
        if lines_eq(&lines[i], line) {
            count = count + 1;
        }
        i = i + 1;
    }
    assert(views(lines@).take(lines.len() as int) =~= views(lines@));
    count
}

/// The returned value `ret` is the largest number such that the first `ret` elements of `a` are
/// the same as the first `ret` elements of `b`.
fn prefix_len<T: PartialEq + View>(a: &[T], b: &[T]) -> (r: usize)
    requires
        obeys_view_eq::<T>(),
    ensures
        r == spec_prefix_len(views(a@), views(b@)),
{
    let n = if a.len() < b.len() {
        a.len()
    } else {
        b.len()
    };
    let mut i: usize = 0;
    while i < n && lines_eq(&a[i], &b[i])
        invariant
            obeys_view_eq::<T>(),
            n <= a.len(),
            n <= b.len(),
            n == a.len() || n == b.len(),
            i <= n,
            forall|k: int| 0 <= k < i ==> a@[k]@ == b@[k]@,
        decreases n - i,
    {
        i = i + 1;
    }
    proof {
        lemma_prefix_unique(views(a@), views(b@), i as int);
    }
    i
}

/// The returned value `ret` is the largest number such that the last `ret` elements of `a` are
/// the same as the last `ret` elements of `b`.
fn suffix_len<T: PartialEq + View>(a: &[T], b: &[T]) -> (r: usize)
    requires
        obeys_view_eq::<T>(),
    ensures
        r == spec_suffix_len(views(a@), views(b@)),
{
    let n = if a.len() < b.len() {
        a.len()
    } else {
        b.len()
    };
    let mut i: usize = 0;
    while i < n && lines_eq(&a[a.len() - 1 - i], &b[b.len() - 1 - i])
        invariant
            obeys_view_eq::<T>(),
            n <= a.len(),
            n <= b.len(),
            n == a.len() || n == b.len(),
            i <= n,
            forall|k: int| 0 <= k < i ==> #[trigger] from_end(views(a@), k) == from_end(views(b@), k),
        decreases n - i,
    {
        i = i + 1;
    }
    proof {
        lemma_suffix_unique(views(a@), views(b@), i as int);
    }
    i
}

/// Returns the tuple `(pref_len, a_mid, b_mid, suff_len)`, where `pref_len` is the length of the
/// common prefix of `a` and `b`, `suff_len` is the length of the common suffix of what remains,
/// and `a_mid` and `b_mid` are the parts of `a` and `b` that are left after the prefixes and
/// suffixes are removed.
fn match_ends<'a, T: PartialEq + View>(a: &'a [T], b: &'a [T]) -> (r: (
    usize,
    &'a [T],
    &'a [T],
    usize,
))
    requires
        obeys_view_eq::<T>(),
    ensures
        r.0 == spec_prefix_len(views(a@), views(b@)),
        r.3 == spec_suffix_len(views(a@).skip(r.0 as int), views(b@).skip(r.0 as int)),
        r.0 + r.3 <= a.len(),
        r.0 + r.3 <= b.len(),
        r.1@ == a@.subrange(r.0 as int, a.len() - r.3),
        r.2@ == b@.subrange(r.0 as int, b.len() - r.3),
{
    let pref_len = prefix_len(a, b);
    proof {
        lemma_prefix_props(views(a@), views(b@));
    }
    let a_rest = &a[pref_len..a.len()];
    let b_rest = &b[pref_len..b.len()];
    proof {
        lemma_views_subrange(a@, pref_len as int, a.len() as int);
        lemma_views_subrange(b@, pref_len as int, b.len() as int);
        assert(views(a@).subrange(pref_len as int, a.len() as int) =~= views(a@).skip(
            pref_len as int,
        ));
        assert(views(b@).subrange(pref_len as int, b.len() as int) =~= views(b@).skip(
            pref_len as int,
        ));
    }
    let suff_len = suffix_len(a_rest, b_rest);
    proof {
        lemma_suffix_props(views(a_rest@), views(b_rest@));
    }
    let a_mid = &a[pref_len..(a.len() - suff_len)];
    let b_mid = &b[pref_len..(b.len() - suff_len)];
    (pref_len, a_mid, b_mid, suff_len)
}

/// Calculates an extremely simple kind of diff: find the longest common prefix and suffix of the
/// two files. Everything that isn't part of the prefix and suffix gets marked as changed.
///
/// The line numbers of the two files are shifted by `a_offset` and `b_offset`, since they might
/// refer to smaller parts of larger files.
pub fn diff_ends<T: PartialEq + View>(
    a: &[T],
    a_offset: usize,
    b: &[T],
    b_offset: usize,
    diff: &mut Vec<LineDiff>,
)
    requires
        obeys_view_eq::<T>(),
        a_offset + a.len() <= usize::MAX,
        b_offset + b.len() <= usize::MAX,
    ensures
        final(diff)@ == old(diff)@ + ends_diff(
            views(a@),
            a_offset as int,
            views(b@),
            b_offset as int,
        ),
{
    let (pref_len, a_mid, b_mid, suff_len) = match_ends(a, b);
    let ghost d0 = diff@;
    let ghost va = views(a@);
    let ghost vb = views(b@);
    let ghost p = pref_len as nat;
    let ghost s = suff_len as nat;
    let ghost am = (a.len() - p - s) as nat;
    let ghost bm = (b.len() - p - s) as nat;
    assert(va.len() == a.len());
    assert(vb.len() == b.len());
    let mut i: usize = 0;
    while i < pref_len
        invariant
            i <= pref_len,
            pref_len + suff_len <= a.len(),
            pref_len + suff_len <= b.len(),
            a_offset + a.len() <= usize::MAX,
            b_offset + b.len() <= usize::MAX,
            diff@ == d0 + keeps(i as nat, a_offset as int, b_offset as int),
        decreases pref_len - i,
    {
        diff.push(LineDiff::Keep(a_offset + i, b_offset + i));
        i = i + 1;
        assert(diff@ =~= d0 + keeps(i as nat, a_offset as int, b_offset as int));
    }
    let ghost d1 = diff@;
    i = 0;
    while i < a_mid.len()
        invariant
            i <= a_mid.len(),
            a_mid.len() == am,
            pref_len + a_mid.len() <= a.len(),
            a_offset + a.len() <= usize::MAX,
            diff@ == d1 + deletes(i as nat, a_offset + pref_len),
        decreases a_mid.len() - i,
    {
        diff.push(LineDiff::Delete(a_offset + pref_len + i));
        i = i + 1;
        assert(diff@ =~= d1 + deletes(i as nat, a_offset + pref_len));
    }
    let ghost d2 = diff@;
    i = 0;
    while i < b_mid.len()
        invariant
            i <= b_mid.len(),
            b_mid.len() == bm,
            pref_len + b_mid.len() <= b.len(),
            b_offset + b.len() <= usize::MAX,
            diff@ == d2 + news(i as nat, b_offset + pref_len),
        decreases b_mid.len() - i,
    {
        diff.push(LineDiff::New(b_offset + pref_len + i));
        i = i + 1;
        assert(diff@ =~= d2 + news(i as nat, b_offset + pref_len));
    }
    let ghost d3 = diff@;
    i = 0;
    while i < suff_len
        invariant
            i <= suff_len,
            pref_len + a_mid.len() + suff_len == a.len(),
            pref_len + b_mid.len() + suff_len == b.len(),
            a_offset + a.len() <= usize::MAX,
            b_offset + b.len() <= usize::MAX,
            diff@ == d3 + keeps(
                i as nat,
                a_offset + pref_len + a_mid.len(),
                b_offset + pref_len + b_mid.len(),
            ),
        decreases suff_len - i,
    {
        diff.push(
            LineDiff::Keep(
                a_offset + pref_len + a_mid.len() + i,
                b_offset + pref_len + b_mid.len() + i,
            ),
        );
        i = i + 1;
        assert(diff@ =~= d3 + keeps(
            i as nat,
            a_offset + pref_len + a_mid.len(),
            b_offset + pref_len + b_mid.len(),
        ));
    }
    assert(diff@ =~= d0 + ends_diff(va, a_offset as int, vb, b_offset as int));
}

/// Returns the first position at which `line` appears among `lines`.
fn position<T: PartialEq + View>(lines: &[T], line: &T) -> (r: Option<usize>)
    requires
        obeys_view_eq::<T>(),
    ensures
        r matches Some(j) ==> j < lines.len() && lines@[j as int]@ == line@,
        r is None ==> forall|j: int| 0 <= j < lines.len() ==> lines@[j]@ != line@,
{
    let mut i: usize = 0;
    while i < lines.len()
        invariant
            obeys_view_eq::<T>(),
            i <= lines.len(),
            forall|j: int| 0 <= j < i ==> lines@[j]@ != line@,
        decreases lines.len() - i,
    {
        if lines_eq(&lines[i], line) {
            return Some(i);
        }
        i = i + 1;
    }
    None
}

/// The line at position `i` of `a` occurs exactly once in `a` and exactly once in `b`.
pub open spec fn unique_in_both<V>(a: Seq<V>, b: Seq<V>, i: int) -> bool {
    count_of(a, a[i]) == 1 && count_of(b, a[i]) == 1
}

/// A value that no element of `s` equals does not occur in `s`.
proof fn lemma_count_absent<V>(s: Seq<V>, x: V)
    requires
        forall|j: int| 0 <= j < s.len() ==> s[j] != x,
    ensures
        count_of(s, x) == 0,
    decreases s.len(),
{
    if s.len() > 0 {
        let t = s.drop_last();
        assert forall|j: int| 0 <= j < t.len() implies t[j] != x by {
            assert(t[j] == s[j]);
        }
        lemma_count_absent(t, x);
        assert(s.last() == s[s.len() - 1]);
    }
}

/// Returns the positions `(b_idxs[k], a_idxs[k])` (in `b` and `a`) of the lines that occur
/// exactly once in each of `a` and `b`, ordered by their position in `a`.
fn unique_matches<T: PartialEq + View>(a: &[T], b: &[T]) -> (r: (Vec<usize>, Vec<usize>))
    requires
        obeys_view_eq::<T>(),
    ensures
        r.0.len() == r.1.len(),
        forall|k: int| 0 <= k < r.1.len() ==> #[trigger] r.1@[k] < a.len(),
        forall|k: int| 0 <= k < r.0.len() ==> #[trigger] r.0@[k] < b.len(),
        forall|k: int| 0 <= k < r.0.len() ==> a@[#[trigger] r.1@[k] as int]@ == b@[r.0@[k] as int]@,
        forall|k: int, l: int| 0 <= k < l < r.1.len() ==> #[trigger] r.1@[k] < #[trigger] r.1@[l],
        forall|i: int| 0 <= i < a.len() ==> (r.1@.contains(i as usize) <==> unique_in_both(views(a@), views(b@), i)),
{
    let a_mid = a;
    let b_mid = b;
    // `b_idxs[k]` and `a_idxs[k]` are the positions (in `b_mid` and `a_mid`) of a line that is
    // unique in both files; the pairs are ordered by their position in `a_mid`. We look for a
    // longest increasing subsequence of the positions in `b_mid`.
    let mut b_idxs: Vec<usize> = Vec::new();
    let mut a_idxs: Vec<usize> = Vec::new();
    let mut i: usize = 0;
    while i < a_mid.len()
        invariant
            obeys_view_eq::<T>(),
            i <= a_mid.len(),
            a_idxs.len() == b_idxs.len(),
            forall|k: int| 0 <= k < a_idxs.len() ==> #[trigger] a_idxs@[k] < i,
            forall|k: int| 0 <= k < b_idxs.len() ==> #[trigger] b_idxs@[k] < b_mid.len(),
            forall|k: int| 0 <= k < b_idxs.len() ==> a_mid@[#[trigger] a_idxs@[k] as int]@ == b_mid@[b_idxs@[k] as int]@,
            forall|k: int, l: int|
                0 <= k < l < a_idxs.len() ==> #[trigger] a_idxs@[k] < #[trigger] a_idxs@[l],
            forall|x: int| 0 <= x < a_mid.len() ==> (a_idxs@.contains(x as usize) <==> x < i
                && unique_in_both(views(a_mid@), views(b_mid@), x)),
        decreases a_mid.len() - i,
    {
        let line = &a_mid[i];
        let ghost a0 = a_idxs@;
        proof {
            assert(views(a_mid@)[i as int] == line@);
        }
        if line_counts(a_mid, line) == 1 && line_counts(b_mid, line) == 1 {
            match position(b_mid, line) {
                Some(j) => {
                    b_idxs.push(j);
                    a_idxs.push(i);
                },
                None => {
                    proof {
                        assert forall|j: int| 0 <= j < views(b_mid@).len() implies views(b_mid@)[j] != line@ by {
                            assert(views(b_mid@)[j] == b_mid@[j]@);
                        }
                        lemma_count_absent(views(b_mid@), line@);
                    }
                },
            }
        }
        proof {
            assert forall|x: int| 0 <= x < a_mid.len() implies (a_idxs@.contains(x as usize) <==> x < i + 1
                && unique_in_both(views(a_mid@), views(b_mid@), x)) by {
                if a_idxs@.contains(x as usize) && !a0.contains(x as usize) {
                    let k = choose|k: int| 0 <= k < a_idxs@.len() && a_idxs@[k] == x as usize;
                    if k < a0.len() {
                        assert(a0[k] == a_idxs@[k]);
                    }
                }
                if a0.contains(x as usize) {
                    let k = choose|k: int| 0 <= k < a0.len() && a0[k] == x as usize;
                    assert(a_idxs@[k] == a0[k]);
                }
                if x == i && unique_in_both(views(a_mid@), views(b_mid@), x) {
                    assert(a_idxs@[a_idxs@.len() - 1] == i);
                }
                if x == i && a_idxs@.contains(x as usize) && !a0.contains(x as usize) {
                    assert(a_idxs@.len() == a0.len() + 1);
                }
            }
        }
        i = i + 1;
    }

    (b_idxs, a_idxs)
}

/// Computes a diff between `a` and `b`.
///
/// The common prefix and suffix of the two files are kept. In between, the lines that occur
/// exactly once in each of the two files serve as anchors: a longest sequence of such lines that
/// appears in the same order in both files is kept, and the chunks between consecutive anchors
/// are diffed by their common prefixes and suffixes.
#[verifier::spinoff_prover]
#[verifier::rlimit(100)]
pub fn diff<T: PartialEq + View>(a: &[T], b: &[T]) -> (r: Vec<LineDiff>)
    requires
        obeys_view_eq::<T>(),
    ensures
        is_valid_diff(views(a@), views(b@), r@),
        ({
            let p = spec_prefix_len(views(a@), views(b@));
            let s = spec_suffix_len(views(a@).skip(p as int), views(b@).skip(p as int));
            &&& p + s <= r@.len()
            &&& r@.subrange(0, p as int) == keeps(p, 0, 0)
            &&& r@.subrange(r@.len() - s, r@.len() as int) == keeps(
                s,
                a.len() - s,
                b.len() - s,
            )
        }),
        is_patience_diff(views(a@), views(b@), r@),
{
    let ghost va = views(a@);
    let ghost vb = views(b@);
    let (pref_len, a_mid, b_mid, suff_len) = match_ends(a, b);
    proof {
        lemma_prefix_props(va, vb);
        lemma_suffix_props(va.skip(pref_len as int), vb.skip(pref_len as int));
    }

    let (b_idxs, a_idxs) = unique_matches(a_mid, b_mid);
    let ghost am = views(a_mid@);
    let ghost bm = views(b_mid@);
    proof {
        lemma_views_subrange(a@, pref_len as int, a.len() - suff_len);
        lemma_views_subrange(b@, pref_len as int, b.len() - suff_len);
        assert(am == va.subrange(pref_len as int, a.len() - suff_len));
        assert(bm == vb.subrange(pref_len as int, b.len() - suff_len));
        assert(unique_pairs(am, bm, a_idxs@, b_idxs@));
    }
    let mut i: usize;
    let mut ret: Vec<LineDiff> = Vec::new();
    proof {
        assert(diff_upto(va, vb, ret@, 0, 0)) by {
            assert(upto(0) =~= Seq::<int>::empty());
        }
    }
    i = 0;
    while i < pref_len
        invariant
            i <= pref_len,
            pref_len <= a.len(),
            pref_len <= b.len(),
            va == views(a@),
            vb == views(b@),
            pref_len == spec_prefix_len(va, vb),
            forall|k: int| 0 <= k < pref_len ==> va[k] == vb[k],
            diff_upto(va, vb, ret@, i as int, i as int),
            ret@ == keeps(i as nat, 0, 0),
        decreases pref_len - i,
    {
        proof {
            lemma_push_keep(va, vb, ret@, i as int, i as int);
        }
        ret.push(LineDiff::Keep(i, i));
        i = i + 1;
        assert(ret@ =~= keeps(i as nat, 0, 0));
    }

    let lis = longest_increasing_subsequence(&b_idxs);
    let mut prev_b_idx: usize = 0;
    let mut prev_a_idx: usize = 0;
    let mut k: usize = 0;
    while k < lis.len()
        invariant
            obeys_view_eq::<T>(),
            va == views(a@),
            vb == views(b@),
            a_mid@ == a@.subrange(pref_len as int, a.len() - suff_len),
            b_mid@ == b@.subrange(pref_len as int, b.len() - suff_len),
            pref_len + suff_len <= a.len(),
            pref_len + suff_len <= b.len(),
            crate::lis::is_increasing_subseq(b_idxs@, lis@),
            a_idxs.len() == b_idxs.len(),
            forall|j: int| 0 <= j < a_idxs.len() ==> #[trigger] a_idxs@[j] < a_mid.len(),
            forall|j: int| 0 <= j < b_idxs.len() ==> #[trigger] b_idxs@[j] < b_mid.len(),
            forall|j: int, l: int|
                0 <= j < l < a_idxs.len() ==> #[trigger] a_idxs@[j] < #[trigger] a_idxs@[l],
            k <= lis.len(),
            k == 0 ==> prev_a_idx == 0 && prev_b_idx == 0,
            k > 0 ==> prev_a_idx == a_idxs@[lis@[k - 1] as int] && prev_b_idx == b_idxs@[lis@[
                k - 1] as int],
            prev_a_idx <= a_mid.len(),
            prev_b_idx <= b_mid.len(),
            diff_upto(va, vb, ret@, pref_len + prev_a_idx, pref_len + prev_b_idx),
            pref_len <= ret@.len(),
            ret@.subrange(0, pref_len as int) == keeps(pref_len as nat, 0, 0),
            am == views(a_mid@),
            bm == views(b_mid@),
            prev_a_idx == chunk_start(a_idxs@, lis@, k as int),
            prev_b_idx == chunk_start(b_idxs@, lis@, k as int),
            ret@ == keeps(pref_len as nat, 0, 0) + anchored_chunks(am, bm, pref_len as int, a_idxs@, b_idxs@, lis@, k as int),
        decreases lis.len() - k,
    {
        let next_b_idx = b_idxs[lis[k]];
        let next_a_idx = a_idxs[lis[k]];
        proof {
            if k > 0 {
                assert(lis@[k - 1] < lis@[k as int]);
                assert(a_idxs@[lis@[k - 1] as int] < a_idxs@[lis@[k as int] as int]);
            }
        }
        let a_chunk = &a_mid[prev_a_idx..next_a_idx];
        let b_chunk = &b_mid[prev_b_idx..next_b_idx];
        let ghost old_ret = ret@;
        diff_ends(a_chunk, pref_len + prev_a_idx, b_chunk, pref_len + prev_b_idx, &mut ret);
        proof {
            assert(a_chunk@ =~= a@.subrange(pref_len + prev_a_idx, pref_len + next_a_idx));
            assert(b_chunk@ =~= b@.subrange(pref_len + prev_b_idx, pref_len + next_b_idx));
            lemma_views_subrange(a@, pref_len + prev_a_idx, pref_len + next_a_idx);
            lemma_views_subrange(b@, pref_len + prev_b_idx, pref_len + next_b_idx);
            lemma_append_ends(
                va,
                vb,
                old_ret,
                pref_len + prev_a_idx,
                pref_len + prev_b_idx,
                views(a_chunk@),
                views(b_chunk@),
            );
            assert(ret@.subrange(0, pref_len as int) =~= old_ret.subrange(0, pref_len as int));
            lemma_views_subrange(a_mid@, prev_a_idx as int, next_a_idx as int);
            lemma_views_subrange(b_mid@, prev_b_idx as int, next_b_idx as int);
            assert(anchor_a(am.len(), a_idxs@, lis@, k as int) == next_a_idx);
            assert(anchor_a(bm.len(), b_idxs@, lis@, k as int) == next_b_idx);
            assert(ret@ =~= keeps(pref_len as nat, 0, 0) + anchored_chunks(am, bm, pref_len as int, a_idxs@, b_idxs@, lis@, k + 1));
        }
        prev_b_idx = next_b_idx;
        prev_a_idx = next_a_idx;
        k = k + 1;
    }

    let a_chunk = &a_mid[prev_a_idx..a_mid.len()];
    let b_chunk = &b_mid[prev_b_idx..b_mid.len()];
    let ghost old_ret = ret@;
    diff_ends(a_chunk, pref_len + prev_a_idx, b_chunk, pref_len + prev_b_idx, &mut ret);
    proof {
        assert(a_chunk@ =~= a@.subrange(pref_len + prev_a_idx, a.len() - suff_len));
        assert(b_chunk@ =~= b@.subrange(pref_len + prev_b_idx, b.len() - suff_len));
        lemma_views_subrange(a@, pref_len + prev_a_idx, a.len() - suff_len);
        lemma_views_subrange(b@, pref_len + prev_b_idx, b.len() - suff_len);
        lemma_append_ends(
            va,
            vb,
            old_ret,
            pref_len + prev_a_idx,
            pref_len + prev_b_idx,
            views(a_chunk@),
            views(b_chunk@),
        );
        assert(ret@.subrange(0, pref_len as int) =~= old_ret.subrange(0, pref_len as int));
        lemma_views_subrange(a_mid@, prev_a_idx as int, a_mid.len() as int);
        lemma_views_subrange(b_mid@, prev_b_idx as int, b_mid.len() as int);
        let c = lis@.len() as int;
        assert(anchor_a(am.len(), a_idxs@, lis@, c) == a_mid.len());
        assert(anchor_a(bm.len(), b_idxs@, lis@, c) == b_mid.len());
        assert(ret@ =~= keeps(pref_len as nat, 0, 0) + anchored_chunks(am, bm, pref_len as int, a_idxs@, b_idxs@, lis@, c + 1));
    }

    let ghost mid_ret = ret@;
    let ghost sa = (a.len() - suff_len) as int;
    let ghost sb = (b.len() - suff_len) as int;
    proof {
        let ra = va.skip(pref_len as int);
        let rb = vb.skip(pref_len as int);
        assert forall|x: int| sa <= x < sa + suff_len implies va[x] == vb[sb + (x - sa)] by {
            let j = suff_len - 1 - (x - sa);
            assert(from_end(ra, j) == from_end(rb, j));
        }
        lemma_append_keeps(va, vb, mid_ret, sa, sb, suff_len as nat);
    }
    push_keeps(&mut ret, a.len() - suff_len, b.len() - suff_len, suff_len);
    proof {
        assert(ret@.subrange(0, pref_len as int) =~= mid_ret.subrange(0, pref_len as int));
        assert(ret@.subrange(ret@.len() - suff_len, ret@.len() as int) =~= keeps(
            suff_len as nat,
            sa,
            sb,
        ));
        assert(ret@ == patience_diff(va, vb, a_idxs@, b_idxs@, lis@));
        assert(is_longest_increasing(b_idxs@, lis@));
        lemma_patience_diff_witness(va, vb, ret@, pref_len as int, suff_len as int, am, bm, a_idxs@, b_idxs@, lis@);
    }
    ret
}

} // verus!
