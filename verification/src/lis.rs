//! The "patience" algorithm for the longest strictly increasing subsequence.
//!
//! We maintain a bunch of "stacks", starting with a single stack on the left and adding extra
//! stacks to the right as necessary. Each stack is ordered, with larger values on the bottom and
//! smaller values on top. Each element of the input goes on the left-most stack on whose top it
//! fits, or starts a new stack on the right. Every element remembers the top of the stack to its
//! left at the time it was placed; following those pointers back from the top of the right-most
//! stack gives a longest increasing subsequence.
//!
//! Only the top of each stack is stored, and since the tops form an increasing sequence the
//! right stack for each element is found by binary search.

use vstd::prelude::*;

verus! {

/// `idx` lists positions of `seq`, in strictly increasing order, at which the values of `seq`
/// are strictly increasing.
pub open spec fn is_increasing_subseq(seq: Seq<usize>, idx: Seq<usize>) -> bool {
    &&& forall|k: int| 0 <= k < idx.len() ==> #[trigger] idx[k] < seq.len()
    &&& forall|k: int, l: int|
        0 <= k < l < idx.len() ==> #[trigger] idx[k] < #[trigger] idx[l] && seq[idx[k] as int]
            < seq[idx[l] as int]
}

/// The length of a longest strictly increasing subsequence of `seq` that ends at position `j`.
pub open spec fn end_len(seq: Seq<usize>, j: int) -> nat
    decreases j, 1int, 0int,
{
    if 0 <= j < seq.len() {
        1 + best_before(seq, j, j)
    } else {
        0
    }
}

/// The greatest `end_len` of the positions before `m` that hold a value below the one at `j`
/// (0 when there is none).
pub open spec fn best_before(seq: Seq<usize>, j: int, m: int) -> nat
    decreases j, 0int, m,
{
    if m <= 0 || m > j {
        0
    } else {
        let rest = best_before(seq, j, m - 1);
        if seq[m - 1] < seq[j] && end_len(seq, m - 1) > rest {
            end_len(seq, m - 1)
        } else {
            rest
        }
    }
}

/// Of the longest strictly increasing subsequences, `r` is the one that patience sorting
/// picks: it ends at the last position whose best run is that long, and each element before
/// is the last position, before the next element, whose best run is one shorter.
#[verifier::opaque]
pub open spec fn is_patience_choice(seq: Seq<usize>, r: Seq<usize>) -> bool {
    &&& forall|p: int| 0 <= p < r.len() ==> end_len(seq, #[trigger] r[p] as int) == p + 1
    &&& forall|j: int| 0 <= j < seq.len() ==> #[trigger] end_len(seq, j) <= r.len()
    &&& r.len() > 0 ==> forall|j: int|
        0 <= j < seq.len() && #[trigger] end_len(seq, j) == r.len() ==> j <= r[r.len() - 1]
    &&& forall|p: int, jj: int|
        0 < p < r.len() && 0 <= jj < #[trigger] r[p] && #[trigger] end_len(seq, jj) == p ==> jj <= r[p - 1]
}

proof fn lemma_best_before_bounds(seq: Seq<usize>, j: int, m: int)
    requires
        0 <= m <= j < seq.len(),
    ensures
        forall|jj: int| 0 <= jj < m && seq[jj] < seq[j] ==> #[trigger] end_len(seq, jj) <= best_before(seq, j, m),
        best_before(seq, j, m) == 0 || exists|jj: int|
            0 <= jj < m && seq[jj] < seq[j] && #[trigger] end_len(seq, jj) == best_before(seq, j, m),
    decreases m,
{
    if m > 0 {
        lemma_best_before_bounds(seq, j, m - 1);
        if best_before(seq, j, m) != best_before(seq, j, m - 1) {
            assert(end_len(seq, m - 1) == best_before(seq, j, m));
        }
    }
}

/// The stack an element lands on is one less than the length of a longest increasing run
/// ending at it.
proof fn lemma_pile_is_end_len(seq: Seq<usize>, pile: Seq<int>, ptrs: Seq<usize>, j: int)
    requires
        chain_ok(seq, ptrs, pile),
        0 <= j < seq.len(),
        forall|k: int| 0 <= k < seq.len() ==> 0 <= #[trigger] pile[k],
        forall|k: int, kk: int|
            0 <= k < kk < seq.len() && seq[k] < seq[kk] ==> #[trigger] pile[k] < #[trigger] pile[kk],
    ensures
        end_len(seq, j) == pile[j] + 1,
    decreases j,
{
    lemma_best_before_bounds(seq, j, j);
    if pile[j] > 0 {
        let p = ptrs[j] as int;
        lemma_pile_is_end_len(seq, pile, ptrs, p);
        assert(end_len(seq, p) <= best_before(seq, j, j));
    }
    if best_before(seq, j, j) > 0 {
        let jj = choose|jj: int| 0 <= jj < j && seq[jj] < seq[j] && #[trigger] end_len(seq, jj) == best_before(seq, j, j);
        lemma_pile_is_end_len(seq, pile, ptrs, jj);
        assert(pile[jj] < pile[j]);
    }
}

/// The state of the algorithm after the first `i` elements were placed.
spec fn placed(
    seq: Seq<usize>,
    i: int,
    tops: Seq<usize>,
    pointers: Seq<usize>,
    pile: Seq<int>,
) -> bool {
    &&& 0 <= i <= seq.len()
    &&& pointers.len() == seq.len()
    &&& pile.len() == i
    &&& tops.len() <= i
    &&& forall|k: int| 0 <= k < tops.len() ==> #[trigger] tops[k] < i && pile[tops[k] as int] == k
    &&& forall|k: int, l: int|
        0 <= k < l < tops.len() ==> seq[#[trigger] tops[k] as int] < seq[#[trigger] tops[l] as int]
    &&& forall|j: int|
        0 <= j < i ==> 0 <= #[trigger] pile[j] < tops.len() && seq[tops[pile[j]] as int]
            <= seq[j]
    &&& forall|j: int|
        0 <= j < i && #[trigger] pile[j] > 0 ==> {
            &&& pointers[j] < j
            &&& pile[pointers[j] as int] == pile[j] - 1
            &&& seq[pointers[j] as int] < seq[j]
        }
    &&& forall|j: int, jj: int|
        0 <= j < jj < i && seq[j] < seq[jj] ==> #[trigger] pile[j] < #[trigger] pile[jj]
    &&& forall|j: int| 0 <= j < i ==> j <= #[trigger] tops[pile[j]] as int
    &&& forall|j: int, jj: int|
        0 <= jj < j < i && #[trigger] pile[j] > 0 && #[trigger] pile[jj] == pile[j] - 1 ==> jj <= pointers[j]
}

/// Finds the number of stacks whose top is smaller than `v`.
fn lower_bound(seq: &[usize], tops: &Vec<usize>, v: usize) -> (r: usize)
    requires
        forall|k: int| 0 <= k < tops.len() ==> #[trigger] tops@[k] < seq.len(),
        forall|k: int, l: int|
            0 <= k < l < tops.len() ==> seq@[#[trigger] tops@[k] as int] < seq@[
                #[trigger] tops@[l] as int
            ],
    ensures
        r <= tops.len(),
        forall|k: int| 0 <= k < r ==> seq@[#[trigger] tops@[k] as int] < v,
        forall|k: int| r <= k < tops.len() ==> seq@[#[trigger] tops@[k] as int] >= v,
{
    let mut lo: usize = 0;
    let mut hi: usize = tops.len();
    while lo < hi
        invariant
            lo <= hi <= tops.len(),
            forall|k: int| 0 <= k < tops.len() ==> #[trigger] tops@[k] < seq.len(),
            forall|k: int, l: int|
                0 <= k < l < tops.len() ==> seq@[#[trigger] tops@[k] as int] < seq@[
                    #[trigger] tops@[l] as int
                ],
            forall|k: int| 0 <= k < lo ==> seq@[#[trigger] tops@[k] as int] < v,
            forall|k: int| hi <= k < tops.len() ==> seq@[#[trigger] tops@[k] as int] >= v,
        decreases hi - lo,
    {
        let mid = lo + (hi - lo) / 2;
        if seq[tops[mid]] < v {
            assert forall|k: int| 0 <= k < mid + 1 implies seq@[#[trigger] tops@[k] as int] < v by {
                if k < mid {
                    assert(seq@[tops@[k] as int] < seq@[tops@[mid as int] as int]);
                }
            }
            lo = mid + 1;
        } else {
            assert forall|k: int| mid <= k < tops.len() implies seq@[#[trigger] tops@[k] as int]
                >= v by {
                if k > mid {
                    assert(seq@[tops@[mid as int] as int] < seq@[tops@[k] as int]);
                }
            }
            hi = mid;
        }
    }
    lo
}

/// Along an increasing subsequence, the stacks of the elements are strictly increasing, so the
/// subsequence is no longer than the number of stacks.
proof fn lemma_bounded_by_piles(seq: Seq<usize>, pile: Seq<int>, idx: Seq<usize>, m: int)
    requires
        is_increasing_subseq(seq, idx),
        pile.len() == seq.len(),
        0 <= m,
        forall|j: int| 0 <= j < seq.len() ==> 0 <= #[trigger] pile[j] < m,
        forall|j: int, jj: int|
            0 <= j < jj < seq.len() && seq[j] < seq[jj] ==> #[trigger] pile[j] < #[trigger] pile[jj],
    ensures
        idx.len() <= m,
{
    if idx.len() > 0 {
        assert forall|k: int| 0 <= k < idx.len() implies pile[#[trigger] idx[k] as int] >= k by {
            lemma_pile_grows(seq, pile, idx, k);
        }
        let last = idx.len() - 1;
        assert(idx[last] < seq.len());
        let j = idx[last] as int;
        assert(0 <= pile[j] < m);
        assert(pile[j] >= last);
    }
}

proof fn lemma_pile_grows(seq: Seq<usize>, pile: Seq<int>, idx: Seq<usize>, k: int)
    requires
        is_increasing_subseq(seq, idx),
        0 <= k < idx.len(),
        pile.len() == seq.len(),
        forall|j: int| 0 <= j < seq.len() ==> 0 <= #[trigger] pile[j],
        forall|j: int, jj: int|
            0 <= j < jj < seq.len() && seq[j] < seq[jj] ==> #[trigger] pile[j] < #[trigger] pile[jj],
    ensures
        pile[idx[k] as int] >= k,
    decreases k,
{
    if k > 0 {
        lemma_pile_grows(seq, pile, idx, k - 1);
        assert(idx[k - 1] < idx[k]);
        assert(pile[idx[k - 1] as int] < pile[idx[k] as int]);
    } else {
        assert(idx[0] < seq.len());
    }
}

/// Placing element `i` on stack `stack_idx` keeps the state consistent.
proof fn lemma_place(
    seq: Seq<usize>,
    i: int,
    old_tops: Seq<usize>,
    tops: Seq<usize>,
    old_ptrs: Seq<usize>,
    ptrs: Seq<usize>,
    old_pile: Seq<int>,
    stack_idx: int,
)
    requires
        placed(seq, i, old_tops, old_ptrs, old_pile),
        i < seq.len(),
        i < usize::MAX,
        0 <= stack_idx <= old_tops.len(),
        forall|k: int| 0 <= k < stack_idx ==> seq[#[trigger] old_tops[k] as int] < seq[i],
        forall|k: int| stack_idx <= k < old_tops.len() ==> seq[#[trigger] old_tops[k] as int] >= seq[i],
        stack_idx == old_tops.len() ==> tops == old_tops.push(i as usize),
        stack_idx < old_tops.len() ==> tops == old_tops.update(stack_idx, i as usize),
        stack_idx > 0 ==> ptrs == old_ptrs.update(i, old_tops[stack_idx - 1]),
        stack_idx == 0 ==> ptrs == old_ptrs,
    ensures
        placed(seq, i + 1, tops, ptrs, old_pile.push(stack_idx)),
{
    let pile = old_pile.push(stack_idx);
    let elem = seq[i];
    assert(tops.len() <= i + 1);
    assert forall|k: int| 0 <= k < tops.len() implies #[trigger] tops[k] < i + 1 && pile[tops[k] as int] == k by {
        if k != stack_idx {
            assert(old_tops[k] < i);
            assert(pile[old_tops[k] as int] == old_pile[old_tops[k] as int]);
        }
    }
    assert forall|j: int, jj: int|
        0 <= j < jj < i + 1 && seq[j] < seq[jj] implies #[trigger] pile[j]
        < #[trigger] pile[jj] by {
        if jj == i {
            let pj = old_pile[j];
            assert(0 <= pj < old_tops.len());
            assert(seq[old_tops[pj] as int] <= seq[j]);
            assert(pile[j] == pj);
        } else {
            assert(old_pile[j] < old_pile[jj]);
            assert(pile[j] == old_pile[j]);
            assert(pile[jj] == old_pile[jj]);
        }
    }
    assert forall|j: int| 0 <= j < i + 1 implies 0 <= #[trigger] pile[j]
        < tops.len() && seq[tops[pile[j]] as int] <= seq[j] by {
        if j < i {
            let pj = old_pile[j];
            assert(pile[j] == pj);
            assert(0 <= pj < old_tops.len());
            assert(seq[old_tops[pj] as int] <= seq[j]);
        } else {
            assert(pile[j] == stack_idx);
            assert(tops[stack_idx] == i);
        }
    }
    assert forall|k: int, l: int| 0 <= k < l < tops.len() implies seq[
        #[trigger] tops[k] as int] < seq[#[trigger] tops[l] as int] by {
        if l == stack_idx {
            assert(seq[old_tops[k] as int] < elem);
        } else if k == stack_idx {
            assert(seq[old_tops[k] as int] >= elem);
            assert(seq[old_tops[k] as int] < seq[old_tops[l] as int]);
        } else {
            assert(seq[old_tops[k] as int] < seq[old_tops[l] as int]);
        }
    }
    assert forall|j: int| 0 <= j < i + 1 implies j <= #[trigger] tops[pile[j]] as int by {
        if j < i {
            let pj = old_pile[j];
            assert(pile[j] == pj);
            assert(j <= old_tops[pj]);
            if pj == stack_idx {
                assert(tops[pj] == i);
            } else {
                assert(tops[pj] == old_tops[pj]);
            }
        } else {
            assert(tops[stack_idx] == i);
        }
    }
    assert forall|j: int, jj: int|
        0 <= jj < j < i + 1 && #[trigger] pile[j] > 0 && #[trigger] pile[jj] == pile[j] - 1 implies jj <= ptrs[j] by {
        if j < i {
            assert(old_pile[j] == pile[j] && old_pile[jj] == pile[jj]);
            assert(ptrs[j] == old_ptrs[j]);
        } else {
            assert(pile[jj] == old_pile[jj]);
            assert(jj <= old_tops[old_pile[jj]]);
        }
    }
    assert forall|j: int| 0 <= j < i + 1 && #[trigger] pile[j] > 0 implies {
        &&& ptrs[j] < j
        &&& pile[ptrs[j] as int] == pile[j] - 1
        &&& seq[ptrs[j] as int] < seq[j]
    } by {
        if j < i {
            assert(old_pile[j] > 0);
            assert(pile[j] == old_pile[j]);
            assert(ptrs[j] == old_ptrs[j]);
            assert(old_ptrs[j] < j);
            assert(pile[old_ptrs[j] as int] == old_pile[old_ptrs[j] as int]);
        } else {
            let p = old_tops[stack_idx - 1];
            assert(seq[p as int] < elem);
            assert(p < i);
            assert(pile[p as int] == old_pile[p as int]);
        }
    }
}

/// Returns the positions of a longest strictly increasing subsequence of `seq`: of those, the
/// one that patience sorting picks.
pub fn longest_increasing_subsequence(seq: &[usize]) -> (r: Vec<usize>)
    ensures
        is_increasing_subseq(seq@, r@),
        forall|idx: Seq<usize>| is_increasing_subseq(seq@, idx) ==> idx.len() <= r@.len(),
        is_patience_choice(seq@, r@),
{
    if seq.len() == 0 {
        proof {
            reveal(is_patience_choice);
            assert forall|idx: Seq<usize>| is_increasing_subseq(seq@, idx) implies idx.len() <= 0 by {
                if idx.len() > 0 {
                    assert(idx[0] < seq.len());
                }
            }
        }
        return Vec::new();
    }
    // seq[stack_tops[i]] is the element at the top of stack i.

    let mut stack_tops: Vec<usize> = Vec::new();
    // seq[pointers[i]] is the element that was at the top of the stack to the left at the time
    // that seq[i] was placed in a stack.
    let mut pointers: Vec<usize> = vec![usize::MAX; seq.len()];
    let ghost mut pile: Seq<int> = Seq::empty();

    let mut elem_idx: usize = 0;
    while elem_idx < seq.len()
        invariant
            placed(seq@, elem_idx as int, stack_tops@, pointers@, pile),
        decreases seq.len() - elem_idx,
    {
        let elem = seq[elem_idx];
        let stack_idx = lower_bound(seq, &stack_tops, elem);
        let ghost old_tops = stack_tops@;
        let ghost old_pile = pile;
        let ghost old_ptrs = pointers@;
        if stack_idx >= stack_tops.len() {
            stack_tops.push(elem_idx);
        } else {
            stack_tops.set(stack_idx, elem_idx);
        }
        if stack_idx > 0 {
            let p = stack_tops[stack_idx - 1];
            pointers.set(elem_idx, p);
        }
        proof {
            lemma_place(seq@, elem_idx as int, old_tops, stack_tops@, old_ptrs, pointers@, old_pile, stack_idx as int);
            pile = pile.push(stack_idx as int);
        }
        elem_idx = elem_idx + 1;
    }
    let ghost n = seq.len() as int;
    proof {
        assert forall|idx: Seq<usize>| is_increasing_subseq(seq@, idx) implies idx.len()
            <= stack_tops@.len() by {
            lemma_bounded_by_piles(seq@, pile, idx, stack_tops@.len() as int);
        }
    }
    // Reconstruct the longest increasing subsequence from the pointers.

    assert(0 <= pile[0] < stack_tops@.len());
    let len = stack_tops.len();
    proof {
        assert(stack_tops@[len - 1] < n && pile[stack_tops@[len - 1] as int] == len - 1);
    }
    let ghost ptrs = pointers@;
    assert(chain_ok(seq@, ptrs, pile));
    let mut ret: Vec<usize> = vec![usize::MAX; len];
    let mut idx: usize = stack_tops[len - 1];
    let mut i: usize = len;
    while i > 0
        invariant
            chain_ok(seq@, ptrs, pile),
            ptrs == pointers@,
            n == seq.len(),
            ret@.len() == len,
            0 <= i <= len,
            i > 0 ==> idx < n && pile[idx as int] == i - 1,
            forall|p: int| i <= p < len ==> #[trigger] ret@[p] < n && pile[ret@[p] as int] == p,
            forall|p: int|
                #![trigger ret@[p]]
                i <= p < len - 1 ==> pointers@[ret@[p + 1] as int] == ret@[p],
            i < len ==> (i > 0 ==> idx == pointers@[ret@[i as int] as int]),
            i == len ==> idx == stack_tops@[len - 1],
            i < len ==> ret@[len - 1] == stack_tops@[len - 1],
        decreases i,
    {
        i = i - 1;
        ret.set(i, idx);
        if i > 0 {
            idx = pointers[idx];
        }
    }
    proof {
        assert forall|k: int, l: int| 0 <= k < l < ret@.len() implies #[trigger] ret@[k]
            < #[trigger] ret@[l] && seq@[ret@[k] as int] < seq@[ret@[l] as int] by {
            lemma_chain(seq@, pointers@, pile, ret@, k, l);
        }
        reveal(is_patience_choice);
        assert forall|j: int| 0 <= j < n implies #[trigger] end_len(seq@, j) == pile[j] + 1 by {
            lemma_pile_is_end_len(seq@, pile, ptrs, j);
        }
        assert forall|p: int| 0 <= p < ret@.len() implies end_len(seq@, #[trigger] ret@[p] as int) == p + 1 by {
            assert(ret@[p] < n && pile[ret@[p] as int] == p);
        }
        assert forall|j: int| 0 <= j < n implies #[trigger] end_len(seq@, j) <= ret@.len() by {
            assert(0 <= pile[j] < stack_tops@.len());
        }
        assert forall|j: int| 0 <= j < n && #[trigger] end_len(seq@, j) == ret@.len() implies j <= ret@[ret@.len() - 1] by {
            assert(pile[j] == len - 1);
            assert(j <= stack_tops@[pile[j]]);
        }
        assert forall|p: int, jj: int| 0 < p < ret@.len() && 0 <= jj < #[trigger] ret@[p] && #[trigger] end_len(seq@, jj) == p
            implies jj <= ret@[p - 1] by {
            let j = ret@[p] as int;
            assert(pile[j] == p);
            assert(pile[jj] == p - 1);
            assert(jj <= pointers@[j]);
            assert(pointers@[ret@[(p - 1) + 1] as int] == ret@[p - 1]);
        }
    }
    ret
}

/// Each element that is not on the left-most stack points to a smaller, earlier element on the
/// stack to its left.
spec fn chain_ok(seq: Seq<usize>, pointers: Seq<usize>, pile: Seq<int>) -> bool {
    &&& pile.len() == seq.len()
    &&& pointers.len() == seq.len()
    &&& forall|j: int|
        0 <= j < seq.len() && #[trigger] pile[j] > 0 ==> {
            &&& pointers[j] < j
            &&& pile[pointers[j] as int] == pile[j] - 1
            &&& seq[pointers[j] as int] < seq[j]
        }
}

proof fn lemma_chain(seq: Seq<usize>, pointers: Seq<usize>, pile: Seq<int>, ret: Seq<usize>, k: int, l: int)
    requires
        0 <= k < l < ret.len(),
        pile.len() == seq.len(),
        forall|p: int| 0 <= p < ret.len() ==> #[trigger] ret[p] < seq.len() && pile[ret[p] as int] == p,
        forall|p: int| #![trigger ret[p]] 0 <= p < ret.len() - 1 ==> pointers[ret[p + 1] as int] == ret[p],
        forall|j: int|
            0 <= j < seq.len() && #[trigger] pile[j] > 0 ==> {
                &&& pointers[j] < j
                &&& pile[pointers[j] as int] == pile[j] - 1
                &&& seq[pointers[j] as int] < seq[j]
            },
    ensures
        ret[k] < ret[l],
        seq[ret[k] as int] < seq[ret[l] as int],
    decreases l - k,
{
    let j = ret[l] as int;
    assert(pile[j] == l);
    assert(pointers[ret[l] as int] == ret[l - 1]);
    if k < l - 1 {
        lemma_chain(seq, pointers, pile, ret, k, l - 1);
    }
}

} // verus!
