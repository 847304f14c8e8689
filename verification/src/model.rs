//! Mathematical model shared by every solver: the match window, sums over
//! selected indices, subset enumeration by bitmask, and what it means for an
//! index set to be a valid solution.

use vstd::prelude::*;

verus! {

/// Absolute value of an element, as a mathematical integer.
pub open spec fn abs1(x: i64) -> int {
    if x >= 0 {
        x as int
    } else {
        -(x as int)
    }
}

/// Sum of the absolute values of the first `k` elements.
pub open spec fn abs_upto(numbers: Seq<i64>, k: int) -> int
    decreases k,
{
    if k <= 0 {
        0
    } else {
        abs_upto(numbers, k - 1) + abs1(numbers[k - 1])
    }
}

/// Sum of the absolute values of all elements: a bound on the magnitude of
/// every subset sum.
pub open spec fn abs_total(numbers: Seq<i64>) -> int {
    abs_upto(numbers, numbers.len() as int)
}

/// The match predicate: `sum` lies within the closed window
/// `[target - tolerance, target + tolerance]`. With tolerance 0 this is
/// exact equality.
pub open spec fn in_window(sum: int, target: i64, tolerance: i64) -> bool {
    target - tolerance <= sum <= target + tolerance
}

/// Sum of the elements selected by a sequence of indices (each index counted
/// as often as it occurs).
pub open spec fn seq_sum(numbers: Seq<i64>, indices: Seq<usize>) -> int
    decreases indices.len(),
{
    if indices.len() == 0 {
        0
    } else {
        seq_sum(numbers, indices.drop_last()) + numbers[indices.last() as int]
    }
}

/// A valid solution: distinct in-range indices whose selected elements sum
/// within tolerance of the target.
pub open spec fn valid_solution(
    numbers: Seq<i64>,
    target: i64,
    tolerance: i64,
    indices: Seq<usize>,
) -> bool {
    &&& forall|k: int| 0 <= k < indices.len() ==> indices[k] < numbers.len()
    &&& forall|k1: int, k2: int|
        0 <= k1 < k2 < indices.len() ==> indices[k1] != indices[k2]
    &&& in_window(seq_sum(numbers, indices), target, tolerance)
}

/// A solution in canonical form: strictly increasing in-range indices whose
/// elements sum within the window.
pub open spec fn increasing_solution(
    numbers: Seq<i64>,
    target: i64,
    tolerance: i64,
    q: Seq<usize>,
) -> bool {
    &&& forall|k: int| 0 <= k < q.len() ==> q[k] < numbers.len()
    &&& forall|k1: int, k2: int| 0 <= k1 < k2 < q.len() ==> q[k1] < q[k2]
    &&& in_window(seq_sum(numbers, q), target, tolerance)
}

/// Whether bit `i` of `mask` is set (for `i < 64`).
pub open spec fn mask_bit(mask: u64, i: int) -> bool {
    (mask & (1u64 << (i as u64))) != 0
}

/// Sum of the elements at positions below `k` whose bit is set in `mask`.
pub open spec fn mask_sum_upto(numbers: Seq<i64>, mask: u64, k: int) -> int
    decreases k,
{
    if k <= 0 {
        0
    } else {
        mask_sum_upto(numbers, mask, k - 1) + if mask_bit(mask, k - 1) {
            numbers[k - 1]
        } else {
            0
        }
    }
}

/// The positions below `k` whose bit is set in `mask`, in ascending order.
pub open spec fn mask_indices_upto(mask: u64, k: int) -> Seq<usize>
    decreases k,
{
    if k <= 0 {
        Seq::empty()
    } else {
        if mask_bit(mask, k - 1) {
            mask_indices_upto(mask, k - 1).push((k - 1) as usize)
        } else {
            mask_indices_upto(mask, k - 1)
        }
    }
}

/// Sum of the elements at positions `lo + i` for the bits `i < k` set in
/// `mask`: the shifted form used when a half of the input is enumerated.
pub open spec fn mask_sum_from(numbers: Seq<i64>, mask: u64, lo: int, k: int) -> int
    decreases k,
{
    if k <= 0 {
        0
    } else {
        mask_sum_from(numbers, mask, lo, k - 1) + if mask_bit(mask, k - 1) {
            numbers[lo + k - 1]
        } else {
            0
        }
    }
}

/// The positions `lo + i` for the bits `i < k` set in `mask`, ascending.
pub open spec fn mask_indices_from(mask: u64, lo: int, k: int) -> Seq<usize>
    decreases k,
{
    if k <= 0 {
        Seq::empty()
    } else {
        if mask_bit(mask, k - 1) {
            mask_indices_from(mask, lo, k - 1).push((lo + k - 1) as usize)
        } else {
            mask_indices_from(mask, lo, k - 1)
        }
    }
}

/// The shifted index set of a mask is ascending, lies in `[lo, lo + k)`, and
/// sums to the shifted mask sum.
pub proof fn lemma_mask_indices_from_valid(numbers: Seq<i64>, mask: u64, lo: int, k: int)
    requires
        0 <= lo,
        0 <= k,
        lo + k <= numbers.len(),
        lo + k <= usize::MAX,
    ensures
        forall|j: int|
            #![trigger mask_indices_from(mask, lo, k)[j]]
            0 <= j < mask_indices_from(mask, lo, k).len() ==> lo <= mask_indices_from(
                mask,
                lo,
                k,
            )[j] < lo + k,
        forall|j1: int, j2: int|
            0 <= j1 < j2 < mask_indices_from(mask, lo, k).len() ==> mask_indices_from(
                mask,
                lo,
                k,
            )[j1] < mask_indices_from(mask, lo, k)[j2],
        seq_sum(numbers, mask_indices_from(mask, lo, k)) == mask_sum_from(numbers, mask, lo, k),
    decreases k,
{
    if k > 0 {
        lemma_mask_indices_from_valid(numbers, mask, lo, k - 1);
        let prev = mask_indices_from(mask, lo, k - 1);
        if mask_bit(mask, k - 1) {
            let cur = prev.push((lo + k - 1) as usize);
            assert(cur.drop_last() =~= prev);
        }
    }
}

/// Two masks with equal bits below `k` select the same shifted indices.
pub proof fn lemma_mask_indices_from_eq(m1: u64, m2: u64, lo: int, k: int)
    requires
        0 <= k <= 64,
        forall|i: int| 0 <= i < k ==> mask_bit(m1, i) == mask_bit(m2, i),
    ensures
        mask_indices_from(m1, lo, k) == mask_indices_from(m2, lo, k),
    decreases k,
{
    if k > 0 {
        lemma_mask_indices_from_eq(m1, m2, lo, k - 1);
    }
}

/// Every strictly increasing index list inside `[lo, lo + k)` is the shifted
/// index set of some mask below 2^k: enumerating the masks of a half reaches
/// every subset of that half.
pub proof fn lemma_mask_exists_from(s: Seq<usize>, lo: int, k: int)
    requires
        0 <= lo,
        0 <= k <= 63,
        lo + k <= usize::MAX,
        forall|i: int| 0 <= i < s.len() ==> lo <= s[i] && s[i] < lo + k,
        forall|i1: int, i2: int| 0 <= i1 < i2 < s.len() ==> s[i1] < s[i2],
    ensures
        exists|m: u64| m < (1u64 << (k as u64)) && #[trigger] mask_indices_from(m, lo, k) == s,
    decreases k,
{
    if k == 0 {
        assert(s.len() == 0) by {
            if s.len() > 0 {
                assert(lo <= s[0] && s[0] < lo + k);
            }
        }
        assert(s =~= Seq::<usize>::empty());
        assert(mask_indices_from(0u64, lo, 0) =~= Seq::<usize>::empty());
        assert(0u64 < (1u64 << 0u64)) by (bit_vector);
        assert(0u64 < (1u64 << (k as u64)) && mask_indices_from(0u64, lo, k) == s);
    } else if s.len() > 0 && s.last() == lo + k - 1 {
        let front = s.drop_last();
        assert(forall|i: int| 0 <= i < front.len() ==> lo <= front[i] && front[i] < lo + k - 1);
        lemma_mask_exists_from(front, lo, k - 1);
        let m0 = choose|m0: u64|
            m0 < (1u64 << ((k - 1) as u64)) && #[trigger] mask_indices_from(m0, lo, k - 1)
                == front;
        let kk = (k - 1) as u64;
        let m = m0 | (1u64 << kk);
        assert(m < (1u64 << ((kk + 1) as u64))) by (bit_vector)
            requires
                m0 < (1u64 << kk),
                kk < 63,
                m == m0 | (1u64 << kk);
        assert((m & (1u64 << kk)) != 0) by (bit_vector)
            requires
                kk < 64,
                m == m0 | (1u64 << kk);
        assert(mask_bit(m, k - 1));
        assert forall|i: int| 0 <= i < k - 1 implies mask_bit(m, i) == mask_bit(m0, i) by {
            let ii = i as u64;
            assert((m & (1u64 << ii)) == (m0 & (1u64 << ii))) by (bit_vector)
                requires
                    ii < kk,
                    kk < 64,
                    m == m0 | (1u64 << kk);
        }
        lemma_mask_indices_from_eq(m, m0, lo, k - 1);
        assert(mask_indices_from(m, lo, k) == front.push((lo + k - 1) as usize));
        assert(front.push((lo + k - 1) as usize) =~= s);
        assert(m < (1u64 << (k as u64)) && mask_indices_from(m, lo, k) == s);
    } else {
        assert forall|i: int| 0 <= i < s.len() implies lo <= s[i] && s[i] < lo + k - 1 by {
            if i < s.len() - 1 {
                assert(s[i] < s[s.len() - 1] < lo + k);
            }
        }
        lemma_mask_exists_from(s, lo, k - 1);
        let m0 = choose|m0: u64|
            m0 < (1u64 << ((k - 1) as u64)) && #[trigger] mask_indices_from(m0, lo, k - 1) == s;
        let kk = (k - 1) as u64;
        assert((m0 & (1u64 << kk)) == 0) by (bit_vector)
            requires
                kk < 64,
                m0 < (1u64 << kk);
        assert(!mask_bit(m0, k - 1));
        assert(m0 < (1u64 << ((kk + 1) as u64))) by (bit_vector)
            requires
                kk < 63,
                m0 < (1u64 << kk);
        assert(mask_indices_from(m0, lo, k) == mask_indices_from(m0, lo, k - 1));
        assert(m0 < (1u64 << (k as u64)) && mask_indices_from(m0, lo, k) == s);
    }
}

/// Anything recorded stays recorded when a result list grows.
pub proof fn lemma_dv_contains_push(s: Seq<Vec<usize>>, x: Vec<usize>, q: Seq<usize>)
    requires
        dv_of(s).contains(q),
    ensures
        dv_of(s.push(x)).contains(q),
{
    let w = choose|w: int| 0 <= w < dv_of(s).len() && dv_of(s)[w] == q;
    assert(dv_of(s.push(x))[w] == q);
}

/// Whether the subset selected by `mask` over the first `k` positions matches
/// the window.
pub open spec fn mask_matches(
    numbers: Seq<i64>,
    target: i64,
    tolerance: i64,
    mask: u64,
    k: int,
) -> bool {
    in_window(mask_sum_upto(numbers, mask, k), target, tolerance)
}

/// The index sets of all matching masks in `[lo, hi)`, in ascending mask
/// order, each over the first `k` positions.
pub open spec fn bit_matches(
    numbers: Seq<i64>,
    target: i64,
    tolerance: i64,
    lo: u64,
    hi: u64,
    k: int,
) -> Seq<Seq<usize>>
    decreases hi - lo,
{
    if hi <= lo {
        Seq::empty()
    } else {
        bit_matches(numbers, target, tolerance, lo, (hi - 1) as u64, k) + if mask_matches(
            numbers,
            target,
            tolerance,
            (hi - 1) as u64,
            k,
        ) {
            seq![mask_indices_upto((hi - 1) as u64, k)]
        } else {
            Seq::empty()
        }
    }
}

/// Number of bit positions a 64-bit mask can address: the element count,
/// capped at 64.
pub open spec fn kbits(n: int) -> int {
    if n < 64 {
        n
    } else {
        64
    }
}

/// Keep at most the first entry: the defined truncation applied when a single
/// solution was asked for.
pub open spec fn truncate_one(results: Seq<Seq<usize>>) -> Seq<Seq<usize>> {
    if results.len() <= 1 {
        results
    } else {
        seq![results[0]]
    }
}

/// The views of a sequence of index lists: the shape every solver's result
/// is stated in.
pub open spec fn dv_of(s: Seq<Vec<usize>>) -> Seq<Seq<usize>> {
    s.map_values(|v: Vec<usize>| v@)
}

/// `dv_of` commutes with `push`.
pub proof fn lemma_dv_of_push(s: Seq<Vec<usize>>, x: Vec<usize>)
    ensures
        dv_of(s.push(x)) == dv_of(s).push(x@),
{
    assert(dv_of(s.push(x)) =~= dv_of(s).push(x@));
}

/// `dv_of` commutes with concatenation.
pub proof fn lemma_dv_of_concat(a: Seq<Vec<usize>>, b: Seq<Vec<usize>>)
    ensures
        dv_of(a + b) == dv_of(a) + dv_of(b),
{
    assert(dv_of(a + b) =~= dv_of(a) + dv_of(b));
}

/// `abs_upto` never decreases as more elements are counted.
pub proof fn lemma_abs_upto_mono(numbers: Seq<i64>, k1: int, k2: int)
    requires
        k1 <= k2,
    ensures
        abs_upto(numbers, k1) <= abs_upto(numbers, k2),
    decreases k2 - k1,
{
    if k1 < k2 {
        lemma_abs_upto_mono(numbers, k1, k2 - 1);
    }
}

/// Every partial mask sum is bounded in magnitude by the partial sum of
/// absolute values.
pub proof fn lemma_mask_sum_bound(numbers: Seq<i64>, mask: u64, k: int)
    ensures
        -abs_upto(numbers, k) <= mask_sum_upto(numbers, mask, k) <= abs_upto(numbers, k),
    decreases k,
{
    if k > 0 {
        lemma_mask_sum_bound(numbers, mask, k - 1);
    }
}

/// The index set of a mask over the first `k` positions is ascending and
/// in range, and sums to the mask sum.
pub proof fn lemma_mask_indices_valid(numbers: Seq<i64>, mask: u64, k: int)
    requires
        0 <= k <= numbers.len(),
        k <= usize::MAX,
    ensures
        forall|j: int|
            0 <= j < mask_indices_upto(mask, k).len() ==> mask_indices_upto(mask, k)[j] < k,
        forall|j1: int, j2: int|
            0 <= j1 < j2 < mask_indices_upto(mask, k).len() ==> mask_indices_upto(mask, k)[j1]
                < mask_indices_upto(mask, k)[j2],
        seq_sum(numbers, mask_indices_upto(mask, k)) == mask_sum_upto(numbers, mask, k),
    decreases k,
{
    if k > 0 {
        lemma_mask_indices_valid(numbers, mask, k - 1);
        let prev = mask_indices_upto(mask, k - 1);
        if mask_bit(mask, k - 1) {
            let cur = prev.push((k - 1) as usize);
            assert(cur.drop_last() =~= prev);
        }
    }
}

/// `seq_sum` distributes over concatenation of index lists.
pub proof fn lemma_seq_sum_concat(numbers: Seq<i64>, a: Seq<usize>, b: Seq<usize>)
    ensures
        seq_sum(numbers, a + b) == seq_sum(numbers, a) + seq_sum(numbers, b),
    decreases b.len(),
{
    if b.len() == 0 {
        assert(a + b =~= a);
    } else {
        assert((a + b).drop_last() =~= a + b.drop_last());
        assert((a + b).last() == b.last());
        lemma_seq_sum_concat(numbers, a, b.drop_last());
    }
}

/// The sum over strictly increasing indices below `hi` is bounded in
/// magnitude by the sum of absolute values below `hi`.
pub proof fn lemma_seq_sum_bound(numbers: Seq<i64>, indices: Seq<usize>, hi: int)
    requires
        0 <= hi <= numbers.len(),
        forall|k: int| 0 <= k < indices.len() ==> indices[k] < hi,
        forall|k1: int, k2: int| 0 <= k1 < k2 < indices.len() ==> indices[k1] < indices[k2],
    ensures
        -abs_upto(numbers, hi) <= seq_sum(numbers, indices) <= abs_upto(numbers, hi),
    decreases indices.len(),
{
    lemma_abs_upto_mono(numbers, 0, hi);
    if indices.len() > 0 {
        let last = indices.last() as int;
        let front = indices.drop_last();
        assert(forall|k: int| 0 <= k < front.len() ==> front[k] < last);
        lemma_seq_sum_bound(numbers, front, last);
        lemma_abs_upto_mono(numbers, last + 1, hi);
    }
}

/// Removing one index from a list subtracts its element from the sum.
pub proof fn lemma_seq_sum_remove(numbers: Seq<i64>, s: Seq<usize>, p: int)
    requires
        0 <= p < s.len(),
    ensures
        seq_sum(numbers, s.remove(p)) == seq_sum(numbers, s) - numbers[s[p] as int],
    decreases s.len(),
{
    if p == s.len() - 1 {
        assert(s.remove(p) =~= s.drop_last());
    } else {
        assert(s.remove(p).drop_last() =~= s.drop_last().remove(p));
        assert(s.remove(p).last() == s.last());
        lemma_seq_sum_remove(numbers, s.drop_last(), p);
    }
}

/// The sum over pairwise distinct indices below `hi` is bounded in magnitude
/// by the sum of absolute values below `hi`, in any index order.
pub proof fn lemma_seq_sum_bound_distinct(numbers: Seq<i64>, s: Seq<usize>, hi: int)
    requires
        0 <= hi <= numbers.len(),
        forall|k: int| 0 <= k < s.len() ==> s[k] < hi,
        forall|k1: int, k2: int| 0 <= k1 < k2 < s.len() ==> s[k1] != s[k2],
    ensures
        -abs_upto(numbers, hi) <= seq_sum(numbers, s) <= abs_upto(numbers, hi),
    decreases hi,
{
    lemma_abs_upto_mono(numbers, 0, hi);
    if s.len() > 0 {
        assert(s[0] < hi);
        if exists|p: int| 0 <= p < s.len() && s[p] == hi - 1 {
            let p = choose|p: int| 0 <= p < s.len() && s[p] == hi - 1;
            lemma_seq_sum_remove(numbers, s, p);
            let s2 = s.remove(p);
            assert(forall|k: int| 0 <= k < s2.len() ==> s2[k] < hi - 1);
            assert(forall|k1: int, k2: int|
                0 <= k1 < k2 < s2.len() ==> s2[k1] != s2[k2]);
            lemma_seq_sum_bound_distinct(numbers, s2, hi - 1);
            assert(abs_upto(numbers, hi) == abs_upto(numbers, hi - 1) + abs1(numbers[hi - 1]));
        } else {
            assert(forall|k: int| 0 <= k < s.len() ==> s[k] < hi - 1);
            lemma_seq_sum_bound_distinct(numbers, s, hi - 1);
            assert(abs_upto(numbers, hi - 1) <= abs_upto(numbers, hi)) by {
                lemma_abs_upto_mono(numbers, hi - 1, hi);
            }
        }
    }
}

/// Two index lists hold the same indices, in whatever order and multiplicity.
pub open spec fn same_index_set(a: Seq<usize>, b: Seq<usize>) -> bool {
    forall|x: usize| #![trigger a.contains(x)] #![trigger b.contains(x)] a.contains(x)
        <==> b.contains(x)
}

/// What a grown result list contains, the original contained.
pub proof fn lemma_dv_contains_grow(r1: Seq<Vec<usize>>, r2: Seq<Vec<usize>>, q: Seq<usize>)
    requires
        r2.len() >= r1.len(),
        forall|j: int| 0 <= j < r1.len() ==> r2[j] == r1[j],
        dv_of(r1).contains(q),
    ensures
        dv_of(r2).contains(q),
{
    let w = choose|w: int| 0 <= w < dv_of(r1).len() && dv_of(r1)[w] == q;
    assert(r2[w] == r1[w]);
    assert(dv_of(r2)[w] == q);
}

/// How many entries of an index list lie below `mid`.
pub open spec fn cnt_below(q: Seq<usize>, mid: int) -> int
    decreases q.len(),
{
    if q.len() == 0 {
        0
    } else {
        cnt_below(q.drop_last(), mid) + if q.last() < mid {
            1int
        } else {
            0int
        }
    }
}

/// A strictly increasing index list splits at `cnt_below`: everything before
/// it lies below `mid`, everything from it on lies at or above `mid`.
pub proof fn lemma_split_increasing(q: Seq<usize>, mid: int)
    requires
        forall|k1: int, k2: int| 0 <= k1 < k2 < q.len() ==> q[k1] < q[k2],
    ensures
        0 <= cnt_below(q, mid) <= q.len(),
        forall|k: int| 0 <= k < cnt_below(q, mid) ==> q[k] < mid,
        forall|k: int| cnt_below(q, mid) <= k < q.len() ==> q[k] >= mid,
    decreases q.len(),
{
    if q.len() > 0 {
        let front = q.drop_last();
        lemma_split_increasing(front, mid);
        assert(forall|k: int| 0 <= k < front.len() ==> front[k] == q[k]);
        if q.last() < mid {
            assert(cnt_below(front, mid) == front.len()) by {
                if cnt_below(front, mid) < front.len() {
                    assert(front[cnt_below(front, mid)] >= mid);
                    assert(q[cnt_below(front, mid)] < q[q.len() - 1]);
                }
            }
        }
    }
}

/// Every non-empty index list has a position holding its maximum.
pub proof fn lemma_seq_max_pos(s: Seq<usize>) -> (p: int)
    requires
        s.len() > 0,
    ensures
        0 <= p < s.len(),
        forall|k: int| 0 <= k < s.len() ==> s[k] <= s[p],
    decreases s.len(),
{
    if s.len() == 1 {
        0
    } else {
        let front = s.drop_last();
        let p0 = lemma_seq_max_pos(front);
        assert(forall|k: int| 0 <= k < front.len() ==> front[k] == s[k]);
        if s.last() >= s[p0] {
            s.len() - 1
        } else {
            p0
        }
    }
}

/// Removing one entry of a duplicate-free list removes exactly that index
/// from its membership.
pub proof fn lemma_remove_membership(s: Seq<usize>, p: int)
    requires
        0 <= p < s.len(),
        forall|k1: int, k2: int| 0 <= k1 < k2 < s.len() ==> s[k1] != s[k2],
    ensures
        forall|k1: int, k2: int|
            0 <= k1 < k2 < s.remove(p).len() ==> s.remove(p)[k1] != s.remove(p)[k2],
        forall|y: usize|
            #[trigger] s.remove(p).contains(y) <==> (s.contains(y) && y != s[p]),
{
    let s0 = s.remove(p);
    assert forall|y: usize|
        #[trigger] s0.contains(y) <==> (s.contains(y) && y != s[p]) by {
        if s0.contains(y) {
            let w = choose|w: int| 0 <= w < s0.len() && s0[w] == y;
            if w < p {
                assert(s[w] == y);
            } else {
                assert(s[w + 1] == y);
            }
            assert(s.contains(y));
        }
        if s.contains(y) && y != s[p] {
            let w = choose|w: int| 0 <= w < s.len() && s[w] == y;
            assert(w != p);
            if w < p {
                assert(s0[w] == y);
            } else {
                assert(s0[w - 1] == y);
            }
            assert(s0.contains(y));
        }
    }
}

/// Two duplicate-free lists holding the same indices select the same sum,
/// whatever order either lists them in.
pub proof fn lemma_seq_sum_same_elements(numbers: Seq<i64>, a: Seq<usize>, b: Seq<usize>)
    requires
        forall|k1: int, k2: int| 0 <= k1 < k2 < a.len() ==> a[k1] != a[k2],
        forall|k1: int, k2: int| 0 <= k1 < k2 < b.len() ==> b[k1] != b[k2],
        same_index_set(a, b),
    ensures
        seq_sum(numbers, a) == seq_sum(numbers, b),
    decreases a.len(),
{
    if a.len() == 0 {
        assert(b.len() == 0) by {
            if b.len() > 0 {
                assert(b.contains(b[0]));
                assert(a.contains(b[0]));
                let w = choose|w: int| 0 <= w < a.len() && a[w] == b[0];
            }
        }
    } else {
        let x = a.last();
        assert(a.contains(x)) by {
            assert(a[a.len() - 1] == x);
        }
        assert(b.contains(x));
        let p = choose|p: int| 0 <= p < b.len() && b[p] == x;
        lemma_seq_sum_remove(numbers, b, p);
        let a0 = a.drop_last();
        let b0 = b.remove(p);
        assert(a0 =~= a.remove(a.len() - 1));
        lemma_remove_membership(a, a.len() - 1);
        lemma_remove_membership(b, p);
        assert forall|y: usize|
            #![trigger a0.contains(y)]
            #![trigger b0.contains(y)]
            a0.contains(y) <==> b0.contains(y) by {
            assert(a.remove(a.len() - 1).contains(y) <==> (a.contains(y) && y != x));
            assert(b0.contains(y) <==> (b.contains(y) && y != x));
        }
        lemma_seq_sum_same_elements(numbers, a0, b0);
    }
}

/// Every duplicate-free index list has a strictly increasing reordering.
pub proof fn lemma_increasing_reorder(w: Seq<usize>) -> (q: Seq<usize>)
    requires
        forall|k1: int, k2: int| 0 <= k1 < k2 < w.len() ==> w[k1] != w[k2],
    ensures
        forall|k1: int, k2: int| 0 <= k1 < k2 < q.len() ==> q[k1] < q[k2],
        same_index_set(q, w),
    decreases w.len(),
{
    if w.len() == 0 {
        let q = Seq::<usize>::empty();
        assert forall|y: usize|
            #![trigger q.contains(y)]
            #![trigger w.contains(y)]
            q.contains(y) <==> w.contains(y) by {
            if q.contains(y) {
                let t = choose|t: int| 0 <= t < q.len() && q[t] == y;
            }
            if w.contains(y) {
                let t = choose|t: int| 0 <= t < w.len() && w[t] == y;
            }
        }
        q
    } else {
        let p = lemma_seq_max_pos(w);
        let x = w[p];
        let w0 = w.remove(p);
        lemma_remove_membership(w, p);
        let q0 = lemma_increasing_reorder(w0);
        let q = q0.push(x);
        assert forall|k: int| 0 <= k < q0.len() implies q0[k] < x by {
            assert(q0.contains(q0[k])) by {
                assert(q0[k] == q0[k]);
            }
            assert(w0.contains(q0[k]));
            assert(w.contains(q0[k]) && q0[k] != x);
            let t = choose|t: int| 0 <= t < w.len() && w[t] == q0[k];
            assert(w[t] <= w[p]);
        }
        assert forall|y: usize|
            #![trigger q.contains(y)]
            #![trigger w.contains(y)]
            q.contains(y) <==> w.contains(y) by {
            if q.contains(y) {
                let t = choose|t: int| 0 <= t < q.len() && q[t] == y;
                if t < q0.len() {
                    assert(q0[t] == y);
                    assert(q0.contains(y));
                    assert(w0.contains(y));
                } else {
                    assert(y == x);
                    assert(w[p] == y);
                }
                assert(w.contains(y));
            }
            if w.contains(y) {
                if y == x {
                    assert(q[q.len() - 1] == y);
                    assert(q.contains(y));
                } else {
                    assert(w0.contains(y));
                    assert(q0.contains(y));
                    let t = choose|t: int| 0 <= t < q0.len() && q0[t] == y;
                    assert(q[t] == y);
                    assert(q.contains(y));
                }
            }
        }
        q
    }
}

/// Copy a list of indices element by element.
pub fn clone_indices(v: &Vec<usize>) -> (r: Vec<usize>)
    ensures
        r@ == v@,
{
    let mut r: Vec<usize> = Vec::new();
    let mut i: usize = 0;
    proof {
        assert(r@ =~= v@.subrange(0, 0));
    }
    while i < v.len()
        invariant
            0 <= i <= v@.len(),
            r@ == v@.subrange(0, i as int),
        decreases v@.len() - i,
    {
        r.push(v[i]);
        proof {
            assert(r@ =~= v@.subrange(0, i + 1));
        }
        i = i + 1;
    }
    proof {
        assert(r@ =~= v@);
    }
    r
}

/// Copy a list of index lists element by element.
pub fn clone_paths(v: &Vec<Vec<usize>>) -> (r: Vec<Vec<usize>>)
    ensures
        r@.len() == v@.len(),
        forall|j: int| 0 <= j < v@.len() ==> r@[j]@ == v@[j]@,
{
    let mut r: Vec<Vec<usize>> = Vec::new();
    let mut i: usize = 0;
    while i < v.len()
        invariant
            0 <= i <= v@.len(),
            r@.len() == i,
            forall|j: int| 0 <= j < i ==> r@[j]@ == v@[j]@,
        decreases v@.len() - i,
    {
        let p = clone_indices(&v[i]);
        r.push(p);
        i = i + 1;
    }
    r
}

/// Concatenate two lists of indices into a fresh list.
pub fn concat_indices(a: &Vec<usize>, b: &Vec<usize>) -> (r: Vec<usize>)
    ensures
        r@ == a@ + b@,
{
    let mut r = clone_indices(a);
    let mut i: usize = 0;
    proof {
        assert(r@ =~= a@ + b@.subrange(0, 0));
    }
    while i < b.len()
        invariant
            0 <= i <= b@.len(),
            r@ == a@ + b@.subrange(0, i as int),
        decreases b@.len() - i,
    {
        r.push(b[i]);
        proof {
            assert(r@ =~= a@ + b@.subrange(0, i + 1));
        }
        i = i + 1;
    }
    proof {
        assert(r@ =~= a@ + b@);
    }
    r
}

/// Two masks with equal bits below `k` select the same indices below `k`.
pub proof fn lemma_mask_indices_eq(m1: u64, m2: u64, k: int)
    requires
        0 <= k <= 64,
        forall|i: int| 0 <= i < k ==> mask_bit(m1, i) == mask_bit(m2, i),
    ensures
        mask_indices_upto(m1, k) == mask_indices_upto(m2, k),
    decreases k,
{
    if k > 0 {
        lemma_mask_indices_eq(m1, m2, k - 1);
    }
}

/// Every strictly increasing index list below `k` is the index list of some
/// mask below 2^k: exhaustive mask enumeration reaches every index set.
pub proof fn lemma_mask_exists(s: Seq<usize>, k: int)
    requires
        0 <= k <= 63,
        forall|i: int| 0 <= i < s.len() ==> s[i] < k,
        forall|i1: int, i2: int| 0 <= i1 < i2 < s.len() ==> s[i1] < s[i2],
    ensures
        exists|m: u64| m < (1u64 << (k as u64)) && #[trigger] mask_indices_upto(m, k) == s,
    decreases k,
{
    if k == 0 {
        assert(s.len() == 0) by {
            if s.len() > 0 {
                assert(s[0] < 0);
            }
        }
        assert(s =~= Seq::<usize>::empty());
        assert(mask_indices_upto(0u64, 0) =~= Seq::<usize>::empty());
        assert(0u64 < (1u64 << 0u64)) by (bit_vector);
        assert(0u64 < (1u64 << (k as u64)) && mask_indices_upto(0u64, k) == s);
    } else if s.len() > 0 && s.last() == k - 1 {
        let front = s.drop_last();
        assert(forall|i: int| 0 <= i < front.len() ==> front[i] < k - 1);
        lemma_mask_exists(front, k - 1);
        let m0 = choose|m0: u64|
            m0 < (1u64 << ((k - 1) as u64)) && #[trigger] mask_indices_upto(m0, k - 1) == front;
        let kk = (k - 1) as u64;
        let m = m0 | (1u64 << kk);
        assert(m < (1u64 << ((kk + 1) as u64))) by (bit_vector)
            requires
                m0 < (1u64 << kk),
                kk < 63,
                m == m0 | (1u64 << kk);
        assert((m & (1u64 << kk)) != 0) by (bit_vector)
            requires
                kk < 64,
                m == m0 | (1u64 << kk);
        assert(mask_bit(m, k - 1));
        assert forall|i: int| 0 <= i < k - 1 implies mask_bit(m, i) == mask_bit(m0, i) by {
            let ii = i as u64;
            assert((m & (1u64 << ii)) == (m0 & (1u64 << ii))) by (bit_vector)
                requires
                    ii < kk,
                    kk < 64,
                    m == m0 | (1u64 << kk);
        }
        lemma_mask_indices_eq(m, m0, k - 1);
        assert(mask_indices_upto(m, k) == front.push((k - 1) as usize));
        assert(front.push((k - 1) as usize) =~= s);
        assert(m < (1u64 << (k as u64)) && mask_indices_upto(m, k) == s);
    } else {
        assert forall|i: int| 0 <= i < s.len() implies s[i] < k - 1 by {
            if i < s.len() - 1 {
                assert(s[i] < s[s.len() - 1] < k);
            }
        }
        lemma_mask_exists(s, k - 1);
        let m0 = choose|m0: u64|
            m0 < (1u64 << ((k - 1) as u64)) && #[trigger] mask_indices_upto(m0, k - 1) == s;
        let kk = (k - 1) as u64;
        assert((m0 & (1u64 << kk)) == 0) by (bit_vector)
            requires
                kk < 64,
                m0 < (1u64 << kk);
        assert(!mask_bit(m0, k - 1));
        assert(m0 < (1u64 << ((kk + 1) as u64))) by (bit_vector)
            requires
                kk < 63,
                m0 < (1u64 << kk);
        assert(mask_indices_upto(m0, k) == mask_indices_upto(m0, k - 1));
        assert(m0 < (1u64 << (k as u64)) && mask_indices_upto(m0, k) == s);
    }
}

/// Every entry of `bit_matches` is a valid solution.
pub proof fn lemma_bit_matches_valid(
    numbers: Seq<i64>,
    target: i64,
    tolerance: i64,
    lo: u64,
    hi: u64,
    k: int,
)
    requires
        0 <= k <= numbers.len(),
        k <= usize::MAX,
    ensures
        forall|j: int|
            0 <= j < bit_matches(numbers, target, tolerance, lo, hi, k).len() ==> valid_solution(
                numbers,
                target,
                tolerance,
                bit_matches(numbers, target, tolerance, lo, hi, k)[j],
            ),
    decreases hi - lo,
{
    if hi > lo {
        lemma_bit_matches_valid(numbers, target, tolerance, lo, (hi - 1) as u64, k);
        let prev = bit_matches(numbers, target, tolerance, lo, (hi - 1) as u64, k);
        let cur = bit_matches(numbers, target, tolerance, lo, hi, k);
        if mask_matches(numbers, target, tolerance, (hi - 1) as u64, k) {
            lemma_mask_indices_valid(numbers, (hi - 1) as u64, k);
            assert(valid_solution(numbers, target, tolerance, mask_indices_upto((hi - 1) as u64, k)));
            assert(forall|j: int| 0 <= j < cur.len() ==> cur[j] == if j < prev.len() {
                prev[j]
            } else {
                mask_indices_upto((hi - 1) as u64, k)
            });
        } else {
            assert(cur =~= prev);
        }
    }
}

/// `bit_matches` over adjacent ranges concatenates.
pub proof fn lemma_bit_matches_concat(
    numbers: Seq<i64>,
    target: i64,
    tolerance: i64,
    lo: u64,
    mid: u64,
    hi: u64,
    k: int,
)
    requires
        lo <= mid <= hi,
    ensures
        bit_matches(numbers, target, tolerance, lo, hi, k) == bit_matches(
            numbers,
            target,
            tolerance,
            lo,
            mid,
            k,
        ) + bit_matches(numbers, target, tolerance, mid, hi, k),
    decreases hi - mid,
{
    if hi == mid {
        assert(bit_matches(numbers, target, tolerance, mid, hi, k) =~= Seq::<Seq<usize>>::empty());
        assert(bit_matches(numbers, target, tolerance, lo, hi, k) =~= bit_matches(
            numbers,
            target,
            tolerance,
            lo,
            mid,
            k,
        ) + bit_matches(numbers, target, tolerance, mid, hi, k));
    } else {
        lemma_bit_matches_concat(numbers, target, tolerance, lo, mid, (hi - 1) as u64, k);
        assert(bit_matches(numbers, target, tolerance, lo, hi, k) =~= bit_matches(
            numbers,
            target,
            tolerance,
            lo,
            mid,
            k,
        ) + bit_matches(numbers, target, tolerance, mid, hi, k));
    }
}

} // verus!
