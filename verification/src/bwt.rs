//! Construction of the Burrows-Wheeler Transform (BWT) from a text and a
//! suffix array computed for it upstream.
//!
//! The text is a sequence of symbols from a small numeric alphabet in which
//! the value `0` serves as a terminator; a multi-contig text holds one `0`
//! per contig. The suffix array is trusted to be a permutation of the text's
//! positions sorted under the caller's ordering convention; no comparison or
//! sorting happens here. The BWT at rank `k` is the symbol cyclically
//! preceding the suffix that starts at `sa[k]`.

use vstd::prelude::*;
use vstd::multiset::group_multiset_axioms;
use vstd::relations::injective_on;
use vstd::seq_lib::group_to_multiset_ensures;
use vstd::set_lib::lemma_int_range;
use vstd::set_lib::lemma_map_size;
use vstd::set_lib::lemma_subset_equality;
use vstd::set_lib::set_int_range;

verus! {

/// Position of the cyclic predecessor of position `p` in a text of length
/// `n`: one to the left, wrapping from position `0` to the last position.
pub open spec fn cyclic_pred(p: int, n: int) -> int {
    if p == 0 {
        n - 1
    } else {
        p - 1
    }
}

/// The BWT of `text` under suffix array `sa`: at each rank the symbol at the
/// cyclic predecessor of the suffix's starting position.
pub open spec fn bwt_spec(text: Seq<u8>, sa: Seq<u32>) -> Seq<u8> {
    Seq::new(sa.len(), |k: int| text[cyclic_pred(sa[k] as int, text.len() as int)])
}

/// Every element of `sa` is a position of a text of length `n`.
pub open spec fn sa_in_range(sa: Seq<u32>, n: int) -> bool {
    forall|k: int| 0 <= k < sa.len() ==> (sa[k] as int) < n
}

/// No position occurs twice in `sa`.
pub open spec fn sa_distinct(sa: Seq<u32>) -> bool {
    forall|i: int, j: int| 0 <= i < j < sa.len() ==> sa[i] != sa[j]
}

/// `sa` is a permutation of the positions `0 .. n`: it has length `n` and
/// its elements are distinct positions below `n` (distinctness over a full
/// range forces every position to occur).
pub open spec fn is_permutation(sa: Seq<u32>, n: int) -> bool {
    &&& sa.len() == n
    &&& sa_in_range(sa, n)
    &&& sa_distinct(sa)
}

/// Why a build was refused, with the offending rank and the value found
/// there, for diagnosis.
#[derive(Clone, Copy, Debug, PartialEq, Eq, Structural)]
pub enum BwtError {
    /// `sa[rank] == value` is not a position of the text: `value >= n`.
    OutOfRange { rank: usize, value: u32 },
    /// `sa[rank] == value` already occurred at an earlier rank, so `sa`
    /// cannot be a permutation of the text's positions.
    NonPermutation { rank: usize, value: u32 },
}

/// The first `m` elements of `sa` are positions of a text of length `n` and
/// are pairwise distinct: no fault lies at a rank below `m`.
pub open spec fn clean_prefix(sa: Seq<u32>, n: int, m: int) -> bool {
    &&& forall|k: int| 0 <= k < m ==> (sa[k] as int) < n
    &&& forall|i: int, j: int| 0 <= i < j < m ==> sa[i] != sa[j]
}

/// Builds the BWT of `text` under the suffix array `sa`.
///
/// The suffix array's ordering convention is trusted entirely: this function
/// only reads, for each rank, the symbol at the cyclic predecessor of the
/// suffix's starting position. Terminator symbols receive no special
/// treatment. Callers that cannot establish the range precondition use
/// [`try_build_bwt`] or [`build_bwt_validated`] instead.
pub fn build_bwt(text: &[u8], sa: &[u32]) -> (bwt: Vec<u8>)
    requires
        sa@.len() == text@.len(),
        sa_in_range(sa@, text@.len() as int),
    ensures
        bwt@ == bwt_spec(text@, sa@),
        bwt@.len() == text@.len(),
{
    let n = text.len();
    if n == 0 {
        let empty: Vec<u8> = Vec::new();
        assert(empty@ =~= bwt_spec(text@, sa@));
        return empty;
    }
    let mut bwt: Vec<u8> = Vec::with_capacity(n);
    let mut k: usize = 0;
    while k < sa.len()
        invariant
            sa@.len() == text@.len(),
            sa_in_range(sa@, text@.len() as int),
            n == text@.len(),
            n > 0,
            k <= sa@.len(),
            bwt@.len() == k,
            forall|j: int| 0 <= j < k ==> bwt@[j] == bwt_spec(text@, sa@)[j],
        decreases sa@.len() - k,
    {
        let p = sa[k] as usize;
        let prev = if p == 0 {
            text[n - 1]
        } else {
            text[p - 1]
        };
        bwt.push(prev);
        k = k + 1;
    }
    assert(bwt@ =~= bwt_spec(text@, sa@));
    bwt
}

/// `e` reports the first out-of-range element of `sa` for a text of length
/// `n`: every earlier rank holds a position below `n`, this one does not.
pub open spec fn range_fault(sa: Seq<u32>, n: int, e: BwtError) -> bool {
    match e {
        BwtError::OutOfRange { rank, value } => {
            &&& 0 <= rank < sa.len()
            &&& value == sa[rank as int]
            &&& value as int >= n
            &&& forall|k: int| 0 <= k < rank ==> (sa[k] as int) < n
        },
        BwtError::NonPermutation { .. } => false,
    }
}

/// Builds the BWT after checking that every suffix-array element is a
/// position of the text, refusing the first element that is not.
///
/// This is the fail-fast entry point for a caller that cannot vouch for the
/// suffix array's range: a corrupt element is reported with its rank and
/// value instead of being read out of bounds. Whether `sa` is a genuine
/// permutation is still not checked; see [`build_bwt_validated`] for that.
pub fn try_build_bwt(text: &[u8], sa: &[u32]) -> (r: Result<Vec<u8>, BwtError>)
    requires
        sa@.len() == text@.len(),
    ensures
        r is Ok <==> sa_in_range(sa@, text@.len() as int),
        r matches Ok(bwt) ==> bwt@ == bwt_spec(text@, sa@),
        r matches Err(e) ==> range_fault(sa@, text@.len() as int, e),
{
    let n = text.len();
    let mut k: usize = 0;
    while k < sa.len()
        invariant
            sa@.len() == text@.len(),
            n == text@.len(),
            k <= sa@.len(),
            forall|j: int| 0 <= j < k ==> (sa@[j] as int) < n,
        decreases sa@.len() - k,
    {
        if sa[k] as usize >= n {
            return Err(BwtError::OutOfRange { rank: k, value: sa[k] });
        }
        k = k + 1;
    }
    Ok(build_bwt(text, sa))
}

/// `e` reports the first fault that keeps `sa` from being a permutation of
/// the positions of a text of length `n`: all earlier ranks are clean, and
/// at `rank` the element is either out of range or a repeat of an earlier
/// element.
pub open spec fn validation_fault(sa: Seq<u32>, n: int, e: BwtError) -> bool {
    match e {
        BwtError::OutOfRange { rank, value } => {
            &&& 0 <= rank < sa.len()
            &&& value == sa[rank as int]
            &&& value as int >= n
            &&& clean_prefix(sa, n, rank as int)
        },
        BwtError::NonPermutation { rank, value } => {
            &&& 0 <= rank < sa.len()
            &&& value == sa[rank as int]
            &&& (value as int) < n
            &&& (exists|j: int| 0 <= j < rank && sa[j] == value)
            &&& clean_prefix(sa, n, rank as int)
        },
    }
}

/// Builds the BWT after a full validation pass over the suffix array,
/// refusing the first element that is out of range or repeated.
///
/// This is the opt-in mode for callers that want the permutation
/// precondition enforced rather than trusted; it costs one extra linear scan
/// and an `n`-entry seen-marker over [`build_bwt`]. Success means `sa` was a
/// genuine permutation of the text's positions, which is what makes the
/// output a rearrangement of the text.
pub fn build_bwt_validated(text: &[u8], sa: &[u32]) -> (r: Result<Vec<u8>, BwtError>)
    requires
        sa@.len() == text@.len(),
    ensures
        r is Ok <==> is_permutation(sa@, text@.len() as int),
        r matches Ok(bwt) ==> bwt@ == bwt_spec(text@, sa@),
        r matches Err(e) ==> validation_fault(sa@, text@.len() as int, e),
{
    let n = text.len();
    let mut seen: Vec<bool> = vec![false; n];
    let mut k: usize = 0;
    while k < sa.len()
        invariant
            sa@.len() == text@.len(),
            n == text@.len(),
            k <= sa@.len(),
            seen@.len() == n,
            forall|p: int|
                0 <= p < n ==> (seen@[p] <==> exists|j: int| 0 <= j < k && sa@[j] as int == p),
            clean_prefix(sa@, n as int, k as int),
        decreases sa@.len() - k,
    {
        let p = sa[k] as usize;
        if p >= n {
            return Err(BwtError::OutOfRange { rank: k, value: sa[k] });
        }
        if seen[p] {
            assert(exists|j: int| 0 <= j < k && sa@[j] == sa@[k as int]);
            return Err(BwtError::NonPermutation { rank: k, value: sa[k] });
        }
        let ghost seen_prev = seen@;
        seen[p] = true;
        proof {
            assert forall|q: int|
                0 <= q < n implies (seen@[q] <==> exists|j: int|
                    0 <= j < k + 1 && sa@[j] as int == q) by {
                if q == p as int {
                    assert(0 <= k < k + 1 && sa@[k as int] as int == q);
                } else {
                    assert(seen@[q] == seen_prev[q]);
                    if seen_prev[q] {
                        let j = choose|j: int| 0 <= j < k && sa@[j] as int == q;
                        assert(0 <= j < k + 1 && sa@[j] as int == q);
                    }
                    if exists|j: int| 0 <= j < k + 1 && sa@[j] as int == q {
                        let j = choose|j: int| 0 <= j < k + 1 && sa@[j] as int == q;
                        assert(j != k);
                        assert(0 <= j < k && sa@[j] as int == q);
                    }
                }
            }
            assert forall|i: int| 0 <= i < k implies sa@[i] != sa@[k as int] by {
                if sa@[i] == sa@[k as int] {
                    assert(0 <= i < k && sa@[i] as int == p);
                    assert(seen_prev[p as int]);
                }
            }
        }
        k = k + 1;
    }
    Ok(build_bwt(text, sa))
}

/// `text` read back at the positions listed in `idx`, rank by rank.
spec fn reindex(text: Seq<u8>, idx: Seq<int>) -> Seq<u8> {
    Seq::new(idx.len(), |k: int| text[idx[k]])
}

/// The positions in `idx` are pairwise distinct and all lie in `0 .. n`.
spec fn idx_distinct_in_range(idx: Seq<int>, n: int) -> bool {
    &&& forall|k: int| 0 <= k < idx.len() ==> 0 <= #[trigger] idx[k] < n
    &&& forall|i: int, j: int| 0 <= i < j < idx.len() ==> idx[i] != idx[j]
}

/// Pigeonhole: `n` pairwise distinct positions drawn from `0 .. n` hit every
/// position, `v` among them.
proof fn lemma_distinct_full_range_hits(idx: Seq<int>, n: int, v: int)
    requires
        idx.len() == n,
        idx_distinct_in_range(idx, n),
        0 <= v < n,
    ensures
        exists|k: int| 0 <= k < n && idx[k] == v,
{
    let ranks = set_int_range(0, n);
    let f = |k: int| idx[k];
    let image = ranks.map(f);
    lemma_int_range(0, n);
    assert forall|x1: int, x2: int|
        ranks.contains(x1) && ranks.contains(x2) && #[trigger] f(x1) == #[trigger] f(
            x2,
        ) implies x1 == x2 by {
        if x1 < x2 {
            assert(idx[x1] != idx[x2]);
        } else if x2 < x1 {
            assert(idx[x2] != idx[x1]);
        }
    }
    assert(injective_on(f, ranks));
    lemma_map_size(ranks, image, f);
    assert forall|b: int| image.contains(b) implies ranks.contains(b) by {
        let a = choose|a: int| ranks.contains(a) && b == f(a);
        assert(0 <= idx[a] < n);
    }
    lemma_subset_equality(image, ranks);
    assert(image.contains(v));
    let k = choose|a: int| ranks.contains(a) && v == f(a);
    assert(0 <= k < n && idx[k] == v);
}

/// Reading a text back at a full set of pairwise distinct positions
/// rearranges its symbols: the multisets agree.
proof fn lemma_reindex_distinct_full_multiset(text: Seq<u8>, idx: Seq<int>)
    requires
        idx.len() == text.len(),
        idx_distinct_in_range(idx, text.len() as int),
    ensures
        reindex(text, idx).to_multiset() == text.to_multiset(),
    decreases text.len(),
{
    broadcast use group_to_multiset_ensures;
    broadcast use group_multiset_axioms;

    let n = text.len() as int;
    let s = reindex(text, idx);
    if n == 0 {
        assert(s =~= text);
    } else {
        lemma_distinct_full_range_hits(idx, n, n - 1);
        let k0 = choose|k: int| 0 <= k < n && idx[k] == n - 1;
        let idx2 = idx.remove(k0);
        let text2 = text.drop_last();
        idx.remove_ensures(k0);
        s.remove_ensures(k0);
        assert forall|k: int| 0 <= k < idx2.len() implies 0 <= #[trigger] idx2[k] < n - 1 by {
            if k < k0 {
                assert(idx2[k] == idx[k]);
                assert(idx[k] != idx[k0]);
            } else {
                assert(idx2[k] == idx[k + 1]);
                assert(idx[k + 1] != idx[k0]);
            }
        }
        assert forall|i: int, j: int| 0 <= i < j < idx2.len() implies idx2[i] != idx2[j] by {
            let i0 = if i < k0 { i } else { i + 1 };
            let j0 = if j < k0 { j } else { j + 1 };
            assert(idx2[i] == idx[i0]);
            assert(idx2[j] == idx[j0]);
            assert(0 <= i0 < j0 < idx.len());
        }
        assert(idx_distinct_in_range(idx2, n - 1));
        assert(s.remove(k0) =~= reindex(text2, idx2)) by {
            assert forall|k: int| 0 <= k < s.remove(k0).len() implies s.remove(k0)[k] == reindex(
                text2,
                idx2,
            )[k] by {
                if k < k0 {
                    assert(s.remove(k0)[k] == s[k]);
                    assert(s[k] == text[idx[k]]);
                } else {
                    assert(s.remove(k0)[k] == s[k + 1]);
                    assert(s[k + 1] == text[idx[k + 1]]);
                }
            }
        }
        lemma_reindex_distinct_full_multiset(text2, idx2);
        let a = text[n - 1];
        assert(s[k0] == a);
        assert(s.contains(a));
        assert(s.to_multiset().count(a) > 0);
        assert(s.remove(k0).to_multiset() == s.to_multiset().remove(a));
        assert(text =~= text2.push(a));
        assert(text.to_multiset() =~= text2.to_multiset().insert(a));
        assert forall|v: u8| s.to_multiset().count(v) == text.to_multiset().count(v) by {
            assert(s.to_multiset().remove(a).count(v) == text2.to_multiset().count(v));
            assert(text.to_multiset().count(v) == text2.to_multiset().insert(a).count(v));
            if v == a {
                assert(s.to_multiset().remove(a).count(a) == s.to_multiset().count(a) - 1);
                assert(text2.to_multiset().insert(a).count(a) == text2.to_multiset().count(a) + 1);
            } else {
                assert(s.to_multiset().remove(a).count(v) == s.to_multiset().count(v));
                assert(text2.to_multiset().insert(a).count(v) == text2.to_multiset().count(v));
            }
        }
        assert(s.to_multiset() =~= text.to_multiset());
    }
}

/// Law: under a genuine permutation suffix array, the BWT is a rearrangement
/// of the text, never a recoding — the multiset of its symbol values equals
/// the text's. This holds because the cyclic-predecessor map is itself a
/// bijection on the text's positions.
pub proof fn lemma_bwt_preserves_multiset(text: Seq<u8>, sa: Seq<u32>)
    requires
        is_permutation(sa, text.len() as int),
    ensures
        bwt_spec(text, sa).to_multiset() == text.to_multiset(),
{
    let n = text.len() as int;
    let idx = Seq::new(sa.len(), |k: int| cyclic_pred(sa[k] as int, n));
    assert(bwt_spec(text, sa) =~= reindex(text, idx));
    assert forall|i: int, j: int| 0 <= i < j < idx.len() implies idx[i] != idx[j] by {
        assert(sa[i] != sa[j]);
        assert((sa[i] as int) < n && (sa[j] as int) < n);
    }
    assert forall|k: int| 0 <= k < idx.len() implies 0 <= #[trigger] idx[k] < n by {
        assert((sa[k] as int) < n);
    }
    assert(idx_distinct_in_range(idx, n));
    lemma_reindex_distinct_full_multiset(text, idx);
}

} // verus!
