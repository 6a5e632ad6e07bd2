//! Ranking of search candidates: ascending-distance order and truncation
//! to the requested number of results.

use vstd::prelude::*;
use vstd::pervasive::VecAdditionalExecFns;

verus! {

broadcast use
    vstd::seq_lib::to_multiset_update,
    vstd::seq_lib::group_to_multiset_ensures,
    vstd::multiset::group_multiset_axioms;

/// One search hit: the identifier of an indexed point together with its
/// distance from the query.
///
/// The distance is a non-negative IEEE 754 single-precision value carried
/// as its 32-bit bit pattern. For non-negative finite values the unsigned
/// order of the bit patterns agrees with the numeric order, so comparing
/// `distance_bits` as `u32` compares distances.
#[derive(Clone, Copy, Debug, PartialEq, Eq)]
pub struct HnswSearchResult {
    pub id: i64,
    pub distance_bits: u32,
}

/// The sequence is in ascending distance order (nearest first).
pub open spec fn sorted_by_distance(s: Seq<HnswSearchResult>) -> bool {
    forall|i: int, j: int|
        0 <= i < j < s.len() ==> s[i].distance_bits <= s[j].distance_bits
}

/// `r` is a prefix of some ascending reordering of `ns`: the candidates of
/// `ns` nearest the query, in ascending distance order. Which of two
/// candidates at equal distance comes first is left open.
pub open spec fn is_ranked_prefix_of(r: Seq<HnswSearchResult>, ns: Seq<HnswSearchResult>) -> bool {
    exists|s: Seq<HnswSearchResult>|
        #[trigger] s.to_multiset() == ns.to_multiset() && sorted_by_distance(s) && r.len()
            <= s.len() && r == s.subrange(0, r.len() as int)
}

/// What a ranked prefix keeps is nearest: any candidate that the prefix
/// dropped (one that occurs more often among the candidates than among the
/// hits) is at least as far from the query as every hit that was kept.
pub proof fn lemma_ranked_prefix_keeps_nearest(
    r: Seq<HnswSearchResult>,
    ns: Seq<HnswSearchResult>,
)
    requires
        is_ranked_prefix_of(r, ns),
    ensures
        forall|x: HnswSearchResult, i: int|
            #![trigger ns.to_multiset().count(x), r[i]]
            ns.to_multiset().count(x) > r.to_multiset().count(x) && 0 <= i < r.len()
                ==> r[i].distance_bits <= x.distance_bits,
{
    let s = choose|s: Seq<HnswSearchResult>|
        #[trigger] s.to_multiset() == ns.to_multiset() && sorted_by_distance(s) && r.len()
            <= s.len() && r == s.subrange(0, r.len() as int);
    assert(s.len() == s.to_multiset().len());
    assert(ns.len() == ns.to_multiset().len());
    assert(s.len() == ns.len());
    let m: int = r.len() as int;
    let suf = s.subrange(m, s.len() as int);
    assert(s =~= r + suf);
    vstd::seq_lib::lemma_multiset_commutative(r, suf);
    assert forall|x: HnswSearchResult, i: int|
        ns.to_multiset().count(x) > r.to_multiset().count(x) && 0 <= i < r.len() implies r[i].distance_bits
        <= x.distance_bits by {
        assert(suf.to_multiset().count(x) > 0);
        assert(suf.contains(x));
        let j: int = choose|j: int| 0 <= j < suf.len() && suf[j] == x;
        assert(s[m + j] == x);
        assert(s[i].distance_bits <= s[m + j].distance_bits);
    }
}

/// One graph candidate: the position of an indexed point in the point
/// list the graph was built over, together with its distance from the
/// query (the bit pattern of a non-negative IEEE 754 single-precision
/// value, as in [`HnswSearchResult`]).
#[derive(Clone, Copy, Debug, PartialEq, Eq)]
pub struct Candidate {
    pub position: usize,
    pub distance_bits: u32,
}

/// The candidate sequence is in ascending distance order.
pub open spec fn candidates_sorted(s: Seq<Candidate>) -> bool {
    forall|i: int, j: int|
        0 <= i < j < s.len() ==> s[i].distance_bits <= s[j].distance_bits
}

/// No two candidates name the same indexed point.
pub open spec fn distinct_positions(s: Seq<Candidate>) -> bool {
    forall|a: int, b: int| 0 <= a < b < s.len() ==> s[a].position != s[b].position
}

/// Reordering candidates keeps their positions pairwise distinct and
/// within bounds: both are facts of the multiset alone.
proof fn lemma_perm_keeps_positions(s1: Seq<Candidate>, s2: Seq<Candidate>, n: int)
    requires
        s1.to_multiset() == s2.to_multiset(),
        distinct_positions(s1),
        forall|i: int| 0 <= i < s1.len() ==> (#[trigger] s1[i]).position < n,
    ensures
        distinct_positions(s2),
        forall|i: int| 0 <= i < s2.len() ==> (#[trigger] s2[i]).position < n,
{
    assert(s1.no_duplicates()) by {
        assert forall|a: int, b: int|
            0 <= a < s1.len() && 0 <= b < s1.len() && a != b implies s1[a] != s1[b] by {
            if a < b {
                assert(s1[a].position != s1[b].position);
            } else {
                assert(s1[b].position != s1[a].position);
            }
        }
    }
    s1.lemma_multiset_has_no_duplicates();
    s2.lemma_multiset_has_no_duplicates_conv();
    assert forall|i: int| 0 <= i < s2.len() implies (#[trigger] s2[i]).position < n by {
        assert(s1.to_multiset().count(s2[i]) > 0);
        assert(s1.contains(s2[i]));
        let j = choose|j: int| 0 <= j < s1.len() && s1[j] == s2[i];
        assert(s1[j].position < n);
    }
    assert forall|a: int, b: int|
        0 <= a < b < s2.len() implies s2[a].position != s2[b].position by {
        assert(s2[a] != s2[b]);
        assert(s1.to_multiset().count(s2[a]) > 0);
        assert(s1.contains(s2[a]));
        assert(s1.to_multiset().count(s2[b]) > 0);
        assert(s1.contains(s2[b]));
        if s2[a].position == s2[b].position {
            let ia = choose|i: int| 0 <= i < s1.len() && s1[i] == s2[a];
            let ib = choose|i: int| 0 <= i < s1.len() && s1[i] == s2[b];
            assert(ia != ib);
            if ia < ib {
                assert(s1[ia].position != s1[ib].position);
            } else {
                assert(s1[ib].position != s1[ia].position);
            }
        }
    }
}

/// Sort graph candidates in place into ascending distance order
/// (insertion sort), keeping positions pairwise distinct and in bounds.
pub(crate) fn sort_candidates(v: &mut Vec<Candidate>, Ghost(n): Ghost<int>)
    requires
        distinct_positions(old(v)@),
        forall|i: int| 0 <= i < old(v)@.len() ==> (#[trigger] old(v)@[i]).position < n,
    ensures
        final(v)@.len() == old(v)@.len(),
        final(v)@.to_multiset() == old(v)@.to_multiset(),
        candidates_sorted(final(v)@),
        distinct_positions(final(v)@),
        forall|i: int| 0 <= i < final(v)@.len() ==> (#[trigger] final(v)@[i]).position < n,
{
    let ghost initial = v@;
    let len: usize = v.len();
    let mut i: usize = 1;
    while i < len
        invariant
            len == v@.len(),
            v@.len() == old(v)@.len(),
            v@.to_multiset() == old(v)@.to_multiset(),
            1 <= i,
            forall|p: int, q: int|
                0 <= p < q < i && q < len ==> v@[p].distance_bits <= v@[q].distance_bits,
        decreases len - i,
    {
        let mut j: usize = i;
        while j > 0 && v[j - 1].distance_bits > v[j].distance_bits
            invariant
                0 <= j <= i < len == v@.len(),
                v@.len() == old(v)@.len(),
                v@.to_multiset() == old(v)@.to_multiset(),
                forall|p: int, q: int|
                    0 <= p < q <= i && q != j ==> v@[p].distance_bits <= v@[q].distance_bits,
            decreases j,
        {
            let ghost pre = v@;
            let a = v[j - 1];
            let b = v[j];
            v.set(j - 1, b);
            v.set(j, a);
            proof {
                assert(v@ == pre.update(j - 1, b).update(j as int, a));
                assert(v@.to_multiset() =~= pre.to_multiset());
            }
            j -= 1;
        }
        proof {
            assert forall|p: int, q: int|
                0 <= p < q <= i implies v@[p].distance_bits <= v@[q].distance_bits by {
                if q == j && j > 0 && p < j - 1 {
                    assert(v@[p].distance_bits <= v@[j - 1].distance_bits);
                }
            }
        }
        i += 1;
    }
    proof {
        lemma_perm_keeps_positions(initial, v@, n);
    }
}

/// Sort candidates in place into ascending distance order (insertion sort).
fn sort_by_distance_bits(v: &mut Vec<HnswSearchResult>)
    ensures
        final(v)@.len() == old(v)@.len(),
        final(v)@.to_multiset() == old(v)@.to_multiset(),
        sorted_by_distance(final(v)@),
{
    let n: usize = v.len();
    let mut i: usize = 1;
    while i < n
        invariant
            n == v@.len(),
            v@.len() == old(v)@.len(),
            v@.to_multiset() == old(v)@.to_multiset(),
            1 <= i,
            forall|p: int, q: int|
                0 <= p < q < i && q < n ==> v@[p].distance_bits <= v@[q].distance_bits,
        decreases n - i,
    {
        let mut j: usize = i;
        while j > 0 && v[j - 1].distance_bits > v[j].distance_bits
            invariant
                0 <= j <= i < n == v@.len(),
                v@.len() == old(v)@.len(),
                v@.to_multiset() == old(v)@.to_multiset(),
                forall|p: int, q: int|
                    0 <= p < q <= i && q != j ==> v@[p].distance_bits <= v@[q].distance_bits,
            decreases j,
        {
            let ghost pre = v@;
            let a = v[j - 1];
            let b = v[j];
            v.set(j - 1, b);
            v.set(j, a);
            proof {
                assert(v@ == pre.update(j - 1, b).update(j as int, a));
                assert(v@.to_multiset() =~= pre.to_multiset());
            }
            j -= 1;
        }
        proof {
            assert forall|p: int, q: int|
                0 <= p < q <= i implies v@[p].distance_bits <= v@[q].distance_bits by {
                if q == j && j > 0 && p < j - 1 {
                    assert(v@[p].distance_bits <= v@[j - 1].distance_bits);
                }
            }
        }
        i += 1;
    }
}

/// Keep the nearest `top_k` of the given candidates, in ascending distance
/// order. Returns exactly `min(top_k, ns.len())` results; never pads and
/// never fails. Ties at equal distance may come out in either order.
pub fn select_top_k(ns: Vec<HnswSearchResult>, top_k: usize) -> (r: Vec<HnswSearchResult>)
    ensures
        r@.len() == vstd::math::min(top_k as int, ns@.len() as int),
        sorted_by_distance(r@),
        is_ranked_prefix_of(r@, ns@),
{
    let mut v = ns;
    let ghost input = v@;
    sort_by_distance_bits(&mut v);
    let ghost sorted_all = v@;
    v.truncate(top_k);
    proof {
        assert(sorted_all.to_multiset() == input.to_multiset() && sorted_by_distance(sorted_all)
            && v@.len() <= sorted_all.len() && v@ == sorted_all.subrange(0, v@.len() as int));
    }
    v
}

} // verus!
