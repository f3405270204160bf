use crate::distance::{Metric, jaro_winkler_bits, levenshtein_distance, score, score_of};
use rayon::slice::ParallelSliceMut;
use vstd::prelude::*;

verus! {

/// Tuples order field by field: first by key, then by index.
pub open spec fn pair_le(x: (u64, usize), y: (u64, usize)) -> bool {
    x.0 < y.0 || (x.0 == y.0 && x.1 <= y.1)
}

/// Whether the candidate at index `i1` with score `s1` goes before the one at
/// index `i2` with score `s2`: the more similar first, and among equal scores
/// the one that came first in the input.
pub open spec fn ranks_before(metric: Metric, s1: int, i1: int, s2: int, i2: int) -> bool {
    match metric {
        Metric::Levenshtein => s1 < s2 || (s1 == s2 && i1 < i2),
        Metric::JaroWinkler => s1 > s2 || (s1 == s2 && i1 < i2),
    }
}

/// The indices `0 .. n` in ascending order.
pub open spec fn indices(n: nat) -> Seq<usize> {
    Seq::new(n, |i: int| i as usize)
}

/// `order` lists each index of `scores` once, the best ranked first.
pub open spec fn is_ranking(metric: Metric, scores: Seq<int>, order: Seq<usize>) -> bool {
    &&& order.len() == scores.len()
    &&& order.to_multiset() == indices(scores.len()).to_multiset()
    &&& forall|k: int| 0 <= k < order.len() ==> order[k] < scores.len()
    &&& forall|k: int, l: int|
        0 <= k < l < order.len() ==> ranks_before(
            metric,
            scores[order[k] as int],
            order[k] as int,
            scores[order[l] as int],
            order[l] as int,
        )
}

/// Relies on rayon's ParallelSliceMut::par_sort_unstable: afterwards the
/// slice holds the same items as before, in ascending order.
#[verifier::external_body]
fn sort_pairs(v: &mut Vec<(u64, usize)>)
    ensures
        final(v)@.to_multiset() == old(v)@.to_multiset(),
        forall|i: int, j: int|
            0 <= i < j < final(v)@.len() ==> pair_le(final(v)@[i], final(v)@[j]),
{
    v.par_sort_unstable();
}

/// Applying the same function to two sequences with the same items gives two
/// sequences with the same items.
pub proof fn lemma_map_keeps_multiset<A, B>(s: Seq<A>, t: Seq<A>, f: spec_fn(A) -> B)
    requires
        s.to_multiset() == t.to_multiset(),
    ensures
        s.map_values(f).to_multiset() == t.map_values(f).to_multiset(),
    decreases s.len(),
{
    broadcast use vstd::seq_lib::group_to_multiset_ensures;
    broadcast use vstd::multiset::group_multiset_axioms;

    if s.len() == 0 {
        assert(s.to_multiset().len() == 0);
        assert(t.to_multiset().len() == 0);
        assert(t.len() == 0);
        assert(s.map_values(f) =~= t.map_values(f));
    } else {
        let x = s.last();
        let s0 = s.drop_last();
        assert(s0.push(x) =~= s);
        assert(s.to_multiset().count(x) > 0);
        assert(t.contains(x));
        let j = choose|j: int| 0 <= j < t.len() && t[j] == x;
        let t0 = t.remove(j);
        assert(t0.len() == t.len() - 1);
        assert(t0.to_multiset() == t.to_multiset().remove(x));
        assert(s0.to_multiset() =~= s.to_multiset().remove(x));
        lemma_map_keeps_multiset(s0, t0, f);
        assert(s.map_values(f) =~= s0.map_values(f).push(f(x)));
        assert(t.map_values(f) =~= t0.map_values(f).insert(j, f(x)));
        assert(t0.map_values(f).insert(j, f(x)).to_multiset() == t0.map_values(f).to_multiset().insert(f(x)));
    }
}

/// The scores as mathematical integers.
pub open spec fn widen(scores: Seq<u64>) -> Seq<int> {
    Seq::new(scores.len(), |i: int| scores[i] as int)
}

/// The key that puts the best score first in ascending order.
pub open spec fn sort_key(metric: Metric, s: u64) -> u64 {
    match metric {
        Metric::Levenshtein => s,
        Metric::JaroWinkler => (u64::MAX - s) as u64,
    }
}

/// Orders the indices of `scores` from the most similar candidate to the
/// least; candidates with equal scores keep their input order.
pub fn ranked_order(scores: &Vec<u64>, metric: Metric) -> (order: Vec<usize>)
    ensures
        is_ranking(metric, widen(scores@), order@),
{
    let n = scores.len();
    let mut pairs: Vec<(u64, usize)> = Vec::new();
    let mut i: usize = 0;
    while i < n
        invariant
            n == scores@.len(),
            i <= n,
            pairs@.len() == i,
            forall|k: int| 0 <= k < i ==> #[trigger] pairs@[k] == (sort_key(metric, scores@[k]), k as usize),
        decreases n - i,
    {
        let s = scores[i];
        let key = match metric {
            Metric::Levenshtein => s,
            Metric::JaroWinkler => u64::MAX - s,
        };
        pairs.push((key, i));
        i = i + 1;
    }
    let ghost unsorted = pairs@;
    proof {
        assert(unsorted.no_duplicates());
        unsorted.lemma_multiset_has_no_duplicates();
    }
    sort_pairs(&mut pairs);
    let ghost sorted = pairs@;
    proof {
        broadcast use vstd::seq_lib::group_to_multiset_ensures;

        assert(sorted.len() == sorted.to_multiset().len());
        assert(unsorted.len() == unsorted.to_multiset().len());
        assert(sorted.len() == n);
        sorted.lemma_multiset_has_no_duplicates_conv();
        assert forall|k: int| 0 <= k < n implies sorted[k].1 < n && sorted[k].0 == sort_key(
            metric,
            scores@[sorted[k].1 as int],
        ) by {
            assert(sorted.to_multiset().count(sorted[k]) > 0);
            assert(unsorted.to_multiset().count(sorted[k]) > 0);
            assert(unsorted.contains(sorted[k]));
            let m = choose|m: int| 0 <= m < n && unsorted[m] == sorted[k];
            assert(unsorted[m] == (sort_key(metric, scores@[m]), m as usize));
        }
    }
    let mut order: Vec<usize> = Vec::new();
    let mut k: usize = 0;
    while k < n
        invariant
            n == scores@.len(),
            n == pairs@.len(),
            pairs@ == sorted,
            k <= n,
            order@.len() == k,
            forall|m: int| 0 <= m < k ==> #[trigger] order@[m] == sorted[m].1,
        decreases n - k,
    {
        order.push(pairs[k].1);
        k = k + 1;
    }
    proof {
        let f = |p: (u64, usize)| p.1;
        assert(order@ =~= sorted.map_values(f));
        assert(indices(n as nat) =~= unsorted.map_values(f));
        lemma_map_keeps_multiset(sorted, unsorted, f);
        assert forall|a: int, b: int| 0 <= a < b < n implies ranks_before(
            metric,
            scores@[order@[a] as int] as int,
            order@[a] as int,
            scores@[order@[b] as int] as int,
            order@[b] as int,
        ) by {
            assert(pair_le(sorted[a], sorted[b]));
            assert(sorted[a] != sorted[b]);
        }
        assert(widen(scores@).len() == n);
    }
    order
}

/// The score of each line against the target.
pub open spec fn scores_of(metric: Metric, target: Seq<char>, lines: Seq<String>) -> Seq<int> {
    Seq::new(lines.len(), |i: int| score_of(metric, target, lines[i]@))
}

/// Scores every line against the target, in input order.
pub fn score_all(target: &str, lines: &Vec<String>, metric: Metric) -> (scores: Vec<u64>)
    ensures
        widen(scores@) == scores_of(metric, target@, lines@),
{
    let n = lines.len();
    let mut scores: Vec<u64> = Vec::new();
    let mut i: usize = 0;
    while i < n
        invariant
            n == lines@.len(),
            i <= n,
            scores@.len() == i,
            forall|k: int| 0 <= k < i ==> #[trigger] scores@[k] as int == score_of(metric, target@, lines@[k]@),
        decreases n - i,
    {
        let s = score(target, lines[i].as_str(), metric);
        scores.push(s);
        i = i + 1;
    }
    assert(widen(scores@) =~= scores_of(metric, target@, lines@));
    scores
}

/// Reorders `lines` by their similarity to `target`, the most similar first;
/// lines with equal scores keep their input order.
pub fn sort_candidates(target: &str, lines: &Vec<String>, metric: Metric) -> (out: Vec<String>)
    ensures
        exists|order: Seq<usize>|
            #![trigger is_ranking(metric, scores_of(metric, target@, lines@), order)]
            is_ranking(metric, scores_of(metric, target@, lines@), order) && out@ == order.map_values(
                |i: usize| lines@[i as int],
            ),
        out@.len() == lines@.len(),
        out@.to_multiset() == lines@.to_multiset(),
        metric == Metric::Levenshtein ==> forall|a: int, b: int|
            0 <= a < out@.len() && 0 <= b < out@.len() && levenshtein_distance(target@, out@[a]@)
                < levenshtein_distance(target@, out@[b]@) ==> a < b,
        metric == Metric::JaroWinkler ==> forall|a: int, b: int|
            0 <= a < out@.len() && 0 <= b < out@.len() && jaro_winkler_bits(target@, out@[a]@)
                > jaro_winkler_bits(target@, out@[b]@) ==> a < b,
{
    let scores = score_all(target, lines, metric);
    let order = ranked_order(&scores, metric);
    let n = order.len();
    let mut out: Vec<String> = Vec::new();
    let mut k: usize = 0;
    while k < n
        invariant
            n == order@.len(),
            n == lines@.len(),
            forall|m: int| 0 <= m < n ==> order@[m] < n,
            k <= n,
            out@.len() == k,
            forall|m: int| 0 <= m < k ==> #[trigger] out@[m] == lines@[order@[m] as int],
        decreases n - k,
    {
        out.push(lines[order[k]].clone());
        k = k + 1;
    }
    proof {
        let ss = scores_of(metric, target@, lines@);
        let f = |i: usize| lines@[i as int];
        assert(out@ =~= order@.map_values(f));
        assert(is_ranking(metric, ss, order@));
        assert(lines@ =~= indices(n as nat).map_values(f));
        lemma_map_keeps_multiset(order@, indices(n as nat), f);
        if metric == Metric::Levenshtein {
            assert forall|a: int, b: int|
                0 <= a < n && 0 <= b < n && levenshtein_distance(target@, out@[a]@)
                    < levenshtein_distance(target@, out@[b]@) implies a < b by {
                assert(ss[order@[a] as int] == levenshtein_distance(target@, out@[a]@) as int);
                assert(ss[order@[b] as int] == levenshtein_distance(target@, out@[b]@) as int);
                if b < a {
                    assert(ranks_before(metric, ss[order@[b] as int], order@[b] as int, ss[order@[a] as int], order@[a] as int));
                }
            }
        } else {
            assert forall|a: int, b: int|
                0 <= a < n && 0 <= b < n && jaro_winkler_bits(target@, out@[a]@)
                    > jaro_winkler_bits(target@, out@[b]@) implies a < b by {
                assert(ss[order@[a] as int] == jaro_winkler_bits(target@, out@[a]@) as int);
                assert(ss[order@[b] as int] == jaro_winkler_bits(target@, out@[b]@) as int);
                if b < a {
                    assert(ranks_before(metric, ss[order@[b] as int], order@[b] as int, ss[order@[a] as int], order@[a] as int));
                }
            }
        }
    }
    out
}

} // verus!
