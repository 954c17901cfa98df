use vstd::prelude::*;
use vstd::seq_lib::lemma_seq_contains_after_push;

verus! {

/// The entries of `pairs` whose flag in `flags` is set, in the order in which
/// they stand in `pairs`.
pub open spec fn flagged(pairs: Seq<(i32, i32)>, flags: Seq<bool>) -> Seq<(i32, i32)>
    recommends
        pairs.len() == flags.len(),
    decreases pairs.len(),
{
    if pairs.len() == 0 {
        Seq::empty()
    } else if flags.last() {
        flagged(pairs.drop_last(), flags.drop_last()).push(pairs.last())
    } else {
        flagged(pairs.drop_last(), flags.drop_last())
    }
}

/// Entry `k` of `pairs` is `pair`, and its flag is set.
pub open spec fn flagged_at(pairs: Seq<(i32, i32)>, flags: Seq<bool>, k: int, pair: (i32, i32)) -> bool {
    0 <= k < pairs.len() && flags[k] && pairs[k] == pair
}

/// A pair is selected exactly when it stands in `pairs` with its flag set.
pub proof fn lemma_flagged_contains(pairs: Seq<(i32, i32)>, flags: Seq<bool>, pair: (i32, i32))
    requires
        pairs.len() == flags.len(),
    ensures
        flagged(pairs, flags).contains(pair) <==> exists|k: int|
            #[trigger] flagged_at(pairs, flags, k, pair),
    decreases pairs.len(),
{
    if pairs.len() > 0 {
        let n = pairs.len() - 1;
        let head = flagged(pairs.drop_last(), flags.drop_last());
        lemma_flagged_contains(pairs.drop_last(), flags.drop_last(), pair);
        if flags.last() {
            lemma_seq_contains_after_push(head, pairs.last(), pair);
            if pairs.last() == pair {
                assert(flagged_at(pairs, flags, n, pair));
            }
        }
        if head.contains(pair) {
            let k = choose|k: int|
                #[trigger] flagged_at(pairs.drop_last(), flags.drop_last(), k, pair);
            assert(flagged_at(pairs, flags, k, pair));
        }
        if exists|k: int| #[trigger] flagged_at(pairs, flags, k, pair) {
            let k = choose|k: int| #[trigger] flagged_at(pairs, flags, k, pair);
            if k < n {
                assert(flagged_at(pairs.drop_last(), flags.drop_last(), k, pair));
            }
        }
    } else {
        assert(!Seq::<(i32, i32)>::empty().contains(pair));
    }
}

/// Selecting from a list that holds no pair twice gives a list that holds no
/// pair twice.
pub proof fn lemma_flagged_distinct(pairs: Seq<(i32, i32)>, flags: Seq<bool>)
    requires
        pairs.len() == flags.len(),
        pairs.no_duplicates(),
    ensures
        flagged(pairs, flags).no_duplicates(),
    decreases pairs.len(),
{
    if pairs.len() > 0 {
        let head = flagged(pairs.drop_last(), flags.drop_last());
        lemma_flagged_distinct(pairs.drop_last(), flags.drop_last());
        if flags.last() {
            lemma_flagged_contains(pairs.drop_last(), flags.drop_last(), pairs.last());
            if head.contains(pairs.last()) {
                let k = choose|k: int|
                    #[trigger] flagged_at(pairs.drop_last(), flags.drop_last(), k, pairs.last());
                assert(pairs[k] == pairs[pairs.len() - 1]);
            }
            assert forall|i: int, j: int|
                0 <= i < head.len() && 0 <= j < seq![pairs.last()].len() implies head[i] != seq![
                pairs.last(),
            ][j] by {
                assert(head.contains(head[i]));
            }
            vstd::seq_lib::lemma_no_dup_in_concat(head, seq![pairs.last()]);
            assert(head + seq![pairs.last()] == head.push(pairs.last()));
        }
    }
}

/// Selection keeps the order: of two selected pairs, the one that stands
/// first in the selection is an entry of `pairs` that stands before the entry
/// that the other one is.
pub proof fn lemma_flagged_keeps_order(
    pairs: Seq<(i32, i32)>,
    flags: Seq<bool>,
    m1: int,
    m2: int,
) -> (from: (int, int))
    requires
        pairs.len() == flags.len(),
        0 <= m1 < m2 < flagged(pairs, flags).len(),
    ensures
        from.0 < from.1,
        flagged_at(pairs, flags, from.0, flagged(pairs, flags)[m1]),
        flagged_at(pairs, flags, from.1, flagged(pairs, flags)[m2]),
    decreases pairs.len(),
{
    let n = pairs.len() - 1;
    let head = flagged(pairs.drop_last(), flags.drop_last());
    if flags.last() && m2 == head.len() {
        let first = head[m1];
        assert(head.contains(first));
        lemma_flagged_contains(pairs.drop_last(), flags.drop_last(), first);
        let k = choose|k: int| #[trigger] flagged_at(pairs.drop_last(), flags.drop_last(), k, first);
        (k, n)
    } else {
        lemma_flagged_keeps_order(pairs.drop_last(), flags.drop_last(), m1, m2)
    }
}

/// Keeps the candidate pairs that the exact test found to overlap:
/// `overlapping[k]` says whether the two particles of `candidates[k]` do. The
/// pairs kept stand in the order in which they stood among the candidates,
/// however the flags were computed.
pub fn filter_overlapping(candidates: &Vec<(i32, i32)>, overlapping: &Vec<bool>) -> (kept: Vec<
    (i32, i32),
>)
    requires
        candidates.len() == overlapping.len(),
    ensures
        kept@ == flagged(candidates@, overlapping@),
        forall|pair: (i32, i32)|
            kept@.contains(pair) <==> exists|k: int|
                #[trigger] flagged_at(candidates@, overlapping@, k, pair),
        candidates@.no_duplicates() ==> kept@.no_duplicates(),
{
    let mut kept: Vec<(i32, i32)> = Vec::new();
    let mut k: usize = 0;
    while k < candidates.len()
        invariant
            k <= candidates.len() == overlapping.len(),
            kept@ == flagged(candidates@.take(k as int), overlapping@.take(k as int)),
        decreases candidates.len() - k,
    {
        assert(candidates@.take(k + 1).drop_last() == candidates@.take(k as int));
        assert(overlapping@.take(k + 1).drop_last() == overlapping@.take(k as int));
        if overlapping[k] {
            kept.push(candidates[k]);
        }
        k += 1;
    }
    proof {
        assert(candidates@.take(candidates.len() as int) == candidates@);
        assert(overlapping@.take(overlapping.len() as int) == overlapping@);
        assert forall|pair: (i32, i32)|
            kept@.contains(pair) <==> exists|k: int|
                #[trigger] flagged_at(candidates@, overlapping@, k, pair) by {
            lemma_flagged_contains(candidates@, overlapping@, pair);
        }
        if candidates@.no_duplicates() {
            lemma_flagged_distinct(candidates@, overlapping@);
        }
    }
    kept
}

} // verus!
