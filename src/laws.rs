//! Laws of merge runs, stated over the model and proved.
use vstd::prelude::*;

use crate::model::{
    apply_merge, frequency, freq_upto, has_pair, is_best, is_merge_run, merge_word,
    occurrences, ranks_above, BytePair, WordModel, WordsModel,
};
use crate::order::{lemma_pair_lt_strict_total, pair_lt};

verus! {

/// At most one pair is the best of a set of words.
pub proof fn lemma_best_unique(ws: WordsModel, p: BytePair, q: BytePair)
    requires
        is_best(ws, p),
        is_best(ws, q),
    ensures
        p == q,
{
    if p != q {
        lemma_pair_lt_strict_total(p, q, p);
        assert(ranks_above(ws, p, q));
        assert(ranks_above(ws, q, p));
    }
}

/// A run is determined by its words and its budget: two runs on the same
/// input give the same merge record.
pub proof fn lemma_merge_run_deterministic(ws: WordsModel, budget: nat, r1: Seq<BytePair>, r2: Seq<BytePair>)
    requires
        is_merge_run(ws, budget, r1),
        is_merge_run(ws, budget, r2),
    ensures
        r1 == r2,
    decreases r1.len(),
{
    if r1.len() == 0 {
        if r2.len() > 0 {
            assert(frequency(ws, r2[0]) > 0);
        }
    } else if r2.len() == 0 {
        assert(frequency(ws, r1[0]) > 0);
    } else {
        lemma_best_unique(ws, r1[0], r2[0]);
        lemma_merge_run_deterministic(
            apply_merge(ws, r1[0]),
            (budget - 1) as nat,
            r1.drop_first(),
            r2.drop_first(),
        );
        assert(r1 =~= seq![r1[0]] + r1.drop_first());
        assert(r2 =~= seq![r2[0]] + r2.drop_first());
    }
}

/// A run never records more merges than its budget.
pub proof fn lemma_merge_run_within_budget(ws: WordsModel, budget: nat, r: Seq<BytePair>)
    requires
        is_merge_run(ws, budget, r),
    ensures
        r.len() <= budget,
    decreases r.len(),
{
    if r.len() > 0 {
        lemma_merge_run_within_budget(apply_merge(ws, r[0]), (budget - 1) as nat, r.drop_first());
    }
}

/// When two pairs share the highest frequency, the smaller one wins the
/// first merge over the larger one.
pub proof fn lemma_tie_goes_to_smaller_pair(
    ws: WordsModel,
    budget: nat,
    r: Seq<BytePair>,
    p: BytePair,
    q: BytePair,
)
    requires
        is_merge_run(ws, budget, r),
        budget > 0,
        frequency(ws, p) > 0,
        frequency(ws, p) == frequency(ws, q),
        forall|x: BytePair| frequency(ws, x) <= frequency(ws, p),
        pair_lt(p, q),
    ensures
        r.len() > 0,
        r[0] != q,
{
    lemma_pair_lt_strict_total(p, q, p);
    if r.len() == 0 {
        assert(has_pair(ws));
    } else if r[0] == q {
        assert(ranks_above(ws, q, p));
    }
}

proof fn lemma_short_words_freq_upto(ws: WordsModel, p: BytePair, n: int)
    requires
        0 <= n <= ws.len(),
        forall|i: int| 0 <= i < ws.len() ==> #[trigger] ws[i].0.len() <= 1,
    ensures
        freq_upto(ws, p, n) == 0,
    decreases n,
{
    if n > 0 {
        lemma_short_words_freq_upto(ws, p, n - 1);
        assert(ws[n - 1].0.len() <= 1);
        assert(occurrences(ws[n - 1].0, p) == 0);
    }
}

/// Words of at most one token hold no pair, so a run on them records no merge.
pub proof fn lemma_short_words_no_merges(ws: WordsModel, budget: nat, r: Seq<BytePair>)
    requires
        is_merge_run(ws, budget, r),
        forall|i: int| 0 <= i < ws.len() ==> #[trigger] ws[i].0.len() <= 1,
    ensures
        r.len() == 0,
{
    if r.len() > 0 {
        lemma_short_words_freq_upto(ws, r[0], ws.len() as int);
    }
}

/// The frequency over a concatenation is the sum of the frequencies.
pub proof fn lemma_frequency_concat(s: WordsModel, t: WordsModel, p: BytePair)
    ensures
        frequency(s + t, p) == frequency(s, p) + frequency(t, p),
{
    lemma_freq_upto_concat(s, t, p, t.len() as int);
}

proof fn lemma_freq_upto_concat(s: WordsModel, t: WordsModel, p: BytePair, n: int)
    requires
        0 <= n <= t.len(),
    ensures
        freq_upto(s + t, p, s.len() + n) == frequency(s, p) + freq_upto(t, p, n),
    decreases n,
{
    if n > 0 {
        lemma_freq_upto_concat(s, t, p, n - 1);
        assert((s + t)[s.len() + n - 1] == t[n - 1]);
    } else {
        lemma_freq_upto_prefix(s, t, p, s.len() as int);
    }
}

proof fn lemma_freq_upto_prefix(s: WordsModel, t: WordsModel, p: BytePair, n: int)
    requires
        0 <= n <= s.len(),
    ensures
        freq_upto(s + t, p, n) == freq_upto(s, p, n),
    decreases n,
{
    if n > 0 {
        lemma_freq_upto_prefix(s, t, p, n - 1);
        assert((s + t)[n - 1] == s[n - 1]);
    }
}

/// The words with one entry split in two of the same word.
pub open spec fn split_words(pre: WordsModel, w: WordModel, c1: nat, c2: nat, post: WordsModel) -> WordsModel {
    pre + seq![(w, c1), (w, c2)] + post
}

/// The words with that entry once, its count the sum of the two.
pub open spec fn joined_words(pre: WordsModel, w: WordModel, c1: nat, c2: nat, post: WordsModel) -> WordsModel {
    pre + seq![(w, c1 + c2)] + post
}

proof fn lemma_split_same_frequency(
    pre: WordsModel,
    w: WordModel,
    c1: nat,
    c2: nat,
    post: WordsModel,
    p: BytePair,
)
    ensures
        frequency(split_words(pre, w, c1, c2, post), p) == frequency(
            joined_words(pre, w, c1, c2, post),
            p,
        ),
{
    let two = seq![(w, c1), (w, c2)];
    let one = seq![(w, c1 + c2)];
    lemma_frequency_concat(pre + two, post, p);
    lemma_frequency_concat(pre, two, p);
    lemma_frequency_concat(pre + one, post, p);
    lemma_frequency_concat(pre, one, p);
    assert(two[0] == (w, c1));
    assert(two[1] == (w, c2));
    assert(one[0] == (w, c1 + c2));
    assert(freq_upto(two, p, 0) == 0);
    assert(freq_upto(one, p, 0) == 0);
    assert(freq_upto(two, p, 1) == occurrences(w, p) * c1);
    assert(freq_upto(two, p, 2) == occurrences(w, p) * c1 + occurrences(w, p) * c2);
    assert(freq_upto(one, p, 1) == occurrences(w, p) * (c1 + c2));
    let o = occurrences(w, p);
    assert(o * (c1 + c2) == o * c1 + o * c2) by (nonlinear_arith);
}

/// Supplying a word twice, with two counts, gives the same merge record as
/// supplying it once with the sum of the counts.
pub proof fn lemma_split_count_same_run(
    pre: WordsModel,
    w: WordModel,
    c1: nat,
    c2: nat,
    post: WordsModel,
    budget: nat,
    r1: Seq<BytePair>,
    r2: Seq<BytePair>,
)
    requires
        is_merge_run(split_words(pre, w, c1, c2, post), budget, r1),
        is_merge_run(joined_words(pre, w, c1, c2, post), budget, r2),
    ensures
        r1 == r2,
    decreases r1.len(),
{
    let ws1 = split_words(pre, w, c1, c2, post);
    let ws2 = joined_words(pre, w, c1, c2, post);
    assert forall|q: BytePair| #[trigger] frequency(ws1, q) == frequency(ws2, q) by {
        lemma_split_same_frequency(pre, w, c1, c2, post, q);
    }
    if r1.len() == 0 {
        if r2.len() > 0 {
            assert(frequency(ws1, r2[0]) > 0);
        }
    } else if r2.len() == 0 {
        assert(frequency(ws2, r1[0]) > 0);
    } else {
        let p0 = r1[0];
        assert forall|q: BytePair| frequency(ws2, q) > 0 && q != p0 implies ranks_above(ws2, p0, q) by {
            assert(frequency(ws1, q) == frequency(ws2, q));
            assert(frequency(ws1, p0) == frequency(ws2, p0));
            assert(ranks_above(ws1, p0, q));
        }
        assert(frequency(ws1, p0) == frequency(ws2, p0));
        assert(is_best(ws2, r1[0]));
        lemma_best_unique(ws2, r1[0], r2[0]);
        let p = r1[0];
        let pre2 = apply_merge(pre, p);
        let post2 = apply_merge(post, p);
        let w2 = merge_word(w, p);
        assert(apply_merge(ws1, p) =~= split_words(pre2, w2, c1, c2, post2));
        assert(apply_merge(ws2, p) =~= joined_words(pre2, w2, c1, c2, post2));
        lemma_split_count_same_run(
            pre2,
            w2,
            c1,
            c2,
            post2,
            (budget - 1) as nat,
            r1.drop_first(),
            r2.drop_first(),
        );
        assert(r1 =~= seq![r1[0]] + r1.drop_first());
        assert(r2 =~= seq![r2[0]] + r2.drop_first());
    }
}

} // verus!

verus! {

proof fn lemma_frequency_single(e: (WordModel, nat), p: BytePair)
    ensures
        frequency(seq![e], p) == occurrences(e.0, p) * e.1,
{
    assert(seq![e][0] == e);
    assert(freq_upto(seq![e], p, 0) == 0);
}

proof fn lemma_frequency_remove(s: WordsModel, k: int, p: BytePair)
    requires
        0 <= k < s.len(),
    ensures
        frequency(s, p) == frequency(s.remove(k), p) + occurrences(s[k].0, p) * s[k].1,
{
    let a = s.subrange(0, k);
    let b = s.subrange(k + 1, s.len() as int);
    assert(s =~= a + seq![s[k]] + b);
    assert(s.remove(k) =~= a + b);
    lemma_frequency_concat(a + seq![s[k]], b, p);
    lemma_frequency_concat(a, seq![s[k]], p);
    lemma_frequency_concat(a, b, p);
    lemma_frequency_single(s[k], p);
}

proof fn lemma_multiset_last<A>(s1: Seq<A>, s2: Seq<A>) -> (k: int)
    requires
        s1.len() > 0,
        s1.to_multiset() == s2.to_multiset(),
    ensures
        0 <= k < s2.len(),
        s2[k] == s1.last(),
        s1.drop_last().to_multiset() == s2.remove(k).to_multiset(),
{
    let x = s1.last();
    let a = s1.drop_last();
    assert(s1 =~= a.push(x));
    vstd::seq_lib::to_multiset_build(a, x);
    vstd::seq_lib::to_multiset_contains(s2, x);
    vstd::seq_lib::to_multiset_contains(s1, x);
    assert(s1.contains(x)) by {
        assert(s1[s1.len() - 1] == x);
    }
    let k = choose|k: int| 0 <= k < s2.len() && s2[k] == x;
    vstd::seq_lib::to_multiset_remove(s2, k);
    assert(a.to_multiset() =~= a.to_multiset().insert(x).remove(x));
    k
}

/// Reordering the words leaves every frequency as it is.
pub proof fn lemma_frequency_permutation(s1: WordsModel, s2: WordsModel, p: BytePair)
    requires
        s1.to_multiset() == s2.to_multiset(),
    ensures
        frequency(s1, p) == frequency(s2, p),
    decreases s1.len(),
{
    vstd::seq_lib::to_multiset_len(s1);
    vstd::seq_lib::to_multiset_len(s2);
    if s1.len() > 0 {
        let k = lemma_multiset_last(s1, s2);
        let a = s1.drop_last();
        lemma_frequency_permutation(a, s2.remove(k), p);
        lemma_frequency_remove(s2, k, p);
        lemma_frequency_remove(s1, s1.len() - 1, p);
        assert(s1.remove(s1.len() - 1) =~= a);
    }
}

/// Reordering the words and then merging gives a reordering of the merged words.
pub proof fn lemma_apply_merge_permutation(s1: WordsModel, s2: WordsModel, p: BytePair)
    requires
        s1.to_multiset() == s2.to_multiset(),
    ensures
        apply_merge(s1, p).to_multiset() == apply_merge(s2, p).to_multiset(),
    decreases s1.len(),
{
    vstd::seq_lib::to_multiset_len(s1);
    vstd::seq_lib::to_multiset_len(s2);
    if s1.len() == 0 {
        assert(apply_merge(s1, p) =~= apply_merge(s2, p));
    } else {
        let k = lemma_multiset_last(s1, s2);
        let a = s1.drop_last();
        let s2r = s2.remove(k);
        lemma_apply_merge_permutation(a, s2r, p);
        let fx = (merge_word(s1.last().0, p), s1.last().1);
        assert(apply_merge(s1, p) =~= apply_merge(a, p).push(fx));
        assert(apply_merge(s2, p) =~= apply_merge(s2r, p).insert(k, fx));
        vstd::seq_lib::to_multiset_build(apply_merge(a, p), fx);
        vstd::seq_lib::to_multiset_insert(apply_merge(s2r, p), k, fx);
    }
}

/// The order in which the words are supplied does not change the merge record.
pub proof fn lemma_order_irrelevant(
    ws1: WordsModel,
    ws2: WordsModel,
    budget: nat,
    r1: Seq<BytePair>,
    r2: Seq<BytePair>,
)
    requires
        ws1.to_multiset() == ws2.to_multiset(),
        is_merge_run(ws1, budget, r1),
        is_merge_run(ws2, budget, r2),
    ensures
        r1 == r2,
    decreases r1.len(),
{
    assert forall|q: BytePair| #[trigger] frequency(ws1, q) == frequency(ws2, q) by {
        lemma_frequency_permutation(ws1, ws2, q);
    }
    if r1.len() == 0 {
        if r2.len() > 0 {
            assert(frequency(ws1, r2[0]) > 0);
        }
    } else if r2.len() == 0 {
        assert(frequency(ws2, r1[0]) > 0);
    } else {
        let p0 = r1[0];
        assert forall|q: BytePair| frequency(ws2, q) > 0 && q != p0 implies ranks_above(ws2, p0, q) by {
            assert(frequency(ws1, q) == frequency(ws2, q));
            assert(frequency(ws1, p0) == frequency(ws2, p0));
            assert(ranks_above(ws1, p0, q));
        }
        assert(frequency(ws1, p0) == frequency(ws2, p0));
        lemma_best_unique(ws2, p0, r2[0]);
        lemma_apply_merge_permutation(ws1, ws2, p0);
        lemma_order_irrelevant(
            apply_merge(ws1, p0),
            apply_merge(ws2, p0),
            (budget - 1) as nat,
            r1.drop_first(),
            r2.drop_first(),
        );
        assert(r1 =~= seq![r1[0]] + r1.drop_first());
        assert(r2 =~= seq![r2[0]] + r2.drop_first());
    }
}

} // verus!
