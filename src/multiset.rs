//! The word multiset: entries with equal words are summed into one, and
//! entries that can never hold a pair are dropped. Both moves leave every
//! frequency, and so every merge run, as it was.
use vstd::prelude::*;

use crate::model::{
    apply_merge, frequency, freq_upto, is_best, is_merge_run, lemma_freq_update,
    lemma_merge_from_len, lemma_weight_update, occurrences, ranks_above, weight,
    weight_upto, word_view, words_view, BytePair, WordsModel,
};
use crate::order::bytes_equal;

verus! {

/// An entry that holds no pair now and never will: under two tokens, or a zero count.
pub open spec fn inert(e: (Seq<Seq<u8>>, nat)) -> bool {
    e.0.len() < 2 || e.1 == 0
}

/// The count of entry `j` moved onto entry `i`, which holds the same word.
pub open spec fn shift_count(ws: WordsModel, i: int, j: int) -> WordsModel {
    ws.update(i, (ws[i].0, ws[i].1 + ws[j].1)).update(j, (ws[j].0, 0))
}

/// `ws2` is `ws1` after one of the two moves of the word multiset.
pub open spec fn one_move(ws1: WordsModel, ws2: WordsModel) -> bool {
    ||| exists|k: int| 0 <= k < ws1.len() && inert(ws1[k]) && ws2 == ws1.remove(k)
    ||| exists|i: int, j: int|
        0 <= i < ws1.len() && 0 <= j < ws1.len() && i != j && ws1[i].0 == ws1[j].0 && ws2
            == shift_count(ws1, i, j)
}

/// Every merge run of `ws2` is a merge run of `ws1`, with the same budget.
pub open spec fn refines(ws1: WordsModel, ws2: WordsModel) -> bool {
    forall|b: nat, r: Seq<BytePair>| #[trigger] is_merge_run(ws2, b, r) ==> is_merge_run(ws1, b, r)
}

proof fn lemma_inert_term(e: (Seq<Seq<u8>>, nat), p: BytePair)
    requires
        inert(e),
    ensures
        occurrences(e.0, p) * e.1 == 0,
{
    if e.1 != 0 {
        assert(occurrences(e.0, p) == 0);
    }
}

proof fn lemma_freq_upto_remove(ws: WordsModel, k: int, p: BytePair, n: int)
    requires
        0 <= k < ws.len(),
        0 <= n <= ws.len(),
        inert(ws[k]),
    ensures
        freq_upto(ws, p, n) == if n <= k {
            freq_upto(ws.remove(k), p, n)
        } else {
            freq_upto(ws.remove(k), p, n - 1)
        },
    decreases n,
{
    if n > 0 {
        lemma_freq_upto_remove(ws, k, p, n - 1);
        if n - 1 == k {
            lemma_inert_term(ws[k], p);
        } else if n - 1 > k {
            assert(ws.remove(k)[n - 2] == ws[n - 1]);
        } else {
            assert(ws.remove(k)[n - 1] == ws[n - 1]);
        }
    }
}

proof fn lemma_weight_upto_remove(ws: WordsModel, k: int, n: int)
    requires
        0 <= k < ws.len(),
        0 <= n <= ws.len(),
    ensures
        weight_upto(ws, n) >= if n <= k {
            weight_upto(ws.remove(k), n)
        } else {
            weight_upto(ws.remove(k), n - 1)
        },
    decreases n,
{
    if n > 0 {
        lemma_weight_upto_remove(ws, k, n - 1);
        let l = ws[n - 1].0.len();
        let c = ws[n - 1].1;
        assert(l * c >= 0) by (nonlinear_arith);
        if n - 1 > k {
            assert(ws.remove(k)[n - 2] == ws[n - 1]);
        } else if n - 1 < k {
            assert(ws.remove(k)[n - 1] == ws[n - 1]);
        }
    }
}

/// One move keeps every frequency and does not raise the weight.
pub proof fn lemma_one_move_frequency(ws1: WordsModel, ws2: WordsModel, p: BytePair)
    requires
        one_move(ws1, ws2),
    ensures
        frequency(ws1, p) == frequency(ws2, p),
        weight(ws2) <= weight(ws1),
{
    if exists|k: int| 0 <= k < ws1.len() && inert(ws1[k]) && ws2 == ws1.remove(k) {
        let k = choose|k: int| 0 <= k < ws1.len() && inert(ws1[k]) && ws2 == ws1.remove(k);
        lemma_freq_upto_remove(ws1, k, p, ws1.len() as int);
        lemma_weight_upto_remove(ws1, k, ws1.len() as int);
    } else {
        let (i, j) = choose|i: int, j: int|
            0 <= i < ws1.len() && 0 <= j < ws1.len() && i != j && ws1[i].0 == ws1[j].0 && ws2
                == shift_count(ws1, i, j);
        let w = ws1[i].0;
        let mid = ws1.update(i, (w, ws1[i].1 + ws1[j].1));
        lemma_freq_update(ws1, i, (w, ws1[i].1 + ws1[j].1), p);
        lemma_freq_update(mid, j, (w, 0), p);
        lemma_weight_update(ws1, i, (w, ws1[i].1 + ws1[j].1));
        lemma_weight_update(mid, j, (w, 0));
        let o = occurrences(w, p);
        let l = w.len();
        let ci = ws1[i].1;
        let cj = ws1[j].1;
        assert(o * (ci + cj) == o * ci + o * cj) by (nonlinear_arith);
        assert(l * (ci + cj) == l * ci + l * cj) by (nonlinear_arith);
        assert(o * 0 == 0 && l * 0 == 0) by (nonlinear_arith);
    }
}

/// A move before a merge is a move after it.
pub proof fn lemma_one_move_apply(ws1: WordsModel, ws2: WordsModel, p: BytePair)
    requires
        one_move(ws1, ws2),
    ensures
        one_move(apply_merge(ws1, p), apply_merge(ws2, p)),
{
    let a1 = apply_merge(ws1, p);
    let a2 = apply_merge(ws2, p);
    if exists|k: int| 0 <= k < ws1.len() && inert(ws1[k]) && ws2 == ws1.remove(k) {
        let k = choose|k: int| 0 <= k < ws1.len() && inert(ws1[k]) && ws2 == ws1.remove(k);
        lemma_merge_from_len(ws1[k].0, p, 0);
        assert(inert(a1[k]));
        assert(a2 =~= a1.remove(k));
    } else {
        let (i, j) = choose|i: int, j: int|
            0 <= i < ws1.len() && 0 <= j < ws1.len() && i != j && ws1[i].0 == ws1[j].0 && ws2
                == shift_count(ws1, i, j);
        assert(a2 =~= shift_count(a1, i, j));
    }
}

proof fn lemma_one_move_runs(ws1: WordsModel, ws2: WordsModel, b: nat, r: Seq<BytePair>)
    requires
        one_move(ws1, ws2),
        is_merge_run(ws2, b, r),
    ensures
        is_merge_run(ws1, b, r),
    decreases r.len(),
{
    assert forall|q: BytePair| #[trigger] frequency(ws1, q) == frequency(ws2, q) by {
        lemma_one_move_frequency(ws1, ws2, q);
    }
    if r.len() == 0 {
        if b != 0 {
            assert forall|q: BytePair| !(frequency(ws1, q) > 0) by {
                assert(frequency(ws1, q) == frequency(ws2, q));
            }
        }
    } else {
        let p = r[0];
        assert forall|q: BytePair| frequency(ws1, q) > 0 && q != p implies ranks_above(ws1, p, q) by {
            assert(frequency(ws1, q) == frequency(ws2, q));
            assert(frequency(ws1, p) == frequency(ws2, p));
            assert(ranks_above(ws2, p, q));
        }
        assert(frequency(ws1, p) == frequency(ws2, p));
        assert(is_best(ws1, p));
        lemma_one_move_apply(ws1, ws2, p);
        lemma_one_move_runs(apply_merge(ws1, p), apply_merge(ws2, p), (b - 1) as nat, r.drop_first());
    }
}

/// One move refines: every run after it is a run before it.
pub proof fn lemma_one_move_refines(ws1: WordsModel, ws2: WordsModel)
    requires
        one_move(ws1, ws2),
    ensures
        refines(ws1, ws2),
{
    assert forall|b: nat, r: Seq<BytePair>| #[trigger] is_merge_run(ws2, b, r) implies is_merge_run(
        ws1,
        b,
        r,
    ) by {
        lemma_one_move_runs(ws1, ws2, b, r);
    }
}

} // verus!

verus! {

/// An entry that takes part in merges.
pub open spec fn live(e: (Seq<Seq<u8>>, nat)) -> bool {
    !inert(e)
}

/// Live entries outside `pending` hold pairwise distinct words.
pub open spec fn distinct_except(ws: WordsModel, pending: Set<int>) -> bool {
    forall|x: int, y: int|
        0 <= x < ws.len() && 0 <= y < ws.len() && x != y && live(#[trigger] ws[x]) && live(
            #[trigger] ws[y],
        ) && !pending.contains(x) && !pending.contains(y) ==> ws[x].0 != ws[y].0
}

/// The words form a multiset in canonical form: every entry is live and no
/// word occurs twice.
pub open spec fn canonical(ws: WordsModel) -> bool {
    &&& forall|x: int| 0 <= x < ws.len() ==> live(#[trigger] ws[x])
    &&& distinct_except(ws, Set::empty())
}

proof fn lemma_weight_upto_two_terms(ws: WordsModel, i: int, j: int, n: int)
    requires
        0 <= i < ws.len(),
        0 <= j < ws.len(),
        i != j,
        0 <= n <= ws.len(),
    ensures
        weight_upto(ws, n) >= (if i < n {
            ws[i].0.len() * ws[i].1
        } else {
            0
        }) + (if j < n {
            ws[j].0.len() * ws[j].1
        } else {
            0
        }),
    decreases n,
{
    if n > 0 {
        lemma_weight_upto_two_terms(ws, i, j, n - 1);
        let l = ws[n - 1].0.len();
        let c = ws[n - 1].1;
        assert(l * c >= 0) by (nonlinear_arith);
    }
}

/// Two live entries' counts together stay within the weight.
proof fn lemma_two_counts_fit(ws: WordsModel, i: int, j: int)
    requires
        0 <= i < ws.len(),
        0 <= j < ws.len(),
        i != j,
        ws[i].0.len() >= 1,
        ws[j].0.len() >= 1,
    ensures
        ws[i].1 + ws[j].1 <= weight(ws),
{
    lemma_weight_upto_two_terms(ws, i, j, ws.len() as int);
    let li = ws[i].0.len();
    let lj = ws[j].0.len();
    let ci = ws[i].1;
    let cj = ws[j].1;
    assert(ci <= li * ci && cj <= lj * cj) by (nonlinear_arith)
        requires
            li >= 1,
            lj >= 1,
    ;
}

/// Whether two words are equal, token by token.
pub fn words_equal(x: &Vec<Vec<u8>>, y: &Vec<Vec<u8>>) -> (r: bool)
    ensures
        r == (word_view(x@) == word_view(y@)),
{
    if x.len() != y.len() {
        return false;
    }
    let mut i: usize = 0;
    while i < x.len()
        invariant
            i <= x@.len(),
            x@.len() == y@.len(),
            forall|m: int| 0 <= m < i ==> x@[m]@ == y@[m]@,
        decreases x.len() - i,
    {
        if !bytes_equal(&x[i], &y[i]) {
            assert(word_view(x@)[i as int] != word_view(y@)[i as int]);
            return false;
        }
        i = i + 1;
    }
    assert(word_view(x@) =~= word_view(y@));
    true
}

/// Sums the count of entry `t` into another live entry with the same word,
/// if there is one; afterwards entry `t` is inert or its word occurs once
/// among the live entries.
pub(crate) fn settle(words: &mut Vec<(Vec<Vec<u8>>, usize)>, t: usize, Ghost(pending): Ghost<Set<int>>)
    requires
        t < old(words)@.len(),
        distinct_except(words_view(old(words)@), pending),
        weight(words_view(old(words)@)) <= usize::MAX,
    ensures
        final(words)@.len() == old(words)@.len(),
        distinct_except(words_view(final(words)@), pending.remove(t as int)),
        words_view(final(words)@) == words_view(old(words)@) || one_move(
            words_view(old(words)@),
            words_view(final(words)@),
        ),
        forall|x: int|
            0 <= x < final(words)@.len() ==> #[trigger] words_view(final(words)@)[x].0 == words_view(
                old(words)@,
            )[x].0,
{
    let ghost ws = words_view(words@);
    if words[t].0.len() < 2 || words[t].1 == 0 {
        assert(!live(ws[t as int]));
        return;
    }
    let mut j: usize = 0;
    while j < words.len()
        invariant
            ws == words_view(words@),
            words@ == old(words)@,
            t < words@.len(),
            live(ws[t as int]),
            distinct_except(ws, pending),
            weight(ws) <= usize::MAX,
            j <= words@.len(),
            forall|y: int| 0 <= y < j && y != t && live(ws[y]) ==> ws[y].0 != ws[t as int].0,
        decreases words.len() - j,
    {
        if j != t && words[j].0.len() >= 2 && words[j].1 > 0 && words_equal(&words[j].0, &words[t].0) {
            let ct = words[t].1;
            let cj = words[j].1;
            proof {
                lemma_two_counts_fit(ws, t as int, j as int);
            }
            words[j].1 = cj + ct;
            words[t].1 = 0;
            proof {
                assert(words_view(words@) =~= shift_count(ws, j as int, t as int));
                assert(one_move(ws, words_view(words@)));
                let ws2 = words_view(words@);
                assert forall|x: int, y: int|
                    0 <= x < ws2.len() && 0 <= y < ws2.len() && x != y && live(#[trigger] ws2[x])
                        && live(#[trigger] ws2[y]) && !pending.remove(t as int).contains(x)
                        && !pending.remove(t as int).contains(y) implies ws2[x].0 != ws2[y].0 by {
                    assert(x != t && y != t);
                    assert(live(ws[x]) && live(ws[y]));
                }
            }
            return;
        }
        j = j + 1;
    }
    proof {
        assert forall|x: int, y: int|
            0 <= x < ws.len() && 0 <= y < ws.len() && x != y && live(#[trigger] ws[x]) && live(
                #[trigger] ws[y],
            ) && !pending.remove(t as int).contains(x) && !pending.remove(t as int).contains(
                y,
            ) implies ws[x].0 != ws[y].0 by {
            if x != t && y != t {
                assert(!pending.contains(x) && !pending.contains(y));
            }
        }
    }
}

/// Removes every inert entry, keeping the order of the others.
pub fn drop_inert(words: &mut Vec<(Vec<Vec<u8>>, usize)>)
    requires
        distinct_except(words_view(old(words)@), Set::empty()),
    ensures
        canonical(words_view(final(words)@)),
        refines(words_view(old(words)@), words_view(final(words)@)),
        forall|p: BytePair| #[trigger] frequency(words_view(final(words)@), p) == frequency(
            words_view(old(words)@),
            p,
        ),
        weight(words_view(final(words)@)) <= weight(words_view(old(words)@)),
{
    let ghost ws0 = words_view(words@);
    let mut k: usize = 0;
    while k < words.len()
        invariant
            k <= words@.len(),
            distinct_except(words_view(words@), Set::empty()),
            forall|x: int| 0 <= x < k ==> live(#[trigger] words_view(words@)[x]),
            refines(ws0, words_view(words@)),
            forall|p: BytePair| #[trigger] frequency(words_view(words@), p) == frequency(ws0, p),
            weight(words_view(words@)) <= weight(ws0),
        decreases words.len() - k,
    {
        if words[k].0.len() < 2 || words[k].1 == 0 {
            let ghost ws = words_view(words@);
            words.remove(k);
            proof {
                let ws2 = words_view(words@);
                assert(ws2 =~= ws.remove(k as int));
                assert(inert(ws[k as int]));
                assert(one_move(ws, ws2));
                lemma_one_move_refines(ws, ws2);
                assert forall|p: BytePair| #[trigger] frequency(ws2, p) == frequency(ws0, p) by {
                    lemma_one_move_frequency(ws, ws2, p);
                }
                lemma_one_move_frequency(ws, ws2, (seq![], seq![]));
                assert forall|b: nat, r: Seq<BytePair>| #[trigger] is_merge_run(ws2, b, r) implies is_merge_run(ws0, b, r) by {
                    assert(is_merge_run(ws, b, r));
                }
                assert forall|x: int, y: int|
                    0 <= x < ws2.len() && 0 <= y < ws2.len() && x != y && live(#[trigger] ws2[x])
                        && live(#[trigger] ws2[y]) && !Set::<int>::empty().contains(x)
                        && !Set::<int>::empty().contains(y) implies ws2[x].0 != ws2[y].0 by {
                    let x0 = if x < k { x } else { x + 1 };
                    let y0 = if y < k { y } else { y + 1 };
                    assert(ws2[x] == ws[x0] && ws2[y] == ws[y0]);
                }
                assert forall|x: int| 0 <= x < k implies live(#[trigger] ws2[x]) by {
                    assert(ws2[x] == ws[x]);
                }
            }
        } else {
            k = k + 1;
        }
    }
}

} // verus!
