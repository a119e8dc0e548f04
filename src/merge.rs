//! The merge loop: word rewrite, the merge state with its incremental pair
//! frequency table, selection of the best pair, and the whole run.
use vstd::prelude::*;

use crate::model::{
    apply_merge, frequency, has_pair, is_best, is_merge_run, lemma_freq_bounds, lemma_freq_update,
    lemma_merge_word_weight, lemma_occ_upto_scaled, lemma_weight_update, lemma_weight_upto_mono,
    merge_budget_spec, merge_from, merge_word, occ_upto, occurrences, pair_at, pair_view,
    pairs_view, weight, weight_upto, word_view, words_view, BytePair, WordsModel, BASE_ALPHABET,
};
use crate::order::{bytes_equal, lemma_pair_lt_strict_total, pair_less, pair_lt};
use crate::multiset::{
    canonical, distinct_except, drop_inert, live, lemma_one_move_frequency, lemma_one_move_refines,
    refines, settle,
};
use crate::table::{copy_bytes, key_at, shifted, table_add, table_ok, table_sub};

verus! {

/// Number of merges for a vocabulary of `vocab_size` tokens of which
/// `num_special_tokens` are reserved; zero when they do not fit.
pub fn merge_budget(vocab_size: usize, num_special_tokens: usize) -> (r: usize)
    ensures
        r as nat == merge_budget_spec(vocab_size as int, num_special_tokens as int),
{
    if vocab_size >= BASE_ALPHABET && vocab_size - BASE_ALPHABET >= num_special_tokens {
        vocab_size - BASE_ALPHABET - num_special_tokens
    } else {
        0
    }
}

/// Total number of tokens over all words, each weighted by its count, or
/// `None` when it does not fit in a `usize`.
pub fn total_weight(words: &Vec<(Vec<Vec<u8>>, usize)>) -> (r: Option<usize>)
    ensures
        match r {
            Some(t) => t as int == weight(words_view(words@)),
            None => weight(words_view(words@)) > usize::MAX,
        },
{
    let ghost ws = words_view(words@);
    let mut acc: usize = 0;
    let mut k: usize = 0;
    while k < words.len()
        invariant
            k <= words@.len(),
            ws == words_view(words@),
            acc as int == weight_upto(ws, k as int),
        decreases words.len() - k,
    {
        assert(ws[k as int].0.len() == words@[k as int].0@.len());
        let l = words[k].0.len();
        let c = words[k].1;
        let next = match l.checked_mul(c) {
            Some(t) => acc.checked_add(t),
            None => None,
        };
        match next {
            Some(n) => {
                acc = n;
            },
            None => {
                proof {
                    assert(l as int * c as int >= 0) by (nonlinear_arith);
                    lemma_weight_upto_mono(ws, k + 1, ws.len() as int);
                }
                return None;
            },
        }
        k = k + 1;
    }
    Some(acc)
}

/// Rewrites a word with the merge `(a, b)`, left to right and without
/// overlap; the flag tells whether any merge took place.
pub fn rewrite_word(w: &Vec<Vec<u8>>, a: &Vec<u8>, b: &Vec<u8>) -> (r: (Vec<Vec<u8>>, bool))
    ensures
        word_view(r.0@) == merge_word(word_view(w@), (a@, b@)),
        !r.1 ==> word_view(r.0@) == word_view(w@),
{
    let ghost ww = word_view(w@);
    let ghost p = (a@, b@);
    let mut out: Vec<Vec<u8>> = Vec::new();
    let mut changed = false;
    let mut i: usize = 0;
    assert(word_view(out@) + merge_from(ww, p, 0) =~= merge_from(ww, p, 0));
    while i < w.len()
        invariant
            i <= w@.len(),
            ww == word_view(w@),
            p == (a@, b@),
            word_view(out@) + merge_from(ww, p, i as int) == merge_from(ww, p, 0),
            !changed ==> word_view(out@) == ww.subrange(0, i as int),
        decreases w.len() - i,
    {
        let ghost before = word_view(out@);
        if i + 1 < w.len() && bytes_equal(&w[i], a) && bytes_equal(&w[i + 1], b) {
            let mut m = copy_bytes(a);
            let mut tail = copy_bytes(b);
            m.append(&mut tail);
            out.push(m);
            assert(word_view(out@) =~= before.push(a@ + b@));
            assert(merge_from(ww, p, i as int) == seq![a@ + b@] + merge_from(ww, p, i + 2));
            assert(word_view(out@) + merge_from(ww, p, i + 2) =~= before + merge_from(ww, p, i as int));
            changed = true;
            i = i + 2;
        } else {
            let t = copy_bytes(&w[i]);
            out.push(t);
            assert(word_view(out@) =~= before.push(ww[i as int]));
            assert(!pair_at(ww, i as int, p));
            assert(merge_from(ww, p, i as int) == seq![ww[i as int]] + merge_from(ww, p, i + 1));
            assert(word_view(out@) + merge_from(ww, p, i + 1) =~= before + merge_from(ww, p, i as int));
            assert(!changed ==> word_view(out@) =~= ww.subrange(0, i + 1));
            i = i + 1;
        }
    }
    assert(word_view(out@) + merge_from(ww, p, i as int) =~= word_view(out@));
    assert(!changed ==> ww.subrange(0, i as int) =~= ww);
    (out, changed)
}

} // verus!

verus! {

/// Frequencies of all pairs over `ws`, as a function.
pub open spec fn freq_fn(ws: WordsModel) -> spec_fn(BytePair) -> int {
    |p: BytePair| frequency(ws, p)
}

/// Frequencies of all pairs over the first `k` entries of `ws` plus the
/// first `i` positions of entry `k`.
pub open spec fn build_fn(ws: WordsModel, k: int, i: int) -> spec_fn(BytePair) -> int {
    |p: BytePair| crate::model::freq_upto(ws, p, k) + occ_upto(ws[k].0, p, i) * ws[k].1
}

/// Frequencies of all pairs over `ws` less the first `i` positions of entry `k`.
pub open spec fn drop_fn(ws: WordsModel, k: int, i: int) -> spec_fn(BytePair) -> int {
    |p: BytePair| frequency(ws, p) - occ_upto(ws[k].0, p, i) * ws[k].1
}

/// Frequencies of all pairs over `ws` without entry `k`, plus the first `i`
/// positions of the word `nw` counted as often as entry `k`.
pub open spec fn lift_fn(ws: WordsModel, k: int, nw: Seq<Seq<u8>>, i: int) -> spec_fn(BytePair) -> int {
    |p: BytePair| frequency(ws, p) - occurrences(ws[k].0, p) * ws[k].1 + occ_upto(nw, p, i) * ws[k].1
}

/// Builds the pair frequency table of a list of words.
fn build_table(words: &Vec<(Vec<Vec<u8>>, usize)>) -> (r: (Vec<(Vec<u8>, Vec<u8>)>, Vec<usize>))
    requires
        weight(words_view(words@)) <= usize::MAX,
    ensures
        table_ok(r.0@, r.1@, freq_fn(words_view(words@))),
{
    let ghost ws = words_view(words@);
    let mut keys: Vec<(Vec<u8>, Vec<u8>)> = Vec::new();
    let mut freqs: Vec<usize> = Vec::new();
    let mut k: usize = 0;
    if words.len() > 0 {
        assert forall|p: BytePair| #[trigger] build_fn(ws, 0, 0)(p) == 0 by {
            assert(occ_upto(ws[0].0, p, 0) == 0);
        }
    }
    while k < words.len()
        invariant
            k <= words@.len(),
            ws == words_view(words@),
            weight(ws) <= usize::MAX,
            k < words@.len() ==> table_ok(keys@, freqs@, build_fn(ws, k as int, 0)),
            k == words@.len() ==> table_ok(keys@, freqs@, freq_fn(ws)),
        decreases words.len() - k,
    {
        let w = &words[k].0;
        let c = words[k].1;
        let ghost wk = ws[k as int].0;
        assert(wk == word_view(w@));
        assert(ws[k as int].1 == c as nat);
        let mut i: usize = 0;
        while w.len() >= 2 && i < w.len() - 1
            invariant
                k < words@.len(),
                ws == words_view(words@),
                weight(ws) <= usize::MAX,
                wk == ws[k as int].0,
                wk == word_view(w@),
                ws[k as int].1 == c as nat,
                w@.len() >= 2 ==> i <= w@.len() - 1,
                w@.len() < 2 ==> i == 0,
                table_ok(keys@, freqs@, build_fn(ws, k as int, i as int)),
            decreases w.len() - i,
        {
            let ghost key = (w@[i as int]@, w@[i + 1]@);
            proof {
                lemma_occ_upto_scaled(wk, key, i as int, c as nat);
                lemma_occ_upto_scaled(wk, key, i + 1, c as nat);
                crate::model::lemma_freq_upto_bounds(ws, key, 0, k + 1);
                crate::model::lemma_freq_upto_bounds(ws, key, 0, k as int);
                lemma_weight_upto_mono(ws, k + 1, ws.len() as int);
                assert(pair_at(wk, i as int, key));
            }
            table_add(&mut keys, &mut freqs, &w[i], &w[i + 1], c, Ghost(build_fn(ws, k as int, i as int)));
            proof {
                assert forall|p: BytePair| #[trigger] shifted(build_fn(ws, k as int, i as int), key, c as int)(p)
                    == build_fn(ws, k as int, i + 1)(p) by {
                    lemma_occ_upto_scaled(wk, p, i as int, c as nat);
                }
                crate::table::lemma_table_ok_same(
                    keys@,
                    freqs@,
                    shifted(build_fn(ws, k as int, i as int), key, c as int),
                    build_fn(ws, k as int, i + 1),
                );
            }
            i = i + 1;
        }
        proof {
            let nf = if k + 1 < words@.len() {
                build_fn(ws, k + 1, 0)
            } else {
                freq_fn(ws)
            };
            assert forall|p: BytePair| #[trigger] build_fn(ws, k as int, i as int)(p) == nf(p) by {
                assert(occ_upto(wk, p, i as int) == occurrences(wk, p));
                assert(crate::model::freq_upto(ws, p, k + 1) == crate::model::freq_upto(ws, p, k as int)
                    + occurrences(wk, p) * ws[k as int].1);
                if k + 1 < words@.len() {
                    assert(occ_upto(ws[k + 1].0, p, 0) == 0);
                }
            }
            crate::table::lemma_table_ok_same(keys@, freqs@, build_fn(ws, k as int, i as int), nf);
        }
        k = k + 1;
    }
    (keys, freqs)
}

} // verus!

verus! {

/// Moves the contribution of entry `k` of `ws` from its word `ow` to the
/// rewritten word `nw`: each adjacent pair of `ow` loses the entry's count,
/// each adjacent pair of `nw` gains it.
fn retable_word(
    keys: &mut Vec<(Vec<u8>, Vec<u8>)>,
    freqs: &mut Vec<usize>,
    ow: &Vec<Vec<u8>>,
    nw: &Vec<Vec<u8>>,
    c: usize,
    Ghost(ws): Ghost<WordsModel>,
    Ghost(k): Ghost<int>,
)
    requires
        table_ok(old(keys)@, old(freqs)@, freq_fn(ws)),
        0 <= k < ws.len(),
        ws[k] == (word_view(ow@), c as nat),
        word_view(nw@).len() * c <= word_view(ow@).len() * c,
        weight(ws) <= usize::MAX,
    ensures
        table_ok(final(keys)@, final(freqs)@, freq_fn(ws.update(k, (word_view(nw@), c as nat)))),
{
    let ghost owv = word_view(ow@);
    let ghost nwv = word_view(nw@);
    let ghost ws2 = ws.update(k, (nwv, c as nat));
    proof {
        assert forall|p: BytePair| #[trigger] freq_fn(ws)(p) == drop_fn(ws, k, 0)(p) by {
            assert(occ_upto(owv, p, 0) == 0);
        }
        crate::table::lemma_table_ok_same(keys@, freqs@, freq_fn(ws), drop_fn(ws, k, 0));
        lemma_weight_update(ws, k, (nwv, c as nat));
    }
    let mut i: usize = 0;
    while ow.len() >= 2 && i < ow.len() - 1
        invariant
            0 <= k < ws.len(),
            ws[k] == (owv, c as nat),
            owv == word_view(ow@),
            ow@.len() >= 2 ==> i <= ow@.len() - 1,
            ow@.len() < 2 ==> i == 0,
            table_ok(keys@, freqs@, drop_fn(ws, k, i as int)),
        decreases ow.len() - i,
    {
        let ghost key = (ow@[i as int]@, ow@[i + 1]@);
        proof {
            lemma_occ_upto_scaled(owv, key, i as int, c as nat);
            lemma_occ_upto_scaled(owv, key, i + 1, c as nat);
            lemma_freq_bounds(ws, key, k);
            assert(pair_at(owv, i as int, key));
        }
        table_sub(keys, freqs, &ow[i], &ow[i + 1], c, Ghost(drop_fn(ws, k, i as int)));
        proof {
            assert forall|p: BytePair| #[trigger] shifted(drop_fn(ws, k, i as int), key, -c as int)(p)
                == drop_fn(ws, k, i + 1)(p) by {
                lemma_occ_upto_scaled(owv, p, i as int, c as nat);
            }
            crate::table::lemma_table_ok_same(
                keys@,
                freqs@,
                shifted(drop_fn(ws, k, i as int), key, -c as int),
                drop_fn(ws, k, i + 1),
            );
        }
        i = i + 1;
    }
    proof {
        assert forall|p: BytePair| #[trigger] drop_fn(ws, k, i as int)(p) == lift_fn(ws, k, nwv, 0)(p) by {
            assert(occ_upto(owv, p, i as int) == occurrences(owv, p));
            assert(occ_upto(nwv, p, 0) == 0);
        }
        crate::table::lemma_table_ok_same(keys@, freqs@, drop_fn(ws, k, i as int), lift_fn(ws, k, nwv, 0));
    }
    let mut j: usize = 0;
    while nw.len() >= 2 && j < nw.len() - 1
        invariant
            0 <= k < ws.len(),
            ws[k] == (owv, c as nat),
            nwv == word_view(nw@),
            ws2 == ws.update(k, (nwv, c as nat)),
            weight(ws2) <= usize::MAX,
            nw@.len() >= 2 ==> j <= nw@.len() - 1,
            nw@.len() < 2 ==> j == 0,
            table_ok(keys@, freqs@, lift_fn(ws, k, nwv, j as int)),
        decreases nw.len() - j,
    {
        let ghost key = (nw@[j as int]@, nw@[j + 1]@);
        proof {
            lemma_occ_upto_scaled(nwv, key, j as int, c as nat);
            lemma_occ_upto_scaled(nwv, key, j + 1, c as nat);
            lemma_freq_bounds(ws, key, k);
            lemma_freq_bounds(ws2, key, k);
            lemma_freq_update(ws, k, (nwv, c as nat), key);
            assert(pair_at(nwv, j as int, key));
        }
        table_add(keys, freqs, &nw[j], &nw[j + 1], c, Ghost(lift_fn(ws, k, nwv, j as int)));
        proof {
            assert forall|p: BytePair| #[trigger] shifted(lift_fn(ws, k, nwv, j as int), key, c as int)(p)
                == lift_fn(ws, k, nwv, j + 1)(p) by {
                lemma_occ_upto_scaled(nwv, p, j as int, c as nat);
            }
            crate::table::lemma_table_ok_same(
                keys@,
                freqs@,
                shifted(lift_fn(ws, k, nwv, j as int), key, c as int),
                lift_fn(ws, k, nwv, j + 1),
            );
        }
        j = j + 1;
    }
    proof {
        assert forall|p: BytePair| #[trigger] lift_fn(ws, k, nwv, j as int)(p) == freq_fn(ws2)(p) by {
            assert(occ_upto(nwv, p, j as int) == occurrences(nwv, p));
            lemma_freq_update(ws, k, (nwv, c as nat), p);
        }
        crate::table::lemma_table_ok_same(keys@, freqs@, lift_fn(ws, k, nwv, j as int), freq_fn(ws2));
    }
}

} // verus!

verus! {

/// Index of the entry with the highest frequency, the smallest pair among equals.
fn select_best(keys: &Vec<(Vec<u8>, Vec<u8>)>, freqs: &Vec<usize>) -> (r: usize)
    requires
        keys@.len() == freqs@.len(),
        keys@.len() > 0,
        forall|i: int, j: int|
            0 <= i < keys@.len() && 0 <= j < keys@.len() && i != j ==> key_at(keys@, i) != key_at(
                keys@,
                j,
            ),
    ensures
        r < keys@.len(),
        forall|j: int|
            0 <= j < keys@.len() && j != r ==> freqs@[r as int] > freqs@[j] || (freqs@[r as int]
                == freqs@[j] && pair_lt(key_at(keys@, r as int), key_at(keys@, j))),
{
    let mut best: usize = 0;
    let mut j: usize = 1;
    while j < keys.len()
        invariant
            keys@.len() == freqs@.len(),
            1 <= j <= keys@.len(),
            best < j,
            forall|x: int, y: int|
                0 <= x < keys@.len() && 0 <= y < keys@.len() && x != y ==> key_at(keys@, x)
                    != key_at(keys@, y),
            forall|x: int|
                0 <= x < j && x != best ==> freqs@[best as int] > freqs@[x] || (freqs@[best as int]
                    == freqs@[x] && pair_lt(key_at(keys@, best as int), key_at(keys@, x))),
        decreases keys.len() - j,
    {
        let better = freqs[j] > freqs[best] || (freqs[j] == freqs[best] && pair_less(
            &keys[j].0,
            &keys[j].1,
            &keys[best].0,
            &keys[best].1,
        ));
        proof {
            let kb = key_at(keys@, best as int);
            let kj = key_at(keys@, j as int);
            assert forall|x: int| 0 <= x < j && x != best && better implies freqs@[j as int]
                > freqs@[x] || (freqs@[j as int] == freqs@[x] && pair_lt(kj, key_at(keys@, x))) by {
                lemma_pair_lt_strict_total(kj, kb, key_at(keys@, x));
            }
            lemma_pair_lt_strict_total(kb, kj, kb);
        }
        if better {
            best = j;
        }
        j = j + 1;
    }
    best
}

/// Words with their counts together with the pair frequency table over them.
pub struct MergeState {
    /// The words and their counts.
    pub words: Vec<(Vec<Vec<u8>>, usize)>,
    /// The distinct pairs of positive frequency.
    pub keys: Vec<(Vec<u8>, Vec<u8>)>,
    /// The frequency of each pair in `keys`, at the same index.
    pub freqs: Vec<usize>,
}

impl MergeState {
    /// The words with their counts, as mathematical values.
    pub open spec fn model(&self) -> WordsModel {
        words_view(self.words@)
    }

    /// The words are distinct, each of at least two tokens with a positive
    /// count; the table holds every pair of positive frequency once, with its
    /// exact frequency over the current words, and no other pair; no
    /// frequency can exceed a `usize`.
    pub open spec fn wf(&self) -> bool {
        &&& canonical(self.model())
        &&& table_ok(self.keys@, self.freqs@, freq_fn(self.model()))
        &&& weight(self.model()) <= usize::MAX
    }

    /// Takes the words, sums the counts of equal words, drops the words that
    /// can hold no pair, and computes the frequency of every adjacent pair.
    /// Every merge run of the result is a merge run of the given words.
    pub fn new(words: Vec<(Vec<Vec<u8>>, usize)>) -> (s: Self)
        requires
            weight(words_view(words@)) <= usize::MAX,
        ensures
            s.wf(),
            refines(words_view(words@), s.model()),
    {
        let ghost ws0 = words_view(words@);
        let mut words = words;
        let n = words.len();
        let mut k: usize = 0;
        assert forall|b: nat, r: Seq<BytePair>| #[trigger] is_merge_run(words_view(words@), b, r)
            implies is_merge_run(ws0, b, r) by {}
        while k < n
            invariant
                n == words@.len(),
                k <= n,
                distinct_except(words_view(words@), Set::new(|x: int| k <= x < n)),
                refines(ws0, words_view(words@)),
                weight(words_view(words@)) <= weight(ws0),
                weight(ws0) <= usize::MAX,
            decreases n - k,
        {
            let ghost ws = words_view(words@);
            let ghost pending = Set::new(|x: int| k <= x < n);
            settle(&mut words, k, Ghost(pending));
            proof {
                let ws2 = words_view(words@);
                assert(pending.remove(k as int) =~= Set::new(|x: int| k + 1 <= x < n));
                if ws2 != ws {
                    lemma_one_move_refines(ws, ws2);
                    lemma_one_move_frequency(ws, ws2, (seq![], seq![]));
                    assert forall|b: nat, r: Seq<BytePair>| #[trigger] is_merge_run(ws2, b, r)
                        implies is_merge_run(ws0, b, r) by {
                        assert(is_merge_run(ws, b, r));
                    }
                }
            }
            k = k + 1;
        }
        assert(Set::new(|x: int| k <= x < n) =~= Set::<int>::empty());
        let ghost ws1 = words_view(words@);
        drop_inert(&mut words);
        proof {
            assert forall|b: nat, r: Seq<BytePair>| #[trigger] is_merge_run(words_view(words@), b, r)
                implies is_merge_run(ws0, b, r) by {
                assert(is_merge_run(ws1, b, r));
            }
        }
        let (keys, freqs) = build_table(&words);
        MergeState { words, keys, freqs }
    }

    /// Selects the best pair, merges it in every word that holds it, and
    /// brings the frequencies up to date; rewritten words that meet another
    /// word are summed into it, and those left with one token are dropped.
    /// Every merge run of the new state is one of the old words rewritten
    /// with the pair. `None`, with nothing changed, when no pair is left.
    pub fn step(&mut self) -> (r: Option<(Vec<u8>, Vec<u8>)>)
        requires
            old(self).wf(),
        ensures
            final(self).wf(),
            match r {
                None => !has_pair(old(self).model()) && final(self).model() == old(self).model(),
                Some(p) => is_best(old(self).model(), pair_view(p)) && refines(
                    apply_merge(old(self).model(), pair_view(p)),
                    final(self).model(),
                ),
            },
    {
        let ghost ws0 = self.model();
        if self.keys.len() == 0 {
            proof {
                if has_pair(ws0) {
                    let q = choose|q: BytePair| frequency(ws0, q) > 0;
                    assert(freq_fn(ws0)(q) > 0);
                }
            }
            return None;
        }
        let bi = select_best(&self.keys, &self.freqs);
        let a = copy_bytes(&self.keys[bi].0);
        let b = copy_bytes(&self.keys[bi].1);
        let ghost p = (a@, b@);
        proof {
            assert(key_at(self.keys@, bi as int) == p);
            assert(self.freqs@[bi as int] > 0);
            assert forall|q: BytePair| frequency(ws0, q) > 0 && q != p implies crate::model::ranks_above(ws0, p, q) by {
                assert(freq_fn(ws0)(q) > 0);
                let j = choose|j: int| 0 <= j < self.keys@.len() && key_at(self.keys@, j) == q;
                assert(self.freqs@[j] > 0);
                assert(j != bi);
            }
            assert(is_best(ws0, p));
        }
        let ghost target = apply_merge(ws0, p);
        let mut touched: Vec<usize> = Vec::new();
        let ghost mut tset: Set<int> = Set::empty();
        let mut k: usize = 0;
        while k < self.words.len()
            invariant
                table_ok(self.keys@, self.freqs@, freq_fn(self.model())),
                weight(self.model()) <= usize::MAX,
                canonical(ws0),
                self.words@.len() == ws0.len(),
                p == (a@, b@),
                target == apply_merge(ws0, p),
                forall|x: int| 0 <= x < k ==> #[trigger] self.model()[x] == target[x],
                forall|x: int| k <= x < ws0.len() ==> #[trigger] self.model()[x] == ws0[x],
                forall|x: int| 0 <= x < k && !tset.contains(x) ==> #[trigger] target[x] == ws0[x],
                forall|x: int| tset.contains(x) ==> exists|m: int| 0 <= m < touched@.len() && touched@[m] == x,
                forall|m: int| 0 <= m < touched@.len() ==> #[trigger] touched@[m] < ws0.len(),
                forall|x: int| tset.contains(x) ==> x < k,
            decreases self.words.len() - k,
        {
            let (nw, changed) = rewrite_word(&self.words[k].0, &a, &b);
            let c = self.words[k].1;
            let ghost ws = self.model();
            proof {
                assert(ws[k as int] == ws0[k as int]);
                assert(target[k as int] == (merge_word(ws0[k as int].0, p), ws0[k as int].1));
            }
            if changed {
                proof {
                    lemma_merge_word_weight(ws[k as int].0, p, c as nat);
                }
                retable_word(
                    &mut self.keys,
                    &mut self.freqs,
                    &self.words[k].0,
                    &nw,
                    c,
                    Ghost(ws),
                    Ghost(k as int),
                );
                self.words.set(k, (nw, c));
                let ghost old_touched = touched@;
                let ghost old_tset = tset;
                touched.push(k);
                proof {
                    tset = tset.insert(k as int);
                    assert forall|x: int| tset.contains(x) implies exists|m: int|
                        0 <= m < touched@.len() && touched@[m] == x by {
                        if x != k {
                            assert(old_tset.contains(x));
                            let m = choose|m: int| 0 <= m < old_touched.len() && old_touched[m] == x;
                            assert(touched@[m] == x);
                        } else {
                            assert(touched@[touched@.len() - 1] == x);
                        }
                    }
                    assert(touched@[touched@.len() - 1] == k);
                    assert(self.model() =~= ws.update(k as int, (word_view(nw@), c as nat)));
                    lemma_weight_update(ws, k as int, (word_view(nw@), c as nat));
                }
            }
            k = k + 1;
        }
        proof {
            assert(self.model() =~= target);
            assert forall|x: int| 0 <= x < target.len() && !tset.contains(x) implies #[trigger] target[x]
                == ws0[x] by {}
            assert forall|x: int, y: int|
                0 <= x < target.len() && 0 <= y < target.len() && x != y && live(#[trigger] target[x])
                    && live(#[trigger] target[y]) && !tset.contains(x) && !tset.contains(y) implies target[x].0
                != target[y].0 by {
                assert(!Set::<int>::empty().contains(x) && !Set::<int>::empty().contains(y));
            }
            assert forall|b: nat, r: Seq<BytePair>| #[trigger] is_merge_run(self.model(), b, r)
                implies is_merge_run(target, b, r) by {}
        }
        let ghost mut pending = tset;
        let mut q: usize = 0;
        while q < touched.len()
            invariant
                table_ok(self.keys@, self.freqs@, freq_fn(self.model())),
                weight(self.model()) <= usize::MAX,
                self.words@.len() == ws0.len(),
                forall|m: int| 0 <= m < touched@.len() ==> #[trigger] touched@[m] < ws0.len(),
                q <= touched@.len(),
                distinct_except(self.model(), pending),
                forall|x: int| pending.contains(x) ==> exists|m: int| q <= m < touched@.len() && touched@[m] == x,
                refines(target, self.model()),
            decreases touched.len() - q,
        {
            let t = touched[q];
            let ghost ws = self.model();
            settle(&mut self.words, t, Ghost(pending));
            proof {
                let ws2 = self.model();
                if ws2 != ws {
                    lemma_one_move_refines(ws, ws2);
                    assert forall|pp: BytePair| #[trigger] freq_fn(ws)(pp) == freq_fn(ws2)(pp) by {
                        lemma_one_move_frequency(ws, ws2, pp);
                    }
                    lemma_one_move_frequency(ws, ws2, (seq![], seq![]));
                    crate::table::lemma_table_ok_same(self.keys@, self.freqs@, freq_fn(ws), freq_fn(ws2));
                    assert forall|b: nat, r: Seq<BytePair>| #[trigger] is_merge_run(ws2, b, r)
                        implies is_merge_run(target, b, r) by {
                        assert(is_merge_run(ws, b, r));
                    }
                }
                let old_pending = pending;
                pending = pending.remove(t as int);
                assert forall|x: int| pending.contains(x) implies exists|m: int|
                    q + 1 <= m < touched@.len() && touched@[m] == x by {
                    assert(old_pending.contains(x));
                    let m = choose|m: int| q <= m < touched@.len() && touched@[m] == x;
                    assert(m != q);
                }
            }
            q = q + 1;
        }
        proof {
            assert(pending =~= Set::<int>::empty()) by {
                assert forall|x: int| !pending.contains(x) by {
                    if pending.contains(x) {
                        let m = choose|m: int| q <= m < touched@.len() && touched@[m] == x;
                    }
                }
            }
        }
        let ghost ws3 = self.model();
        drop_inert(&mut self.words);
        proof {
            let ws4 = self.model();
            assert forall|pp: BytePair| #[trigger] freq_fn(ws3)(pp) == freq_fn(ws4)(pp) by {}
            crate::table::lemma_table_ok_same(self.keys@, self.freqs@, freq_fn(ws3), freq_fn(ws4));
            assert forall|b: nat, r: Seq<BytePair>| #[trigger] is_merge_run(ws4, b, r)
                implies is_merge_run(target, b, r) by {
                assert(is_merge_run(ws3, b, r));
            }
        }
        let r = (a, b);
        assert(pair_view(r) == p);
        Some(r)
    }
}

/// Computes the merge record: at most the budget that `vocab_size` and
/// `num_special_tokens` leave, each merge the best pair of the words as the
/// merges before it left them.
pub fn run_bpe_merge(
    words: Vec<(Vec<Vec<u8>>, usize)>,
    vocab_size: usize,
    num_special_tokens: usize,
) -> (r: Vec<(Vec<u8>, Vec<u8>)>)
    requires
        weight(words_view(words@)) <= usize::MAX,
    ensures
        is_merge_run(
            words_view(words@),
            merge_budget_spec(vocab_size as int, num_special_tokens as int),
            pairs_view(r@),
        ),
        r@.len() <= merge_budget_spec(vocab_size as int, num_special_tokens as int),
{
    let ghost ws0 = words_view(words@);
    let budget = merge_budget(vocab_size, num_special_tokens);
    let mut state = MergeState::new(words);
    let mut merges: Vec<(Vec<u8>, Vec<u8>)> = Vec::new();
    let mut done: usize = 0;
    assert forall|rest: Seq<BytePair>|
        #[trigger] is_merge_run(state.model(), (budget - done) as nat, rest) implies is_merge_run(
            ws0,
            budget as nat,
            pairs_view(merges@) + rest,
        ) by {
        assert(pairs_view(merges@) + rest =~= rest);
    }
    while done < budget
        invariant
            state.wf(),
            ws0 == words_view(words@),
            budget as nat == merge_budget_spec(vocab_size as int, num_special_tokens as int),
            done <= budget,
            merges@.len() == done,
            forall|rest: Seq<BytePair>|
                #[trigger] is_merge_run(state.model(), (budget - done) as nat, rest)
                    ==> is_merge_run(ws0, budget as nat, pairs_view(merges@) + rest),
        decreases budget - done,
    {
        let ghost m = state.model();
        match state.step() {
            None => {
                proof {
                    assert(is_merge_run(m, (budget - done) as nat, seq![]));
                    assert(pairs_view(merges@) + seq![] =~= pairs_view(merges@));
                }
                return merges;
            },
            Some(pair) => {
                let ghost pv = pair_view(pair);
                let ghost old_merges = merges@;
                merges.push(pair);
                proof {
                    assert(pairs_view(merges@) =~= pairs_view(old_merges).push(pv));
                    assert forall|rest: Seq<BytePair>|
                        #[trigger] is_merge_run(state.model(), (budget - (done + 1)) as nat, rest)
                            implies is_merge_run(ws0, budget as nat, pairs_view(merges@) + rest) by {
                        assert(is_merge_run(apply_merge(m, pv), (budget - (done + 1)) as nat, rest));
                        let full = seq![pv] + rest;
                        assert(full.drop_first() =~= rest);
                        assert(full[0] == pv);
                        assert(is_merge_run(m, (budget - done) as nat, full));
                        assert(is_merge_run(ws0, budget as nat, pairs_view(old_merges) + full));
                        assert(pairs_view(merges@) + rest =~= pairs_view(old_merges) + full);
                    }
                }
                done = done + 1;
            },
        }
    }
    proof {
        assert(is_merge_run(state.model(), (budget - done) as nat, seq![]));
        assert(pairs_view(merges@) + seq![] =~= pairs_view(merges@));
    }
    merges
}

} // verus!
