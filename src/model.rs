//! Mathematical model: words, pair frequencies, the rewrite of one word, and
//! what a correct run of merges is.
use vstd::prelude::*;

use crate::order::pair_lt;

verus! {

/// A token is a byte string; a word is a sequence of tokens.
pub type WordModel = Seq<Seq<u8>>;

/// An ordered pair of adjacent tokens.
pub type BytePair = (Seq<u8>, Seq<u8>);

/// Words with their occurrence counts.
pub type WordsModel = Seq<(WordModel, nat)>;

/// Number of tokens reserved for the raw byte values.
pub const BASE_ALPHABET: usize = 256;

/// The tokens of a word as byte strings.
pub open spec fn word_view(w: Seq<Vec<u8>>) -> WordModel {
    w.map_values(|t: Vec<u8>| t@)
}

/// The words with their counts, as mathematical values.
pub open spec fn words_view(ws: Seq<(Vec<Vec<u8>>, usize)>) -> WordsModel {
    ws.map_values(|e: (Vec<Vec<u8>>, usize)| (word_view(e.0@), e.1 as nat))
}

/// The pair of byte strings held by an executable pair.
pub open spec fn pair_view(p: (Vec<u8>, Vec<u8>)) -> BytePair {
    (p.0@, p.1@)
}

/// The pairs of a merge record.
pub open spec fn pairs_view(r: Seq<(Vec<u8>, Vec<u8>)>) -> Seq<BytePair> {
    r.map_values(|p: (Vec<u8>, Vec<u8>)| pair_view(p))
}

/// Whether `p` stands at positions `i` and `i + 1` of `w`.
pub open spec fn pair_at(w: WordModel, i: int, p: BytePair) -> bool {
    0 <= i && i + 1 < w.len() && w[i] == p.0 && w[i + 1] == p.1
}

/// Number of positions `i < n` at which `p` stands in `w`.
pub open spec fn occ_upto(w: WordModel, p: BytePair, n: int) -> nat
    decreases n,
{
    if n <= 0 {
        0
    } else {
        occ_upto(w, p, n - 1) + if pair_at(w, n - 1, p) {
            1nat
        } else {
            0nat
        }
    }
}

/// Number of adjacent positions of `w` that hold `p`.
pub open spec fn occurrences(w: WordModel, p: BytePair) -> nat {
    occ_upto(w, p, w.len() - 1)
}

/// Frequency of `p` over the first `n` entries.
pub open spec fn freq_upto(ws: WordsModel, p: BytePair, n: int) -> int
    decreases n,
{
    if n <= 0 {
        0
    } else {
        freq_upto(ws, p, n - 1) + occurrences(ws[n - 1].0, p) * ws[n - 1].1
    }
}

/// Frequency of `p`: its adjacent occurrences in each word times the word's count.
pub open spec fn frequency(ws: WordsModel, p: BytePair) -> int {
    freq_upto(ws, p, ws.len() as int)
}

/// Total number of tokens over the first `n` entries, each word weighted by its count.
pub open spec fn weight_upto(ws: WordsModel, n: int) -> int
    decreases n,
{
    if n <= 0 {
        0
    } else {
        weight_upto(ws, n - 1) + ws[n - 1].0.len() * ws[n - 1].1
    }
}

/// Total number of tokens, each word weighted by its count; bounds every frequency.
pub open spec fn weight(ws: WordsModel) -> int {
    weight_upto(ws, ws.len() as int)
}

/// Left-to-right, non-overlapping rewrite of `w` from position `i` on:
/// each occurrence of `p` becomes the concatenation of its two tokens.
pub open spec fn merge_from(w: WordModel, p: BytePair, i: int) -> WordModel
    decreases w.len() - i,
{
    if i >= w.len() {
        seq![]
    } else if pair_at(w, i, p) {
        seq![p.0 + p.1] + merge_from(w, p, i + 2)
    } else {
        seq![w[i]] + merge_from(w, p, i + 1)
    }
}

/// The rewrite of a whole word with the merge `p`.
pub open spec fn merge_word(w: WordModel, p: BytePair) -> WordModel {
    merge_from(w, p, 0)
}

/// Every word rewritten with the merge `p`; counts are kept.
pub open spec fn apply_merge(ws: WordsModel, p: BytePair) -> WordsModel {
    ws.map_values(|e: (WordModel, nat)| (merge_word(e.0, p), e.1))
}

/// `p` ranks above `q`: higher frequency, or equal frequency and smaller pair.
pub open spec fn ranks_above(ws: WordsModel, p: BytePair, q: BytePair) -> bool {
    frequency(ws, p) > frequency(ws, q) || (frequency(ws, p) == frequency(ws, q) && pair_lt(p, q))
}

/// `p` is the pair that the next merge selects.
pub open spec fn is_best(ws: WordsModel, p: BytePair) -> bool {
    &&& frequency(ws, p) > 0
    &&& forall|q: BytePair| frequency(ws, q) > 0 && q != p ==> ranks_above(ws, p, q)
}

/// Some pair occurs with positive frequency.
pub open spec fn has_pair(ws: WordsModel) -> bool {
    exists|q: BytePair| frequency(ws, q) > 0
}

/// `r` is the merge record that a run with `budget` merges produces from `ws`.
pub open spec fn is_merge_run(ws: WordsModel, budget: nat, r: Seq<BytePair>) -> bool
    decreases r.len(),
{
    if r.len() == 0 {
        budget == 0 || !has_pair(ws)
    } else {
        &&& budget > 0
        &&& is_best(ws, r[0])
        &&& is_merge_run(apply_merge(ws, r[0]), (budget - 1) as nat, r.drop_first())
    }
}

/// Number of merges: the vocabulary size less the byte alphabet and the
/// reserved special tokens, and never below zero.
pub open spec fn merge_budget_spec(vocab_size: int, num_special_tokens: int) -> nat {
    let b = vocab_size - BASE_ALPHABET - num_special_tokens;
    if b > 0 {
        b as nat
    } else {
        0
    }
}

} // verus!

verus! {

/// Counting up to `n` never finds more than `n` positions, nor fewer than up to `m <= n`.
pub proof fn lemma_occ_upto_bounds(w: WordModel, p: BytePair, m: int, n: int)
    requires
        0 <= m <= n,
    ensures
        occ_upto(w, p, m) <= occ_upto(w, p, n) <= n,
    decreases n,
{
    if n > 0 {
        if m < n {
            lemma_occ_upto_bounds(w, p, m, n - 1);
        } else {
            lemma_occ_upto_bounds(w, p, 0, n - 1);
        }
    }
}

/// A word of `l` tokens with count `c` adds at most `l * c` to a frequency.
pub proof fn lemma_term_le(w: WordModel, p: BytePair, c: nat)
    ensures
        0 <= occurrences(w, p) * c <= w.len() * c,
{
    if w.len() >= 1 {
        lemma_occ_upto_bounds(w, p, 0, w.len() - 1);
    }
    let o = occurrences(w, p);
    let l = w.len();
    assert(o <= l);
    assert(0 <= o * c <= l * c) by (nonlinear_arith)
        requires
            o <= l,
    ;
}

proof fn lemma_freq_upto_update(ws: WordsModel, k: int, e: (WordModel, nat), p: BytePair, n: int)
    requires
        0 <= k < ws.len(),
        0 <= n <= ws.len(),
    ensures
        freq_upto(ws.update(k, e), p, n) == freq_upto(ws, p, n) + if k < n {
            occurrences(e.0, p) * e.1 - occurrences(ws[k].0, p) * ws[k].1
        } else {
            0
        },
    decreases n,
{
    if n > 0 {
        lemma_freq_upto_update(ws, k, e, p, n - 1);
    }
}

/// Replacing one entry changes a frequency by the difference of the two entries' terms.
pub proof fn lemma_freq_update(ws: WordsModel, k: int, e: (WordModel, nat), p: BytePair)
    requires
        0 <= k < ws.len(),
    ensures
        frequency(ws.update(k, e), p) == frequency(ws, p) - occurrences(ws[k].0, p) * ws[k].1
            + occurrences(e.0, p) * e.1,
{
    lemma_freq_upto_update(ws, k, e, p, ws.len() as int);
}

proof fn lemma_weight_upto_update(ws: WordsModel, k: int, e: (WordModel, nat), n: int)
    requires
        0 <= k < ws.len(),
        0 <= n <= ws.len(),
    ensures
        weight_upto(ws.update(k, e), n) == weight_upto(ws, n) + if k < n {
            e.0.len() * e.1 - ws[k].0.len() * ws[k].1
        } else {
            0
        },
    decreases n,
{
    if n > 0 {
        lemma_weight_upto_update(ws, k, e, n - 1);
    }
}

/// Replacing one entry changes the weight by the difference of the two entries' terms.
pub proof fn lemma_weight_update(ws: WordsModel, k: int, e: (WordModel, nat))
    requires
        0 <= k < ws.len(),
    ensures
        weight(ws.update(k, e)) == weight(ws) - ws[k].0.len() * ws[k].1 + e.0.len() * e.1,
{
    lemma_weight_upto_update(ws, k, e, ws.len() as int);
}

/// Bounds on a prefix frequency: the prefix weight above, any one term of the prefix below.
pub proof fn lemma_freq_upto_bounds(ws: WordsModel, p: BytePair, k: int, n: int)
    requires
        0 <= n <= ws.len(),
    ensures
        0 <= freq_upto(ws, p, n) <= weight_upto(ws, n),
        0 <= k < n ==> occurrences(ws[k].0, p) * ws[k].1 <= freq_upto(ws, p, n),
    decreases n,
{
    if n > 0 {
        lemma_freq_upto_bounds(ws, p, k, n - 1);
        lemma_term_le(ws[n - 1].0, p, ws[n - 1].1);
    }
}

/// A frequency is at least the term of any one entry and at most the weight.
pub proof fn lemma_freq_bounds(ws: WordsModel, p: BytePair, k: int)
    ensures
        0 <= frequency(ws, p) <= weight(ws),
        0 <= k < ws.len() ==> occurrences(ws[k].0, p) * ws[k].1 <= frequency(ws, p),
{
    lemma_freq_upto_bounds(ws, p, k, ws.len() as int);
}

/// Rewriting never lengthens a word.
pub proof fn lemma_merge_from_len(w: WordModel, p: BytePair, i: int)
    requires
        0 <= i,
    ensures
        merge_from(w, p, i).len() <= if i <= w.len() {
            w.len() - i
        } else {
            0
        },
    decreases w.len() - i,
{
    if i < w.len() {
        if pair_at(w, i, p) {
            lemma_merge_from_len(w, p, i + 2);
        } else {
            lemma_merge_from_len(w, p, i + 1);
        }
    }
}

} // verus!

verus! {

/// Weights of prefixes grow with the prefix, and each term is non-negative.
pub proof fn lemma_weight_upto_mono(ws: WordsModel, m: int, n: int)
    requires
        0 <= m <= n <= ws.len(),
    ensures
        0 <= weight_upto(ws, m) <= weight_upto(ws, n),
    decreases n,
{
    if n > 0 {
        if m < n {
            lemma_weight_upto_mono(ws, m, n - 1);
        } else {
            lemma_weight_upto_mono(ws, 0, n - 1);
        }
        let l = ws[n - 1].0.len();
        let c = ws[n - 1].1;
        assert(0 <= l * c) by (nonlinear_arith);
    }
}

/// Counting a prefix of the positions, times a count, gives no more than counting them all.
pub proof fn lemma_occ_upto_scaled(w: WordModel, p: BytePair, i: int, c: nat)
    requires
        0 <= i,
        i <= w.len() - 1 || i == 0,
    ensures
        0 <= occ_upto(w, p, i) * c <= occurrences(w, p) * c,
        occ_upto(w, p, i + 1) * c == occ_upto(w, p, i) * c + if pair_at(w, i, p) {
            c as int
        } else {
            0
        },
{
    if w.len() >= 1 {
        lemma_occ_upto_bounds(w, p, i, w.len() - 1);
    }
    let x = occ_upto(w, p, i);
    let y = occurrences(w, p);
    assert(x <= y);
    assert(0 <= x * c <= y * c) by (nonlinear_arith)
        requires
            x <= y,
    ;
    assert((x + 1) * c == x * c + c) by (nonlinear_arith);
}

/// Weighted by a count, a rewritten word weighs no more than the original.
pub proof fn lemma_merge_word_weight(w: WordModel, p: BytePair, c: nat)
    ensures
        merge_word(w, p).len() * c <= w.len() * c,
{
    lemma_merge_from_len(w, p, 0);
    let x = merge_word(w, p).len();
    let y = w.len();
    assert(x * c <= y * c) by (nonlinear_arith)
        requires
            x <= y,
    ;
}

} // verus!
