//! Lexicographic order on byte strings and on token pairs.
use vstd::prelude::*;

use crate::model::BytePair;

verus! {

/// `x` is below `y` in the comparison that starts at position `i`.
pub open spec fn bytes_lt_from(x: Seq<u8>, y: Seq<u8>, i: int) -> bool
    decreases x.len() - i,
{
    if i >= x.len() {
        i < y.len()
    } else if i >= y.len() {
        false
    } else if x[i] != y[i] {
        x[i] < y[i]
    } else {
        bytes_lt_from(x, y, i + 1)
    }
}

/// Lexicographic order over byte values; a proper prefix is smaller.
pub open spec fn bytes_lt(x: Seq<u8>, y: Seq<u8>) -> bool {
    bytes_lt_from(x, y, 0)
}

/// Pairs compare by first token, then by second token.
pub open spec fn pair_lt(p: BytePair, q: BytePair) -> bool {
    bytes_lt(p.0, q.0) || (p.0 == q.0 && bytes_lt(p.1, q.1))
}

proof fn lemma_bytes_lt_from_irreflexive(x: Seq<u8>, y: Seq<u8>, i: int)
    requires
        0 <= i,
    ensures
        !(bytes_lt_from(x, y, i) && bytes_lt_from(y, x, i)),
    decreases x.len() - i,
{
    if i < x.len() && i < y.len() && x[i] == y[i] {
        lemma_bytes_lt_from_irreflexive(x, y, i + 1);
    }
}

proof fn lemma_bytes_lt_from_total(x: Seq<u8>, y: Seq<u8>, i: int)
    requires
        0 <= i <= x.len(),
        i <= y.len(),
        forall|j: int| 0 <= j < i ==> x[j] == y[j],
        x != y,
    ensures
        bytes_lt_from(x, y, i) || bytes_lt_from(y, x, i),
    decreases x.len() - i,
{
    if i == x.len() && i == y.len() {
        assert(x =~= y);
    } else if i < x.len() && i < y.len() && x[i] == y[i] {
        lemma_bytes_lt_from_total(x, y, i + 1);
    }
}

proof fn lemma_bytes_lt_from_transitive(x: Seq<u8>, y: Seq<u8>, z: Seq<u8>, i: int)
    requires
        0 <= i,
        bytes_lt_from(x, y, i),
        bytes_lt_from(y, z, i),
    ensures
        bytes_lt_from(x, z, i),
    decreases x.len() - i,
{
    if i < x.len() && i < y.len() && i < z.len() && x[i] == y[i] && y[i] == z[i] {
        lemma_bytes_lt_from_transitive(x, y, z, i + 1);
    }
}

/// The order on byte strings is a strict total order.
pub proof fn lemma_bytes_lt_strict_total(x: Seq<u8>, y: Seq<u8>, z: Seq<u8>)
    ensures
        !bytes_lt(x, x),
        !(bytes_lt(x, y) && bytes_lt(y, x)),
        x != y ==> bytes_lt(x, y) || bytes_lt(y, x),
        bytes_lt(x, y) && bytes_lt(y, z) ==> bytes_lt(x, z),
{
    lemma_bytes_lt_from_irreflexive(x, x, 0);
    lemma_bytes_lt_from_irreflexive(x, y, 0);
    if x != y {
        lemma_bytes_lt_from_total(x, y, 0);
    }
    if bytes_lt(x, y) && bytes_lt(y, z) {
        lemma_bytes_lt_from_transitive(x, y, z, 0);
    }
}

/// The order on pairs is a strict total order.
pub proof fn lemma_pair_lt_strict_total(p: BytePair, q: BytePair, s: BytePair)
    ensures
        !pair_lt(p, p),
        !(pair_lt(p, q) && pair_lt(q, p)),
        p != q ==> pair_lt(p, q) || pair_lt(q, p),
        pair_lt(p, q) && pair_lt(q, s) ==> pair_lt(p, s),
{
    lemma_bytes_lt_strict_total(p.0, q.0, s.0);
    lemma_bytes_lt_strict_total(p.1, q.1, s.1);
    lemma_bytes_lt_strict_total(q.0, p.0, s.0);
    lemma_bytes_lt_strict_total(p.0, p.0, p.0);
    lemma_bytes_lt_strict_total(p.1, p.1, p.1);
}

/// Compares two byte strings lexicographically.
pub fn bytes_less(x: &Vec<u8>, y: &Vec<u8>) -> (r: bool)
    ensures
        r == bytes_lt(x@, y@),
{
    let mut i: usize = 0;
    while i < x.len() && i < y.len()
        invariant
            i <= x.len(),
            i <= y.len(),
            bytes_lt_from(x@, y@, i as int) == bytes_lt(x@, y@),
        decreases x.len() - i,
    {
        if x[i] != y[i] {
            return x[i] < y[i];
        }
        i = i + 1;
    }
    i < y.len()
}

/// Whether two byte strings are equal.
pub fn bytes_equal(x: &Vec<u8>, y: &Vec<u8>) -> (r: bool)
    ensures
        r == (x@ == y@),
{
    if x.len() != y.len() {
        return false;
    }
    let mut i: usize = 0;
    while i < x.len()
        invariant
            i <= x.len(),
            x.len() == y.len(),
            forall|j: int| 0 <= j < i ==> x@[j] == y@[j],
        decreases x.len() - i,
    {
        if x[i] != y[i] {
            return false;
        }
        i = i + 1;
    }
    assert(x@ =~= y@);
    true
}

/// Compares two token pairs: first tokens, then second tokens.
pub fn pair_less(p0: &Vec<u8>, p1: &Vec<u8>, q0: &Vec<u8>, q1: &Vec<u8>) -> (r: bool)
    ensures
        r == pair_lt((p0@, p1@), (q0@, q1@)),
{
    if bytes_less(p0, q0) {
        true
    } else if bytes_equal(p0, q0) {
        bytes_less(p1, q1)
    } else {
        false
    }
}

} // verus!
