//! The pair frequency table: distinct pairs, each with a positive frequency.
use vstd::prelude::*;

use crate::model::BytePair;
use crate::order::bytes_equal;

verus! {

/// The pair stored at index `i`.
pub open spec fn key_at(keys: Seq<(Vec<u8>, Vec<u8>)>, i: int) -> BytePair {
    (keys[i].0@, keys[i].1@)
}

/// The table holds exactly the pairs on which `f` is positive, once each,
/// with `f`'s value as their frequency.
pub open spec fn table_ok(
    keys: Seq<(Vec<u8>, Vec<u8>)>,
    freqs: Seq<usize>,
    f: spec_fn(BytePair) -> int,
) -> bool {
    &&& keys.len() == freqs.len()
    &&& forall|i: int, j: int|
        0 <= i < keys.len() && 0 <= j < keys.len() && i != j ==> key_at(keys, i) != key_at(
            keys,
            j,
        )
    &&& forall|i: int|
        0 <= i < keys.len() ==> #[trigger] freqs[i] > 0 && freqs[i] as int == f(key_at(keys, i))
    &&& forall|p: BytePair| #[trigger] f(p) > 0 ==> exists|i: int| 0 <= i < keys.len() && key_at(keys, i) == p
}

/// `f` and `g` agree on every pair.
pub open spec fn same_values(f: spec_fn(BytePair) -> int, g: spec_fn(BytePair) -> int) -> bool {
    forall|p: BytePair| #[trigger] f(p) == g(p)
}

/// A table that holds `f` holds every function equal to `f` at each pair.
pub proof fn lemma_table_ok_same(
    keys: Seq<(Vec<u8>, Vec<u8>)>,
    freqs: Seq<usize>,
    f: spec_fn(BytePair) -> int,
    g: spec_fn(BytePair) -> int,
)
    requires
        table_ok(keys, freqs, f),
        same_values(f, g),
    ensures
        table_ok(keys, freqs, g),
{
    assert forall|p: BytePair| #[trigger] g(p) > 0 implies exists|i: int|
        0 <= i < keys.len() && key_at(keys, i) == p by {
        assert(f(p) == g(p));
        assert(f(p) > 0);
    }
    assert forall|i: int| 0 <= i < keys.len() implies freqs[i] > 0 && freqs[i] as int == g(
        key_at(keys, i),
    ) by {
        assert(f(key_at(keys, i)) == g(key_at(keys, i)));
    }
}

/// `f` with `d` added at the pair `k`.
pub open spec fn shifted(f: spec_fn(BytePair) -> int, k: BytePair, d: int) -> spec_fn(BytePair) -> int {
    |p: BytePair|
        if p == k {
            f(p) + d
        } else {
            f(p)
        }
}

/// Copies a byte string.
pub fn copy_bytes(b: &Vec<u8>) -> (r: Vec<u8>)
    ensures
        r@ == b@,
{
    let r = b.clone();
    assert(r@ =~= b@);
    r
}

/// Index of the pair `(a, b)` in the table, if it is there.
pub fn find_pair(keys: &Vec<(Vec<u8>, Vec<u8>)>, a: &Vec<u8>, b: &Vec<u8>) -> (r: Option<usize>)
    ensures
        match r {
            Some(i) => i < keys@.len() && key_at(keys@, i as int) == (a@, b@),
            None => forall|i: int| 0 <= i < keys@.len() ==> key_at(keys@, i) != (a@, b@),
        },
{
    let mut i: usize = 0;
    while i < keys.len()
        invariant
            i <= keys@.len(),
            forall|j: int| 0 <= j < i ==> key_at(keys@, j) != (a@, b@),
        decreases keys.len() - i,
    {
        if bytes_equal(&keys[i].0, a) && bytes_equal(&keys[i].1, b) {
            return Some(i);
        }
        i = i + 1;
    }
    None
}

/// Adds `c` to the frequency of `(a, b)`, entering the pair if it is new.
pub(crate) fn table_add(
    keys: &mut Vec<(Vec<u8>, Vec<u8>)>,
    freqs: &mut Vec<usize>,
    a: &Vec<u8>,
    b: &Vec<u8>,
    c: usize,
    Ghost(f): Ghost<spec_fn(BytePair) -> int>,
)
    requires
        table_ok(old(keys)@, old(freqs)@, f),
        f((a@, b@)) >= 0,
        f((a@, b@)) + c <= usize::MAX,
    ensures
        table_ok(final(keys)@, final(freqs)@, shifted(f, (a@, b@), c as int)),
{
    let ghost g = shifted(f, (a@, b@), c as int);
    if c == 0 {
        proof {
            lemma_table_ok_same(keys@, freqs@, f, g);
        }
        return;
    }
    match find_pair(keys, a, b) {
        Some(i) => {
            let ghost old_freqs = freqs@;
            let v = freqs[i];
            freqs.set(i, v + c);
            assert forall|j: int| 0 <= j < keys@.len() implies freqs@[j] > 0 && freqs@[j] as int
                == g(key_at(keys@, j)) by {
                assert(old_freqs[j] > 0);
                if j != i {
                    assert(key_at(keys@, j) != key_at(keys@, i as int));
                }
            }
            assert forall|p: BytePair| #[trigger] g(p) > 0 implies exists|j: int|
                0 <= j < keys@.len() && key_at(keys@, j) == p by {
                if p == (a@, b@) {
                    assert(key_at(keys@, i as int) == p);
                } else {
                    assert(f(p) > 0);
                }
            }
        },
        None => {
            let ghost old_keys = keys@;
            let ghost old_freqs = freqs@;
            keys.push((copy_bytes(a), copy_bytes(b)));
            freqs.push(c);
            assert(key_at(keys@, keys@.len() - 1) == (a@, b@));
            assert forall|j: int| 0 <= j < old_keys.len() implies key_at(keys@, j) == key_at(
                old_keys,
                j,
            ) by {}
            assert forall|x: int, y: int|
                0 <= x < keys@.len() && 0 <= y < keys@.len() && x != y implies key_at(keys@, x)
                != key_at(keys@, y) by {
                if x < old_keys.len() && y < old_keys.len() {
                    assert(key_at(old_keys, x) != key_at(old_keys, y));
                } else if x < old_keys.len() {
                    assert(key_at(old_keys, x) != (a@, b@));
                } else {
                    assert(key_at(old_keys, y) != (a@, b@));
                }
            }
            assert forall|j: int| 0 <= j < keys@.len() implies freqs@[j] > 0 && freqs@[j] as int
                == g(key_at(keys@, j)) by {
                if j < old_keys.len() {
                    assert(key_at(keys@, j) == key_at(old_keys, j));
                    assert(old_freqs[j] > 0);
                }
            }
            assert forall|p: BytePair| #[trigger] g(p) > 0 implies exists|j: int|
                0 <= j < keys@.len() && key_at(keys@, j) == p by {
                if p == (a@, b@) {
                    assert(key_at(keys@, keys@.len() - 1) == p);
                } else {
                    assert(f(p) > 0);
                    let j = choose|j: int| 0 <= j < old_keys.len() && key_at(old_keys, j) == p;
                    assert(key_at(keys@, j) == p);
                }
            }
        },
    }
}

/// Subtracts `c` from the frequency of `(a, b)`, dropping the pair when it reaches zero.
pub(crate) fn table_sub(
    keys: &mut Vec<(Vec<u8>, Vec<u8>)>,
    freqs: &mut Vec<usize>,
    a: &Vec<u8>,
    b: &Vec<u8>,
    c: usize,
    Ghost(f): Ghost<spec_fn(BytePair) -> int>,
)
    requires
        table_ok(old(keys)@, old(freqs)@, f),
        f((a@, b@)) >= c,
    ensures
        table_ok(final(keys)@, final(freqs)@, shifted(f, (a@, b@), -c as int)),
{
    let ghost g = shifted(f, (a@, b@), -c as int);
    if c == 0 {
        proof {
            lemma_table_ok_same(keys@, freqs@, f, g);
        }
        return;
    }
    match find_pair(keys, a, b) {
        Some(i) => {
            let v = freqs[i];
            if v == c {
                let ghost old_keys = keys@;
                let ghost old_freqs = freqs@;
                keys.remove(i);
                freqs.remove(i);
                assert forall|j: int| 0 <= j < keys@.len() implies key_at(keys@, j) == key_at(
                    old_keys,
                    if j < i {
                        j
                    } else {
                        j + 1
                    },
                ) by {}
                assert forall|j: int| 0 <= j < keys@.len() implies freqs@[j] > 0 && freqs@[j] as int
                    == g(key_at(keys@, j)) by {
                    let k = if j < i {
                        j
                    } else {
                        j + 1
                    };
                    assert(key_at(keys@, j) == key_at(old_keys, k));
                    assert(old_freqs[k] > 0);
                    assert(freqs@[j] == old_freqs[k]);
                    assert(key_at(old_keys, k) != key_at(old_keys, i as int));
                }
                assert forall|p: BytePair| #[trigger] g(p) > 0 implies exists|j: int|
                    0 <= j < keys@.len() && key_at(keys@, j) == p by {
                    assert(p != (a@, b@));
                    assert(f(p) > 0);
                    let k = choose|k: int| 0 <= k < old_keys.len() && key_at(old_keys, k) == p;
                    if k < i {
                        assert(key_at(keys@, k) == p);
                    } else {
                        assert(key_at(keys@, k - 1) == p);
                    }
                }
            } else {
                let ghost old_freqs = freqs@;
                freqs.set(i, v - c);
                assert forall|j: int| 0 <= j < keys@.len() implies freqs@[j] > 0 && freqs@[j] as int
                    == g(key_at(keys@, j)) by {
                    assert(old_freqs[j] > 0);
                    if j != i {
                        assert(key_at(keys@, j) != key_at(keys@, i as int));
                    }
                }
                assert forall|p: BytePair| #[trigger] g(p) > 0 implies exists|j: int|
                    0 <= j < keys@.len() && key_at(keys@, j) == p by {
                    if p == (a@, b@) {
                        assert(key_at(keys@, i as int) == p);
                    } else {
                        assert(f(p) > 0);
                    }
                }
            }
        },
        None => {
            assert(f((a@, b@)) > 0);
        },
    }
}

} // verus!
