use vstd::prelude::*;
use vstd::set_lib::{lemma_int_range, lemma_subset_equality, set_int_range};

verus! {

/// Sign bit of an IEEE 754 single-precision bit pattern.
pub const SIGN_BIT: u32 = 0x8000_0000;

/// Bit pattern of positive infinity; a larger magnitude is a NaN.
pub const INFINITY_BITS: u32 = 0x7f80_0000;

/// The order key of a score given by its IEEE 754 single-precision bits.
/// Negative values have their bits inverted, the others get the sign bit
/// set, and negative zero is read as zero, so that for any two scores that
/// are not NaN the keys compare as the scores do. A NaN gets key 0, below
/// the key of every number, negative infinity included.
pub open spec fn order_key(bits: u32) -> u32 {
    if bits % SIGN_BIT > INFINITY_BITS {
        0
    } else if bits % SIGN_BIT == 0 {
        SIGN_BIT
    } else if bits >= SIGN_BIT {
        (u32::MAX - bits) as u32
    } else {
        (bits + SIGN_BIT) as u32
    }
}

/// The order key of a score's bits.
pub fn score_key(bits: u32) -> (r: u32)
    ensures
        r == order_key(bits),
{
    if bits % SIGN_BIT > INFINITY_BITS {
        0
    } else if bits % SIGN_BIT == 0 {
        SIGN_BIT
    } else if bits >= SIGN_BIT {
        u32::MAX - bits
    } else {
        bits + SIGN_BIT
    }
}

/// Candidate `a` comes before candidate `b`: its key is higher, or the keys
/// are equal and `a` came first.
pub open spec fn ranks_before(keys: Seq<u32>, a: int, b: int) -> bool {
    keys[a] > keys[b] || (keys[a] == keys[b] && a < b)
}

/// `order` lists each index of `keys` exactly once.
pub open spec fn is_permutation_of_indices(order: Seq<usize>, n: int) -> bool {
    &&& order.len() == n
    &&& order.no_duplicates()
    &&& forall|i: int| 0 <= i < order.len() ==> #[trigger] order[i] < n
}

/// `order` runs from the highest key down, equal keys by index.
pub open spec fn is_ranked(order: Seq<usize>, keys: Seq<u32>) -> bool {
    forall|i: int, j: int|
        0 <= i < j < order.len() ==> ranks_before(keys, #[trigger] order[i] as int, #[trigger] order[j] as int)
}

/// The ranking of `keys`: the one permutation of their indices that runs
/// from the highest key down, equal keys by index.
pub open spec fn ranked_order(keys: Seq<u32>) -> Seq<usize> {
    choose|o: Seq<usize>| is_permutation_of_indices(o, keys.len() as int) && is_ranked(o, keys)
}

proof fn lemma_permutation_contains(o: Seq<usize>, n: int, v: usize)
    requires
        is_permutation_of_indices(o, n),
        v < n,
    ensures
        exists|i: int| 0 <= i < o.len() && o[i] == v,
{
    let oi = o.map_values(|x: usize| x as int);
    assert(oi.no_duplicates()) by {
        assert forall|i: int, j: int| 0 <= i < oi.len() && 0 <= j < oi.len() && i != j implies oi[i] != oi[j] by {
            assert(o[i] != o[j]);
        }
    }
    oi.unique_seq_to_set();
    lemma_int_range(0, n);
    assert(oi.to_set().subset_of(set_int_range(0, n))) by {
        assert forall|x: int| oi.to_set().contains(x) implies set_int_range(0, n).contains(x) by {
            let i = choose|i: int| 0 <= i < oi.len() && oi[i] == x;
            assert(o[i] < n);
        }
    }
    lemma_subset_equality(oi.to_set(), set_int_range(0, n));
    assert(set_int_range(0, n).contains(v as int));
    let i = choose|i: int| 0 <= i < oi.len() && oi[i] == v as int;
    assert(o[i] == v);
}

proof fn lemma_ranked_prefix(o1: Seq<usize>, o2: Seq<usize>, keys: Seq<u32>, p: int)
    requires
        is_permutation_of_indices(o1, keys.len() as int),
        is_permutation_of_indices(o2, keys.len() as int),
        is_ranked(o1, keys),
        is_ranked(o2, keys),
        0 <= p <= keys.len(),
    ensures
        forall|k: int| 0 <= k < p ==> o1[k] == o2[k],
    decreases p,
{
    if p > 0 {
        let i = p - 1;
        lemma_ranked_prefix(o1, o2, keys, i);
        let x = o1[i];
        let y = o2[i];
        if x != y {
            lemma_permutation_contains(o1, keys.len() as int, y);
            lemma_permutation_contains(o2, keys.len() as int, x);
            let k = choose|k: int| 0 <= k < o1.len() && o1[k] == y;
            let j = choose|j: int| 0 <= j < o2.len() && o2[j] == x;
            if k < i {
                assert(o2[k] == y);
            }
            if j < i {
                assert(o1[j] == x);
            }
            assert(ranks_before(keys, x as int, y as int));
            assert(ranks_before(keys, y as int, x as int));
        }
    }
}

/// There is exactly one ranking of a list of keys.
pub proof fn lemma_ranking_unique(o: Seq<usize>, keys: Seq<u32>)
    requires
        is_permutation_of_indices(o, keys.len() as int),
        is_ranked(o, keys),
    ensures
        o == ranked_order(keys),
{
    let c = ranked_order(keys);
    assert(is_permutation_of_indices(c, keys.len() as int) && is_ranked(c, keys));
    lemma_ranked_prefix(o, c, keys, keys.len() as int);
    assert(o =~= c);
}

/// The indices of `keys` from the highest key down; equal keys keep their
/// index order.
pub fn argsort_desc(keys: &Vec<u32>) -> (r: Vec<usize>)
    ensures
        is_permutation_of_indices(r@, keys@.len() as int),
        is_ranked(r@, keys@),
        r@ == ranked_order(keys@),
{
    let mut out: Vec<usize> = Vec::new();
    let mut idx: usize = 0;
    while idx < keys.len()
        invariant
            idx <= keys@.len(),
            is_permutation_of_indices(out@, idx as int),
            is_ranked(out@, keys@),
        decreases keys@.len() - idx,
    {
        let k = keys[idx];
        let mut p: usize = 0;
        while p < out.len() && keys[out[p]] >= k
            invariant
                idx < keys@.len(),
                p <= out@.len(),
                is_permutation_of_indices(out@, idx as int),
                forall|q: int| 0 <= q < p ==> keys@[#[trigger] out@[q] as int] >= k,
            decreases out@.len() - p,
        {
            p = p + 1;
        }
        let ghost before = out@;
        proof {
            before.insert_ensures(p as int, idx);
            assert forall|q: int| p <= q < before.len() implies keys@[#[trigger] before[q] as int] < k by {
                if keys@[before[q] as int] >= k {
                    assert(ranks_before(keys@, before[p as int] as int, before[q] as int) || q == p);
                }
            }
        }
        out.insert(p, idx);
        proof {
            let s = out@;
            assert(s == before.insert(p as int, idx));
            assert forall|i: int| 0 <= i < s.len() implies #[trigger] s[i] < idx + 1 by {
                if i < p {
                    assert(s[i] == before[i]);
                } else if i > p {
                    assert(s[i] == before[i - 1]);
                }
            }
            assert forall|i: int, j: int| 0 <= i < j < s.len() implies s[i] != s[j] by {
                if i < p && j < p {
                    assert(s[i] == before[i] && s[j] == before[j]);
                } else if i < p && j == p {
                    assert(s[i] == before[i]);
                } else if i < p && j > p {
                    assert(s[i] == before[i] && s[j] == before[j - 1]);
                } else if i == p {
                    assert(s[j] == before[j - 1]);
                } else {
                    assert(s[i] == before[i - 1] && s[j] == before[j - 1]);
                }
            }
            assert forall|i: int, j: int| 0 <= i < j < s.len() implies ranks_before(
                keys@,
                #[trigger] s[i] as int,
                #[trigger] s[j] as int,
            ) by {
                if i < p && j < p {
                    assert(s[i] == before[i] && s[j] == before[j]);
                } else if i < p && j == p {
                    assert(s[i] == before[i]);
                } else if i < p && j > p {
                    assert(s[i] == before[i] && s[j] == before[j - 1]);
                } else if i == p {
                    assert(s[j] == before[j - 1]);
                } else {
                    assert(s[i] == before[i - 1] && s[j] == before[j - 1]);
                }
            }
        }
        idx = idx + 1;
    }
    proof {
        lemma_ranking_unique(out@, keys@);
    }
    out
}

} // verus!
