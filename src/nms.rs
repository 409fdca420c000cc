use vstd::prelude::*;
use crate::ranking::{argsort_desc, ranked_order};

verus! {

/// `sup` is an `n` by `n` table: `sup[a][b]` says that a kept candidate `a`
/// removes candidate `b` (their overlap exceeds the threshold).
pub open spec fn is_square(sup: Seq<Seq<bool>>, n: int) -> bool {
    &&& sup.len() == n
    &&& forall|a: int| 0 <= a < n ==> (#[trigger] sup[a]).len() == n
}

/// Some candidate of `kept` removes candidate `j`.
pub open spec fn suppressed_by(kept: Seq<usize>, j: usize, sup: Seq<Seq<bool>>) -> bool {
    exists|k: int| 0 <= k < kept.len() && sup[kept[k] as int][j as int]
}

/// Greedy selection from position `p` of `order` on, with `kept` chosen so
/// far: each candidate in turn is kept unless a kept one removes it.
pub open spec fn greedy_from(order: Seq<usize>, sup: Seq<Seq<bool>>, p: int, kept: Seq<usize>) -> Seq<usize>
    decreases order.len() - p,
{
    if p >= order.len() || p < 0 {
        kept
    } else if suppressed_by(kept, order[p], sup) {
        greedy_from(order, sup, p + 1, kept)
    } else {
        greedy_from(order, sup, p + 1, kept.push(order[p]))
    }
}

/// The candidates that greedy suppression keeps when it visits them in
/// `order`, in the order they were kept.
pub open spec fn greedy(order: Seq<usize>, sup: Seq<Seq<bool>>) -> Seq<usize> {
    greedy_from(order, sup, 0, Seq::empty())
}

/// No candidate of `s` is removed by one that stands before it.
pub open spec fn pairwise_free(s: Seq<usize>, sup: Seq<Seq<bool>>) -> bool {
    forall|i: int, j: int| 0 <= i < j < s.len() ==> !sup[#[trigger] s[i] as int][#[trigger] s[j] as int]
}

/// Greedy suppression over the candidates in `order`: the indices kept, in
/// the order they were kept.
pub fn nms_ordered(order: &Vec<usize>, sup: &Vec<Vec<bool>>) -> (r: Vec<usize>)
    requires
        is_square(sup.deep_view(), sup@.len() as int),
        order@.no_duplicates(),
        forall|i: int| 0 <= i < order@.len() ==> #[trigger] order@[i] < sup@.len(),
    ensures
        r@ == greedy(order@, sup.deep_view()),
        r@.no_duplicates(),
        forall|i: int| 0 <= i < r@.len() ==> #[trigger] r@[i] < sup@.len(),
{
    let ghost table = sup.deep_view();
    let mut kept: Vec<usize> = Vec::new();
    let mut p: usize = 0;
    while p < order.len()
        invariant
            table == sup.deep_view(),
            is_square(table, sup@.len() as int),
            order@.no_duplicates(),
            forall|i: int| 0 <= i < order@.len() ==> #[trigger] order@[i] < sup@.len(),
            p <= order@.len(),
            greedy_from(order@, table, p as int, kept@) == greedy(order@, table),
            kept@.no_duplicates(),
            forall|k: int| 0 <= k < kept@.len() ==> exists|q: int| 0 <= q < p && order@[q] == #[trigger] kept@[k],
        decreases order@.len() - p,
    {
        let j = order[p];
        let mut found = false;
        let mut q: usize = 0;
        while q < kept.len()
            invariant
                table == sup.deep_view(),
                is_square(table, sup@.len() as int),
                p < order@.len(),
                j == order@[p as int],
                j < sup@.len(),
                q <= kept@.len(),
                forall|k: int| 0 <= k < kept@.len() ==> #[trigger] kept@[k] < sup@.len(),
                found == exists|k: int| 0 <= k < q && table[kept@[k] as int][j as int],
            decreases kept@.len() - q,
        {
            let row = &sup[kept[q]];
            assert(row@ == table[kept@[q as int] as int]);
            if row[j] {
                found = true;
            }
            q = q + 1;
        }
        assert(found == suppressed_by(kept@, j, table));
        if !found {
            let ghost before = kept@;
            kept.push(j);
            proof {
                assert forall|k: int| 0 <= k < kept@.len() implies exists|q: int| 0 <= q < p + 1 && order@[q] == #[trigger] kept@[k] by {
                    if k < before.len() {
                        assert(kept@[k] == before[k]);
                    } else {
                        assert(order@[p as int] == kept@[k]);
                    }
                }
                assert forall|a: int, b: int| 0 <= a < b < kept@.len() implies kept@[a] != kept@[b] by {
                    if b == before.len() {
                        assert(kept@[a] == before[a]);
                        let qa = choose|q: int| 0 <= q < p && order@[q] == before[a];
                        assert(order@[qa] != order@[p as int]);
                    }
                }
            }
        }
        p = p + 1;
    }
    proof {
        assert forall|k: int| 0 <= k < kept@.len() implies #[trigger] kept@[k] < sup@.len() by {
            let q = choose|q: int| 0 <= q < p && order@[q] == kept@[k];
            assert(order@[q] < sup@.len());
        }
    }
    kept
}

/// Greedy suppression over the candidates ranked by score key, highest first:
/// the indices kept, in the order they were kept.
pub fn nms(keys: &Vec<u32>, sup: &Vec<Vec<bool>>) -> (r: Vec<usize>)
    requires
        is_square(sup.deep_view(), keys@.len() as int),
    ensures
        r@ == greedy(ranked_order(keys@), sup.deep_view()),
        r@.no_duplicates(),
        forall|i: int| 0 <= i < r@.len() ==> #[trigger] r@[i] < keys@.len(),
{
    let order = argsort_desc(keys);
    nms_ordered(&order, sup)
}

proof fn lemma_greedy_from_free(order: Seq<usize>, sup: Seq<Seq<bool>>, p: int, kept: Seq<usize>)
    requires
        pairwise_free(kept, sup),
    ensures
        pairwise_free(greedy_from(order, sup, p, kept), sup),
    decreases order.len() - p,
{
    if !(p >= order.len() || p < 0) {
        if suppressed_by(kept, order[p], sup) {
            lemma_greedy_from_free(order, sup, p + 1, kept);
        } else {
            let next = kept.push(order[p]);
            assert forall|i: int, j: int| 0 <= i < j < next.len() implies !sup[#[trigger] next[i] as int][#[trigger] next[j] as int] by {
                assert(next[i] == kept[i]);
                if j < kept.len() {
                    assert(next[j] == kept[j]);
                } else {
                    assert(!sup[kept[i] as int][order[p] as int]);
                }
            }
            lemma_greedy_from_free(order, sup, p + 1, next);
        }
    }
}

/// No candidate kept by greedy suppression is removed by one kept before it.
pub proof fn lemma_greedy_pairwise_free(order: Seq<usize>, sup: Seq<Seq<bool>>)
    ensures
        pairwise_free(greedy(order, sup), sup),
{
    lemma_greedy_from_free(order, sup, 0, Seq::empty());
}

proof fn lemma_greedy_from_keeps_free(order: Seq<usize>, sup: Seq<Seq<bool>>, p: int)
    requires
        pairwise_free(order, sup),
        0 <= p <= order.len(),
    ensures
        greedy_from(order, sup, p, order.subrange(0, p)) == order,
    decreases order.len() - p,
{
    if p == order.len() {
        assert(order.subrange(0, p) =~= order);
    } else {
        let kept = order.subrange(0, p);
        if suppressed_by(kept, order[p], sup) {
            let k = choose|k: int| 0 <= k < kept.len() && sup[kept[k] as int][order[p] as int];
            assert(kept[k] == order[k]);
        }
        assert(kept.push(order[p]) =~= order.subrange(0, p + 1));
        lemma_greedy_from_keeps_free(order, sup, p + 1);
    }
}

/// Greedy suppression keeps every candidate of a list in which none is
/// removed by one that stands before it.
pub proof fn lemma_greedy_keeps_free_list(order: Seq<usize>, sup: Seq<Seq<bool>>)
    requires
        pairwise_free(order, sup),
    ensures
        greedy(order, sup) == order,
{
    assert(order.subrange(0, 0) =~= Seq::<usize>::empty());
    lemma_greedy_from_keeps_free(order, sup, 0);
}

/// Running greedy suppression again on what it kept returns the same list.
pub proof fn lemma_nms_idempotent(order: Seq<usize>, sup: Seq<Seq<bool>>)
    ensures
        greedy(greedy(order, sup), sup) == greedy(order, sup),
{
    lemma_greedy_pairwise_free(order, sup);
    lemma_greedy_keeps_free_list(greedy(order, sup), sup);
}

} // verus!
