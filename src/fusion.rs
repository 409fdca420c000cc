use vstd::prelude::*;

verus! {

/// The rows of one stride whose score key is at least `threshold`, in row
/// order.
pub open spec fn rows_at_or_above(keys: Seq<u32>, threshold: u32) -> Seq<usize>
    decreases keys.len(),
{
    if keys.len() == 0 {
        Seq::empty()
    } else {
        let rest = rows_at_or_above(keys.drop_last(), threshold);
        if keys.last() >= threshold {
            rest.push((keys.len() - 1) as usize)
        } else {
            rest
        }
    }
}

/// The candidates of all strides, as (stride position, row) pairs: stride by
/// stride in the order given, and within a stride in row order.
pub open spec fn candidates(keys: Seq<Seq<u32>>, threshold: u32) -> Seq<(usize, usize)>
    decreases keys.len(),
{
    if keys.len() == 0 {
        Seq::empty()
    } else {
        let s = (keys.len() - 1) as usize;
        candidates(keys.drop_last(), threshold) + rows_at_or_above(keys.last(), threshold).map_values(
            |r: usize| (s, r),
        )
    }
}

/// Picks, from the score keys of each stride, the rows whose key is at least
/// `threshold`, and concatenates them stride by stride.
pub fn select_candidates(keys: &Vec<Vec<u32>>, threshold: u32) -> (r: Vec<(usize, usize)>)
    ensures
        r@ == candidates(keys.deep_view(), threshold),
{
    let ghost dv = keys.deep_view();
    let mut out: Vec<(usize, usize)> = Vec::new();
    let mut s: usize = 0;
    while s < keys.len()
        invariant
            dv == keys.deep_view(),
            s <= dv.len(),
            out@ == candidates(dv.subrange(0, s as int), threshold),
        decreases dv.len() - s,
    {
        let row_keys = &keys[s];
        assert(row_keys@ == dv[s as int]);
        let mut r: usize = 0;
        while r < row_keys.len()
            invariant
                dv == keys.deep_view(),
                s < dv.len(),
                row_keys@ == dv[s as int],
                r <= row_keys@.len(),
                out@ == candidates(dv.subrange(0, s as int), threshold) + rows_at_or_above(
                    row_keys@.subrange(0, r as int),
                    threshold,
                ).map_values(|q: usize| (s, q)),
            decreases row_keys@.len() - r,
        {
            let ghost prefix = row_keys@.subrange(0, r as int + 1);
            assert(prefix.drop_last() =~= row_keys@.subrange(0, r as int));
            if row_keys[r] >= threshold {
                out.push((s, r));
                assert(out@ =~= candidates(dv.subrange(0, s as int), threshold) + rows_at_or_above(
                    prefix,
                    threshold,
                ).map_values(|q: usize| (s, q)));
            } else {
                assert(out@ =~= candidates(dv.subrange(0, s as int), threshold) + rows_at_or_above(
                    prefix,
                    threshold,
                ).map_values(|q: usize| (s, q)));
            }
            r = r + 1;
        }
        proof {
            let next = dv.subrange(0, s as int + 1);
            assert(next.drop_last() =~= dv.subrange(0, s as int));
            assert(row_keys@.subrange(0, r as int) =~= next.last());
        }
        s = s + 1;
    }
    assert(dv.subrange(0, dv.len() as int) =~= dv);
    out
}

/// The candidates of one stride never grow in number as the threshold rises.
pub proof fn lemma_rows_threshold_monotone(keys: Seq<u32>, low: u32, high: u32)
    requires
        low <= high,
    ensures
        rows_at_or_above(keys, high).len() <= rows_at_or_above(keys, low).len(),
    decreases keys.len(),
{
    if keys.len() > 0 {
        lemma_rows_threshold_monotone(keys.drop_last(), low, high);
    }
}

/// Raising the detection threshold never increases the number of candidates
/// that go on to ranking and suppression.
pub proof fn lemma_threshold_monotone(keys: Seq<Seq<u32>>, low: u32, high: u32)
    requires
        low <= high,
    ensures
        candidates(keys, high).len() <= candidates(keys, low).len(),
    decreases keys.len(),
{
    if keys.len() > 0 {
        lemma_threshold_monotone(keys.drop_last(), low, high);
        lemma_rows_threshold_monotone(keys.last(), low, high);
    }
}

/// Where every score key of one stride is below the threshold, none of its
/// rows is selected.
pub proof fn lemma_rows_all_below(keys: Seq<u32>, threshold: u32)
    requires
        forall|i: int| 0 <= i < keys.len() ==> #[trigger] keys[i] < threshold,
    ensures
        rows_at_or_above(keys, threshold) == Seq::<usize>::empty(),
    decreases keys.len(),
{
    if keys.len() > 0 {
        let rest = keys.drop_last();
        assert forall|i: int| 0 <= i < rest.len() implies #[trigger] rest[i] < threshold by {
            assert(rest[i] == keys[i]);
        }
        lemma_rows_all_below(rest, threshold);
    }
}

/// Where every score of every stride is below the threshold, there is no
/// candidate at all.
pub proof fn lemma_all_below_threshold_is_empty(keys: Seq<Seq<u32>>, threshold: u32)
    requires
        forall|s: int, i: int| 0 <= s < keys.len() && 0 <= i < keys[s].len() ==> #[trigger] keys[s][i] < threshold,
    ensures
        candidates(keys, threshold) == Seq::<(usize, usize)>::empty(),
    decreases keys.len(),
{
    if keys.len() > 0 {
        let rest = keys.drop_last();
        assert forall|s: int, i: int| 0 <= s < rest.len() && 0 <= i < rest[s].len() implies #[trigger] rest[s][i] < threshold by {
            assert(rest[s] == keys[s]);
        }
        lemma_all_below_threshold_is_empty(rest, threshold);
        let last = keys.last();
        assert forall|i: int| 0 <= i < last.len() implies #[trigger] last[i] < threshold by {
            assert(keys[keys.len() - 1][i] < threshold);
        }
        lemma_rows_all_below(last, threshold);
        assert(candidates(keys, threshold) =~= Seq::<(usize, usize)>::empty());
    }
}

} // verus!
