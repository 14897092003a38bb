use vstd::prelude::*;

verus! {

/// Whether the threshold `t` lies strictly below a total wait of `total` seconds.
pub open spec fn below(total: u64) -> spec_fn(u64) -> bool {
    |t: u64| t < total
}

/// The checkpoints for a wait of `total` seconds: the thresholds strictly below `total`,
/// in their given order, then the final checkpoint zero (the expiry itself).
pub open spec fn planned(total: u64, thresholds: Seq<u64>) -> Seq<u64> {
    thresholds.filter(below(total)).push(0)
}

/// Whether every element of `s` is larger than every element after it.
pub open spec fn strictly_descending(s: Seq<u64>) -> bool {
    forall|i: int, j: int| 0 <= i < j < s.len() ==> s[i] > s[j]
}

/// Whether no element of `s` is smaller than an element after it.
pub open spec fn non_increasing(s: Seq<u64>) -> bool {
    forall|i: int, j: int| 0 <= i < j < s.len() ==> s[i] >= s[j]
}

/// The usual thresholds, in seconds: ten minutes, five minutes, one minute, ten seconds.
pub fn default_thresholds() -> (r: Vec<u64>)
    ensures
        r@ == seq![600u64, 300u64, 60u64, 10u64],
{
    let r: Vec<u64> = vec![600, 300, 60, 10];
    assert(r@ =~= seq![600u64, 300u64, 60u64, 10u64]);
    r
}

/// The staged checkpoints of a wait of `total` seconds: the thresholds strictly below
/// `total`, in their given order.
pub fn staged_checkpoints(total: u64, thresholds: &[u64]) -> (r: Vec<u64>)
    ensures
        r@ == thresholds@.filter(below(total)),
{
    let mut r: Vec<u64> = Vec::new();
    let mut i: usize = 0;
    while i < thresholds.len()
        invariant
            i <= thresholds@.len(),
            r@ == thresholds@.subrange(0, i as int).filter(below(total)),
        decreases thresholds@.len() - i,
    {
        let t = thresholds[i];
        proof {
            let next = thresholds@.subrange(0, i + 1);
            assert(next.drop_last() =~= thresholds@.subrange(0, i as int));
            reveal(Seq::filter);
        }
        if t < total {
            r.push(t);
        }
        i = i + 1;
    }
    assert(thresholds@.subrange(0, i as int) =~= thresholds@);
    r
}

/// The checkpoints at which a wait of `total` seconds notifies, in the order of the
/// thresholds, always ending with the final checkpoint zero.
pub fn plan(total: u64, thresholds: &[u64]) -> (r: Vec<u64>)
    ensures
        r@ == planned(total, thresholds@),
{
    let mut r = staged_checkpoints(total, thresholds);
    r.push(0);
    r
}

proof fn lemma_filter_descending(s: Seq<u64>, total: u64)
    requires
        strictly_descending(s),
    ensures
        strictly_descending(s.filter(below(total))),
    decreases s.len(),
{
    reveal(Seq::filter);
    if s.len() > 0 {
        let rest = s.drop_last();
        let f = rest.filter(below(total));
        lemma_filter_descending(rest, total);
        if below(total)(s.last()) {
            assert forall|k: int| 0 <= k < f.len() implies f[k] > s.last() by {
                assert(f.contains(f[k]));
                rest.lemma_filter_contains_rev(below(total), f[k]);
                let i = choose|i: int| 0 <= i < rest.len() && rest[i] == f[k];
                assert(s[i] == rest[i]);
            }
        }
    }
}

/// The plan for a wait of `total` seconds never holds a threshold at or above `total`, always
/// ends with the final checkpoint zero, holds every threshold below `total`, and keeps the
/// descending order of the thresholds.
pub proof fn lemma_plan_shape(total: u64, thresholds: Seq<u64>)
    ensures
        planned(total, thresholds).len() >= 1,
        planned(total, thresholds).last() == 0,
        forall|i: int|
            0 <= i < planned(total, thresholds).len() - 1 ==> #[trigger] planned(
                total,
                thresholds,
            )[i] < total,
        forall|i: int|
            0 <= i < thresholds.len() && thresholds[i] < total ==> #[trigger] planned(
                total,
                thresholds,
            ).contains(thresholds[i]),
        strictly_descending(thresholds) ==> strictly_descending(
            planned(total, thresholds).drop_last(),
        ) && non_increasing(planned(total, thresholds)),
{
    let f = thresholds.filter(below(total));
    let p = planned(total, thresholds);
    assert(p.drop_last() =~= f);
    assert forall|i: int| 0 <= i < p.len() - 1 implies #[trigger] p[i] < total by {
        thresholds.lemma_filter_pred(below(total), i);
    }
    assert forall|i: int| 0 <= i < thresholds.len() && thresholds[i] < total implies #[trigger] p.contains(
        thresholds[i],
    ) by {
        thresholds.lemma_filter_contains(below(total), i);
        let k = choose|k: int| 0 <= k < f.len() && f[k] == thresholds[i];
        assert(p[k] == thresholds[i]);
    }
    if strictly_descending(thresholds) {
        lemma_filter_descending(thresholds, total);
    }
}

/// Every checkpoint of a plan lies at or below the total wait.
pub proof fn lemma_plan_within_total(total: u64, thresholds: Seq<u64>)
    ensures
        forall|i: int|
            0 <= i < planned(total, thresholds).len() ==> #[trigger] planned(total, thresholds)[i]
                <= total,
{
    lemma_plan_shape(total, thresholds);
}

} // verus!
