//! Picking out the regressions among the comparisons of two runs.
use vstd::prelude::*;
use crate::bench_result::{BenchResult, last_named, lemma_last_index_of, names_of};
use crate::bench_comparison::{
    BenchComparison, Delta, are_comparisons_of, comparison_from, is_comparison_of,
    is_deterministic, same_comparison, same_comparisons, law_comparisons_unique,
};

verus! {

/// The comparisons in `all` whose outcome is a regression, in their order.
pub open spec fn regressions<M>(all: Seq<BenchComparison<M>>) -> Seq<BenchComparison<M>> {
    all.filter(|c: BenchComparison<M>| c.outcome is Regressed)
}

proof fn lemma_regressions_step<M>(all: Seq<BenchComparison<M>>, i: int)
    requires
        0 <= i < all.len(),
    ensures
        regressions(all.take(i + 1)) == if all[i].outcome is Regressed {
            regressions(all.take(i)).push(all[i])
        } else {
            regressions(all.take(i))
        },
{
    reveal(Seq::filter);
    assert(all.take(i + 1).drop_last() =~= all.take(i));
}

/// There is a regression among some comparisons exactly when the
/// regressions picked out of them are not none.
pub proof fn law_regressions_nonempty_iff_some_regressed<M>(all: Seq<BenchComparison<M>>)
    ensures
        regressions(all).len() > 0 <==> exists|k: int|
            0 <= k < all.len() && (#[trigger] all[k]).outcome is Regressed,
    decreases all.len(),
{
    reveal(Seq::filter);
    if all.len() > 0 {
        law_regressions_nonempty_iff_some_regressed(all.drop_last());
        if exists|k: int| 0 <= k < all.drop_last().len() && (#[trigger] all.drop_last()[k]).outcome is Regressed {
            let k = choose|k: int| 0 <= k < all.drop_last().len() && (#[trigger] all.drop_last()[k]).outcome is Regressed;
            assert(all[k] == all.drop_last()[k]);
        }
        if exists|k: int| 0 <= k < all.len() && (#[trigger] all[k]).outcome is Regressed {
            let k = choose|k: int| 0 <= k < all.len() && (#[trigger] all[k]).outcome is Regressed;
            if k < all.len() - 1 {
                assert(all.drop_last()[k] == all[k]);
            }
        }
    }
}

/// Every regression picked out of some comparisons is one of them, and
/// their order is kept.
pub proof fn law_regressions_are_regressed<M>(all: Seq<BenchComparison<M>>)
    ensures
        forall|k: int|
            0 <= k < regressions(all).len() ==> (#[trigger] regressions(all)[k]).outcome is Regressed
                && all.contains(regressions(all)[k]),
{
    let p = |c: BenchComparison<M>| c.outcome is Regressed;
    assert forall|k: int| 0 <= k < regressions(all).len() implies (#[trigger] regressions(all)[k]).outcome is Regressed
        && all.contains(regressions(all)[k]) by {
        all.lemma_filter_pred(p, k);
        all.lemma_filter_contains_rev(p, regressions(all)[k]);
        assert(regressions(all).contains(regressions(all)[k]));
    }
}

/// `delta_of` finds the change from `baseline` to `current` above the
/// threshold and not below minus the threshold.
pub open spec fn regressed_by<M, F: Fn(&BenchResult<M>, &BenchResult<M>, M) -> Delta<M>>(
    delta_of: F,
    threshold_percent: M,
    baseline: BenchResult<M>,
    current: BenchResult<M>,
) -> bool {
    exists|d: Delta<M>|
        call_ensures(delta_of, (&baseline, &current, threshold_percent), d) && !d.below_threshold
            && d.above_threshold
}

/// Comparing two runs finds a regression exactly when some benchmark is in
/// both runs and the change from its last baseline result to its last
/// current result is above the threshold and not below minus the threshold
/// (with a `delta_of` that gives a single change for given results).
pub proof fn law_regression_per_name<M, F: Fn(&BenchResult<M>, &BenchResult<M>, M) -> Delta<M>>(
    baseline: Seq<BenchResult<M>>,
    current: Seq<BenchResult<M>>,
    threshold_percent: M,
    delta_of: F,
    missing: M,
    all: Seq<BenchComparison<M>>,
)
    requires
        is_deterministic(delta_of, threshold_percent),
        are_comparisons_of(baseline, current, threshold_percent, delta_of, missing, all),
    ensures
        regressions(all).len() > 0 <==> exists|n: Seq<char>|
            names_of(baseline).contains(n) && names_of(current).contains(n) && #[trigger] regressed_by(
                delta_of,
                threshold_percent,
                last_named(baseline, n)->0,
                last_named(current, n)->0,
            ),
{
    law_regressions_nonempty_iff_some_regressed(all);
    if regressions(all).len() > 0 {
        let k = choose|k: int| 0 <= k < all.len() && (#[trigger] all[k]).outcome is Regressed;
        let n = all[k].name@;
        assert(is_comparison_of(baseline, current, threshold_percent, delta_of, missing, all[k]));
        lemma_last_index_of(names_of(baseline), n);
        lemma_last_index_of(names_of(current), n);
        match (last_named(baseline, n), last_named(current, n)) {
            (Some(b), Some(c)) => {
                let d = choose|d: Delta<M>|
                    call_ensures(delta_of, (&b, &c, threshold_percent), d) && all[k] == comparison_from(b, c, d);
                assert(regressed_by(delta_of, threshold_percent, b, c));
            },
            _ => {},
        }
    }
    if exists|n: Seq<char>|
        names_of(baseline).contains(n) && names_of(current).contains(n) && #[trigger] regressed_by(
            delta_of,
            threshold_percent,
            last_named(baseline, n)->0,
            last_named(current, n)->0,
        ) {
        let n = choose|n: Seq<char>|
            names_of(baseline).contains(n) && names_of(current).contains(n) && #[trigger] regressed_by(
                delta_of,
                threshold_percent,
                last_named(baseline, n)->0,
                last_named(current, n)->0,
            );
        lemma_last_index_of(names_of(baseline), n);
        lemma_last_index_of(names_of(current), n);
        let k = choose|k: int| 0 <= k < all.len() && #[trigger] all[k].name@ == n;
        assert(is_comparison_of(baseline, current, threshold_percent, delta_of, missing, all[k]));
        let b = last_named(baseline, n)->0;
        let c = last_named(current, n)->0;
        let d1 = choose|d: Delta<M>|
            call_ensures(delta_of, (&b, &c, threshold_percent), d) && !d.below_threshold && d.above_threshold;
        let d2 = choose|d: Delta<M>|
            call_ensures(delta_of, (&b, &c, threshold_percent), d) && all[k] == comparison_from(b, c, d);
        assert(d1 == d2);
        assert(all[k].outcome is Regressed);
    }
}

proof fn lemma_regressions_same<M>(x: Seq<BenchComparison<M>>, y: Seq<BenchComparison<M>>)
    requires
        same_comparisons(x, y),
    ensures
        same_comparisons(regressions(x), regressions(y)),
    decreases x.len(),
{
    reveal(Seq::filter);
    if x.len() > 0 {
        assert(same_comparison(x[x.len() - 1], y[y.len() - 1]));
        assert forall|k: int| 0 <= k < x.drop_last().len() implies #[trigger] same_comparison(
            x.drop_last()[k],
            y.drop_last()[k],
        ) by {
            assert(same_comparison(x[k], y[k]));
        }
        lemma_regressions_same(x.drop_last(), y.drop_last());
        let rx = regressions(x.drop_last());
        let ry = regressions(y.drop_last());
        if x.last().outcome is Regressed {
            assert(y.last().outcome is Regressed);
            assert forall|k: int| 0 <= k < rx.len() + 1 implies #[trigger] same_comparison(
                rx.push(x.last())[k],
                ry.push(y.last())[k],
            ) by {
                if k < rx.len() {
                    assert(same_comparison(rx[k], ry[k]));
                }
            }
        } else {
            assert(!(y.last().outcome is Regressed));
        }
    }
}

/// What `detect` returns and what `has_regressions` answers agree: with a
/// `delta_of` that gives a single change for given results, the regressions
/// among any two lists of comparisons of the same runs are the same, so one
/// list has a regression exactly when the other has.
pub proof fn law_detect_agrees_with_has_regressions<M, F: Fn(&BenchResult<M>, &BenchResult<M>, M) -> Delta<M>>(
    baseline: Seq<BenchResult<M>>,
    current: Seq<BenchResult<M>>,
    threshold_percent: M,
    delta_of: F,
    missing: M,
    x: Seq<BenchComparison<M>>,
    y: Seq<BenchComparison<M>>,
)
    requires
        is_deterministic(delta_of, threshold_percent),
        are_comparisons_of(baseline, current, threshold_percent, delta_of, missing, x),
        are_comparisons_of(baseline, current, threshold_percent, delta_of, missing, y),
    ensures
        same_comparisons(regressions(x), regressions(y)),
        (regressions(x).len() > 0) == (regressions(y).len() > 0),
{
    law_comparisons_unique(baseline, current, threshold_percent, delta_of, missing, x, y);
    lemma_regressions_same(x, y);
}

/// Detects regressions exceeding a configurable threshold.
pub struct RegressionDetector<M> {
    /// Percentage threshold above which a change is flagged as a regression.
    pub threshold_percent: M,
}

impl<M: Copy> RegressionDetector<M> {
    /// A detector with the given threshold.
    pub fn new(threshold_percent: M) -> (r: Self)
        ensures
            r.threshold_percent == threshold_percent,
    {
        RegressionDetector { threshold_percent }
    }

    /// The comparisons in `all` that are regressions, in their order.
    fn regressions_among(all: &Vec<BenchComparison<M>>) -> (r: Vec<BenchComparison<M>>)
        ensures
            r@ == regressions(all@),
    {
        let n = all.len();
        let mut r: Vec<BenchComparison<M>> = Vec::new();
        proof {
            reveal(Seq::filter);
            assert(all@.take(0) =~= Seq::<BenchComparison<M>>::empty());
        }
        for i in 0..n
            invariant
                n == all@.len(),
                r@ == regressions(all@.take(i as int)),
        {
            proof {
                lemma_regressions_step(all@, i as int);
            }
            if all[i].outcome.is_regressed() {
                r.push(all[i].duplicate());
            }
        }
        assert(all@.take(n as int) =~= all@);
        r
    }

    /// Compare two result sets and return only the regressions.
    ///
    /// The comparisons are those of `BenchComparison::compare_sets` with this
    /// detector's threshold; the result keeps the regressed ones, in order.
    pub fn detect<F: Fn(&BenchResult<M>, &BenchResult<M>, M) -> Delta<M>>(
        &self,
        baseline: &[BenchResult<M>],
        current: &[BenchResult<M>],
        delta_of: &F,
        missing: M,
    ) -> (r: Vec<BenchComparison<M>>)
        requires
            forall|b: BenchResult<M>, c: BenchResult<M>|
                call_requires(*delta_of, (&b, &c, self.threshold_percent)),
        ensures
            exists|all: Seq<BenchComparison<M>>|
                are_comparisons_of(
                    baseline@,
                    current@,
                    self.threshold_percent,
                    *delta_of,
                    missing,
                    all,
                ) && r@ == regressions(all),
    {
        let all = BenchComparison::compare_sets(
            baseline,
            current,
            self.threshold_percent,
            delta_of,
            missing,
        );
        Self::regressions_among(&all)
    }

    /// Whether comparing the two result sets finds any regression.
    pub fn has_regressions<F: Fn(&BenchResult<M>, &BenchResult<M>, M) -> Delta<M>>(
        &self,
        baseline: &[BenchResult<M>],
        current: &[BenchResult<M>],
        delta_of: &F,
        missing: M,
    ) -> (r: bool)
        requires
            forall|b: BenchResult<M>, c: BenchResult<M>|
                call_requires(*delta_of, (&b, &c, self.threshold_percent)),
        ensures
            exists|all: Seq<BenchComparison<M>>|
                are_comparisons_of(
                    baseline@,
                    current@,
                    self.threshold_percent,
                    *delta_of,
                    missing,
                    all,
                ) && r == (regressions(all).len() > 0),
    {
        let found = self.detect(baseline, current, delta_of, missing);
        found.len() > 0
    }
}

} // verus!
