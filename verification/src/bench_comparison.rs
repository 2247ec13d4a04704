//! Comparing benchmark results between a baseline run and a current run.
use vstd::prelude::*;
use crate::bench_result::{
    BenchResult, names_of, last_named, last_position, lemma_last_index_of,
    lemma_reordering_keeps_last_named,
};
use crate::text::{
    lex_lt, lemma_lex_irreflexive, lemma_lex_total, lemma_lex_transitive, lemma_sorted_names_unique,
};

verus! {

/// Outcome of comparing a single benchmark between two runs.
#[derive(Debug, Clone, PartialEq)]
pub enum ComparisonOutcome<M> {
    /// The benchmark improved (got faster).
    Improved { percent: M },
    /// The benchmark is essentially unchanged.
    Unchanged { percent: M },
    /// The benchmark regressed (got slower).
    Regressed { percent: M },
    /// Benchmark exists in only one run.
    OnlyInOne { which: String },
}

/// The measured change between a baseline result and a current result,
/// together with where it falls relative to the threshold.
#[derive(Debug, Clone, Copy, PartialEq)]
pub struct Delta<M> {
    /// Percentage change of the mean: positive = slower, negative = faster
    pub change_percent: M,
    /// Confidence interval half-width in percent
    pub confidence_interval: M,
    /// The change lies below minus the threshold (`change_percent < -threshold`)
    pub below_threshold: bool,
    /// The change lies above the threshold (`change_percent > threshold`)
    pub above_threshold: bool,
}

/// Comparison of a single benchmark between baseline and current.
#[derive(Debug, Clone)]
pub struct BenchComparison<M> {
    /// Benchmark name
    pub name: String,
    /// Baseline (old) result
    pub baseline: Option<BenchResult<M>>,
    /// Current (new) result
    pub current: Option<BenchResult<M>>,
    /// Percentage change: positive = slower, negative = faster
    pub change_percent: M,
    /// Confidence interval half-width in percent
    pub confidence_interval: M,
    /// The outcome
    pub outcome: ComparisonOutcome<M>,
}

/// The outcome of a change: improved when it lies below minus the threshold,
/// otherwise regressed when it lies above the threshold, otherwise unchanged.
pub open spec fn outcome_of<M>(percent: M, below_threshold: bool, above_threshold: bool) -> ComparisonOutcome<M> {
    if below_threshold {
        ComparisonOutcome::Improved { percent }
    } else if above_threshold {
        ComparisonOutcome::Regressed { percent }
    } else {
        ComparisonOutcome::Unchanged { percent }
    }
}

/// The comparison of `baseline` with `current` whose change is `delta`.
pub open spec fn comparison_from<M>(baseline: BenchResult<M>, current: BenchResult<M>, delta: Delta<M>) -> BenchComparison<M> {
    BenchComparison {
        name: baseline.name,
        baseline: Some(baseline),
        current: Some(current),
        change_percent: delta.change_percent,
        confidence_interval: delta.confidence_interval,
        outcome: outcome_of(delta.change_percent, delta.below_threshold, delta.above_threshold),
    }
}

/// `c` records that `present` was found only in one run, the baseline when
/// `in_baseline` holds and the current run otherwise, names that run
/// (`"baseline"` or `"current"`), and has `missing` in place of the change figures.
pub open spec fn only_in_one<M>(c: BenchComparison<M>, present: BenchResult<M>, in_baseline: bool, missing: M) -> bool {
    &&& c.name == present.name
    &&& if in_baseline {
        c.baseline == Some(present) && c.current is None
    } else {
        c.baseline is None && c.current == Some(present)
    }
    &&& c.change_percent == missing
    &&& c.confidence_interval == missing
    &&& c.outcome matches ComparisonOutcome::OnlyInOne { which } && which@ == (if in_baseline {
        "baseline"@
    } else {
        "current"@
    })
}

/// `c` is the comparison that the run results `baseline` and `current` give
/// for the name `c.name`: each side's result is the last one with that name;
/// where both sides have one, the change is one that `delta_of` returns for them.
pub open spec fn is_comparison_of<M, F: Fn(&BenchResult<M>, &BenchResult<M>, M) -> Delta<M>>(
    baseline: Seq<BenchResult<M>>,
    current: Seq<BenchResult<M>>,
    threshold_percent: M,
    delta_of: F,
    missing: M,
    c: BenchComparison<M>,
) -> bool {
    match (last_named(baseline, c.name@), last_named(current, c.name@)) {
        (Some(b), Some(k)) => exists|d: Delta<M>|
            call_ensures(delta_of, (&b, &k, threshold_percent), d) && c == comparison_from(b, k, d),
        (Some(b), None) => only_in_one(c, b, true, missing),
        (None, Some(k)) => only_in_one(c, k, false, missing),
        (None, None) => false,
    }
}

/// The names in `v` are strictly increasing.
pub open spec fn strictly_sorted(v: Seq<String>) -> bool {
    forall|i: int, j: int| 0 <= i < j < v.len() ==> lex_lt(v[i]@, v[j]@)
}

/// The views of the strings in `v`.
pub open spec fn views(v: Seq<String>) -> Seq<Seq<char>> {
    v.map_values(|s: String| s@)
}

/// `comparisons` is exactly what comparing `baseline` with `current` gives:
/// one comparison for each name that occurs in either run, ordered by name.
pub open spec fn are_comparisons_of<M, F: Fn(&BenchResult<M>, &BenchResult<M>, M) -> Delta<M>>(
    baseline: Seq<BenchResult<M>>,
    current: Seq<BenchResult<M>>,
    threshold_percent: M,
    delta_of: F,
    missing: M,
    comparisons: Seq<BenchComparison<M>>,
) -> bool {
    &&& forall|k: int|
        0 <= k < comparisons.len() ==> #[trigger] is_comparison_of(
            baseline,
            current,
            threshold_percent,
            delta_of,
            missing,
            comparisons[k],
        )
    &&& forall|i: int, j: int|
        0 <= i < j < comparisons.len() ==> lex_lt(comparisons[i].name@, comparisons[j].name@)
    &&& forall|n: Seq<char>|
        (names_of(baseline).contains(n) || names_of(current).contains(n)) <==> exists|k: int|
            0 <= k < comparisons.len() && #[trigger] comparisons[k].name@ == n
}

/// In the comparisons of two runs, a benchmark is reported as present in
/// only one run exactly when one run lacks it. Otherwise its change is one
/// that `delta_of` measured for its two results, and it is an improvement
/// exactly when that change lies below minus the threshold, and a regression
/// exactly when it lies above the threshold and not below minus the threshold.
pub proof fn law_outcome_follows_delta<M, F: Fn(&BenchResult<M>, &BenchResult<M>, M) -> Delta<M>>(
    baseline: Seq<BenchResult<M>>,
    current: Seq<BenchResult<M>>,
    threshold_percent: M,
    delta_of: F,
    missing: M,
    all: Seq<BenchComparison<M>>,
    k: int,
)
    requires
        are_comparisons_of(baseline, current, threshold_percent, delta_of, missing, all),
        0 <= k < all.len(),
    ensures
        (all[k].outcome is OnlyInOne) <==> (all[k].baseline is None || all[k].current is None),
        !(all[k].outcome is OnlyInOne) ==> exists|d: Delta<M>|
            call_ensures(
                delta_of,
                (&all[k].baseline->0, &all[k].current->0, threshold_percent),
                d,
            ) && all[k].change_percent == d.change_percent && ((all[k].outcome is Improved)
                <==> d.below_threshold) && ((all[k].outcome is Regressed) <==> (
            !d.below_threshold && d.above_threshold)),
{
    assert(is_comparison_of(baseline, current, threshold_percent, delta_of, missing, all[k]));
    let c = all[k];
    match (last_named(baseline, c.name@), last_named(current, c.name@)) {
        (Some(b), Some(r)) => {
            let d = choose|d: Delta<M>|
                call_ensures(delta_of, (&b, &r, threshold_percent), d) && c == comparison_from(b, r, d);
            assert(c.baseline->0 == b && c.current->0 == r);
        },
        _ => {},
    }
}

/// The percentage carried by an outcome: the change of an improved,
/// unchanged or regressed benchmark; none for a one-sided one.
pub open spec fn carried_percent<M>(o: ComparisonOutcome<M>) -> Option<M> {
    match o {
        ComparisonOutcome::Improved { percent } => Some(percent),
        ComparisonOutcome::Unchanged { percent } => Some(percent),
        ComparisonOutcome::Regressed { percent } => Some(percent),
        ComparisonOutcome::OnlyInOne { .. } => None,
    }
}

/// Comparing two present results keeps the measured change: the
/// comparison's change figures are the delta's, and its outcome is an
/// improvement, no change or a regression that carries exactly that change;
/// it is an improvement exactly when the change lies below minus the
/// threshold, a regression exactly when it lies above the threshold and not
/// below minus it, and unchanged otherwise.
pub proof fn law_outcome_carries_the_change<M>(baseline: BenchResult<M>, current: BenchResult<M>, delta: Delta<M>)
    ensures
        comparison_from(baseline, current, delta).change_percent == delta.change_percent,
        comparison_from(baseline, current, delta).confidence_interval == delta.confidence_interval,
        carried_percent(comparison_from(baseline, current, delta).outcome) == Some(delta.change_percent),
        (comparison_from(baseline, current, delta).outcome is Improved) <==> delta.below_threshold,
        (comparison_from(baseline, current, delta).outcome is Regressed) <==> (!delta.below_threshold
            && delta.above_threshold),
        (comparison_from(baseline, current, delta).outcome is Unchanged) <==> (!delta.below_threshold
            && !delta.above_threshold),
        comparison_from(baseline, current, delta).baseline == Some(baseline),
        comparison_from(baseline, current, delta).current == Some(current),
        comparison_from(baseline, current, delta).name == baseline.name,
{
}

/// In the comparisons of two runs, every benchmark found in both runs
/// carries in its outcome exactly its change percentage.
pub proof fn law_present_outcomes_carry_their_change<M, F: Fn(&BenchResult<M>, &BenchResult<M>, M) -> Delta<M>>(
    baseline: Seq<BenchResult<M>>,
    current: Seq<BenchResult<M>>,
    threshold_percent: M,
    delta_of: F,
    missing: M,
    all: Seq<BenchComparison<M>>,
    k: int,
)
    requires
        are_comparisons_of(baseline, current, threshold_percent, delta_of, missing, all),
        0 <= k < all.len(),
        all[k].baseline is Some,
        all[k].current is Some,
    ensures
        carried_percent(all[k].outcome) == Some(all[k].change_percent),
{
    assert(is_comparison_of(baseline, current, threshold_percent, delta_of, missing, all[k]));
    let c = all[k];
    match (last_named(baseline, c.name@), last_named(current, c.name@)) {
        (Some(b), Some(r)) => {
            let d = choose|d: Delta<M>|
                call_ensures(delta_of, (&b, &r, threshold_percent), d) && c == comparison_from(b, r, d);
            law_outcome_carries_the_change(b, r, d);
        },
        _ => {},
    }
}

/// In the comparisons of two runs, no benchmark name occurs twice.
pub proof fn law_each_name_once<M, F: Fn(&BenchResult<M>, &BenchResult<M>, M) -> Delta<M>>(
    baseline: Seq<BenchResult<M>>,
    current: Seq<BenchResult<M>>,
    threshold_percent: M,
    delta_of: F,
    missing: M,
    all: Seq<BenchComparison<M>>,
)
    requires
        are_comparisons_of(baseline, current, threshold_percent, delta_of, missing, all),
    ensures
        forall|i: int, j: int|
            0 <= i < all.len() && 0 <= j < all.len() && i != j ==> all[i].name@ != all[j].name@,
{
    assert forall|i: int, j: int|
        0 <= i < all.len() && 0 <= j < all.len() && i != j implies all[i].name@ != all[j].name@ by {
        lemma_lex_irreflexive(all[i].name@);
        if i < j {
            assert(lex_lt(all[i].name@, all[j].name@));
        } else {
            assert(lex_lt(all[j].name@, all[i].name@));
        }
    }
}

/// `delta_of` gives a single change for given results and threshold.
pub open spec fn is_deterministic<M, F: Fn(&BenchResult<M>, &BenchResult<M>, M) -> Delta<M>>(
    delta_of: F,
    threshold_percent: M,
) -> bool {
    forall|b: BenchResult<M>, c: BenchResult<M>, d1: Delta<M>, d2: Delta<M>|
        #![trigger call_ensures(delta_of, (&b, &c, threshold_percent), d1), call_ensures(delta_of, (&b, &c, threshold_percent), d2)]
        call_ensures(delta_of, (&b, &c, threshold_percent), d1) && call_ensures(
            delta_of,
            (&b, &c, threshold_percent),
            d2,
        ) ==> d1 == d2
}

/// The same outcome; a one-sided outcome names the same run.
pub open spec fn same_outcome<M>(x: ComparisonOutcome<M>, y: ComparisonOutcome<M>) -> bool {
    match x {
        ComparisonOutcome::OnlyInOne { which } => y matches ComparisonOutcome::OnlyInOne {
            which: w,
        } && which@ == w@,
        _ => x == y,
    }
}

/// The same comparison: same name, results, change figures and outcome.
pub open spec fn same_comparison<M>(x: BenchComparison<M>, y: BenchComparison<M>) -> bool {
    &&& x.name == y.name
    &&& x.baseline == y.baseline
    &&& x.current == y.current
    &&& x.change_percent == y.change_percent
    &&& x.confidence_interval == y.confidence_interval
    &&& same_outcome(x.outcome, y.outcome)
}

/// The same comparisons, entry by entry.
pub open spec fn same_comparisons<M>(x: Seq<BenchComparison<M>>, y: Seq<BenchComparison<M>>) -> bool {
    x.len() == y.len() && forall|k: int| 0 <= k < x.len() ==> #[trigger] same_comparison(x[k], y[k])
}

/// The names of `comparisons`, in order.
pub open spec fn comparison_names<M>(comparisons: Seq<BenchComparison<M>>) -> Seq<Seq<char>> {
    comparisons.map_values(|c: BenchComparison<M>| c.name@)
}

/// Runs that have the same last result for every name compare the same.
proof fn lemma_comparisons_depend_on_last_results<M, F: Fn(&BenchResult<M>, &BenchResult<M>, M) -> Delta<M>>(
    baseline: Seq<BenchResult<M>>,
    current: Seq<BenchResult<M>>,
    baseline2: Seq<BenchResult<M>>,
    current2: Seq<BenchResult<M>>,
    threshold_percent: M,
    delta_of: F,
    missing: M,
    x: Seq<BenchComparison<M>>,
    y: Seq<BenchComparison<M>>,
)
    requires
        is_deterministic(delta_of, threshold_percent),
        forall|n: Seq<char>| last_named(baseline, n) == last_named(baseline2, n),
        forall|n: Seq<char>| last_named(current, n) == last_named(current2, n),
        are_comparisons_of(baseline, current, threshold_percent, delta_of, missing, x),
        are_comparisons_of(baseline2, current2, threshold_percent, delta_of, missing, y),
    ensures
        same_comparisons(x, y),
{
    let xn = comparison_names(x);
    let yn = comparison_names(y);
    assert forall|n: Seq<char>| xn.contains(n) <==> yn.contains(n) by {
        lemma_last_index_of(names_of(baseline), n);
        lemma_last_index_of(names_of(current), n);
        lemma_last_index_of(names_of(baseline2), n);
        lemma_last_index_of(names_of(current2), n);
        assert(last_named(baseline, n) == last_named(baseline2, n));
        assert(last_named(current, n) == last_named(current2, n));
        if xn.contains(n) {
            let k = choose|k: int| 0 <= k < xn.len() && xn[k] == n;
            assert(x[k].name@ == n);
            assert(names_of(baseline2).contains(n) || names_of(current2).contains(n));
            let q = choose|q: int| 0 <= q < y.len() && #[trigger] y[q].name@ == n;
            assert(yn[q] == n);
        }
        if yn.contains(n) {
            let k = choose|k: int| 0 <= k < yn.len() && yn[k] == n;
            assert(y[k].name@ == n);
            assert(names_of(baseline).contains(n) || names_of(current).contains(n));
            let q = choose|q: int| 0 <= q < x.len() && #[trigger] x[q].name@ == n;
            assert(xn[q] == n);
        }
    }
    assert forall|i: int, j: int| 0 <= i < j < xn.len() implies lex_lt(xn[i], xn[j]) by {
        assert(xn[i] == x[i].name@ && xn[j] == x[j].name@);
    }
    assert forall|i: int, j: int| 0 <= i < j < yn.len() implies lex_lt(yn[i], yn[j]) by {
        assert(yn[i] == y[i].name@ && yn[j] == y[j].name@);
    }
    lemma_sorted_names_unique(xn, yn);
    assert forall|k: int| 0 <= k < x.len() implies #[trigger] same_comparison(x[k], y[k]) by {
        assert(xn[k] == yn[k]);
        let n = x[k].name@;
        assert(y[k].name@ == n);
        assert(is_comparison_of(baseline, current, threshold_percent, delta_of, missing, x[k]));
        assert(is_comparison_of(baseline2, current2, threshold_percent, delta_of, missing, y[k]));
        assert(last_named(baseline, n) == last_named(baseline2, n));
        assert(last_named(current, n) == last_named(current2, n));
        match (last_named(baseline, n), last_named(current, n)) {
            (Some(b), Some(c)) => {
                let d1 = choose|d: Delta<M>|
                    call_ensures(delta_of, (&b, &c, threshold_percent), d) && x[k] == comparison_from(b, c, d);
                let d2 = choose|d: Delta<M>|
                    call_ensures(delta_of, (&b, &c, threshold_percent), d) && y[k] == comparison_from(b, c, d);
                assert(d1 == d2);
            },
            _ => {},
        }
    }
}

/// Comparing two runs has one result: with a `delta_of` that gives a single
/// change for given results, any two lists of comparisons of the same runs
/// are the same, entry by entry.
pub proof fn law_comparisons_unique<M, F: Fn(&BenchResult<M>, &BenchResult<M>, M) -> Delta<M>>(
    baseline: Seq<BenchResult<M>>,
    current: Seq<BenchResult<M>>,
    threshold_percent: M,
    delta_of: F,
    missing: M,
    x: Seq<BenchComparison<M>>,
    y: Seq<BenchComparison<M>>,
)
    requires
        is_deterministic(delta_of, threshold_percent),
        are_comparisons_of(baseline, current, threshold_percent, delta_of, missing, x),
        are_comparisons_of(baseline, current, threshold_percent, delta_of, missing, y),
    ensures
        same_comparisons(x, y),
{
    lemma_comparisons_depend_on_last_results(
        baseline,
        current,
        baseline,
        current,
        threshold_percent,
        delta_of,
        missing,
        x,
        y,
    );
}

/// The order of the results in a run does not matter: when the names within
/// each run are all different, reordering the runs' results gives the same
/// comparisons (with a `delta_of` that gives a single change for given results).
pub proof fn law_order_of_inputs_irrelevant<M, F: Fn(&BenchResult<M>, &BenchResult<M>, M) -> Delta<M>>(
    baseline: Seq<BenchResult<M>>,
    current: Seq<BenchResult<M>>,
    baseline2: Seq<BenchResult<M>>,
    current2: Seq<BenchResult<M>>,
    threshold_percent: M,
    delta_of: F,
    missing: M,
    x: Seq<BenchComparison<M>>,
    y: Seq<BenchComparison<M>>,
)
    requires
        is_deterministic(delta_of, threshold_percent),
        names_of(baseline).no_duplicates(),
        names_of(current).no_duplicates(),
        baseline2.to_multiset() == baseline.to_multiset(),
        current2.to_multiset() == current.to_multiset(),
        are_comparisons_of(baseline, current, threshold_percent, delta_of, missing, x),
        are_comparisons_of(baseline2, current2, threshold_percent, delta_of, missing, y),
    ensures
        same_comparisons(x, y),
{
    lemma_reordering_keeps_last_named(baseline, baseline2);
    lemma_reordering_keeps_last_named(current, current2);
    lemma_comparisons_depend_on_last_results(
        baseline,
        current,
        baseline2,
        current2,
        threshold_percent,
        delta_of,
        missing,
        x,
        y,
    );
}

impl<M> ComparisonOutcome<M> {
    /// Classify a change: improved when it lies below minus the threshold,
    /// otherwise regressed when it lies above the threshold, otherwise unchanged.
    pub fn classify(percent: M, below_threshold: bool, above_threshold: bool) -> (r: Self)
        ensures
            r == outcome_of(percent, below_threshold, above_threshold),
    {
        if below_threshold {
            ComparisonOutcome::Improved { percent }
        } else if above_threshold {
            ComparisonOutcome::Regressed { percent }
        } else {
            ComparisonOutcome::Unchanged { percent }
        }
    }

    /// Whether this outcome is a regression.
    pub(crate) fn is_regressed(&self) -> (r: bool)
        ensures
            r == (*self is Regressed),
    {
        match self {
            ComparisonOutcome::Regressed { .. } => true,
            _ => false,
        }
    }
}

impl<M: Copy> ComparisonOutcome<M> {
    /// An identical copy of this outcome.
    pub(crate) fn duplicate(&self) -> (r: Self)
        ensures
            r == *self,
    {
        match self {
            ComparisonOutcome::Improved { percent } => ComparisonOutcome::Improved { percent: *percent },
            ComparisonOutcome::Unchanged { percent } => ComparisonOutcome::Unchanged { percent: *percent },
            ComparisonOutcome::Regressed { percent } => ComparisonOutcome::Regressed { percent: *percent },
            ComparisonOutcome::OnlyInOne { which } => ComparisonOutcome::OnlyInOne { which: which.clone() },
        }
    }
}

/// Insert `name` into the strictly sorted list `names`, unless it is there already.
fn insert_name(names: &mut Vec<String>, name: &String)
    requires
        strictly_sorted(old(names)@),
    ensures
        strictly_sorted(final(names)@),
        forall|n: Seq<char>|
            views(final(names)@).contains(n) <==> (views(old(names)@).contains(n) || n == name@),
{
    let len = names.len();
    let mut p: usize = 0;
    while p < len && crate::text::str_lt(names[p].as_str(), name.as_str())
        invariant
            p <= len,
            len == names@.len(),
            forall|q: int| 0 <= q < p ==> lex_lt(#[trigger] names@[q]@, name@),
        decreases len - p,
    {
        p = p + 1;
    }
    let ghost old_names = names@;
    if p < len && crate::text::str_eq(names[p].as_str(), name.as_str()) {
        assert forall|n: Seq<char>| views(names@).contains(n) <==> (views(old_names).contains(n) || n == name@) by {
            if n == name@ {
                assert(views(names@)[p as int] == n);
            }
        }
        return;
    }
    proof {
        if p < len {
            lemma_lex_total(names@[p as int]@, name@);
        }
    }
    names.insert(p, name.clone());
    proof {
        let nv = names@;
        assert forall|i: int, j: int| 0 <= i < j < nv.len() implies lex_lt(nv[i]@, nv[j]@) by {
            if j < p {
                assert(nv[i] == old_names[i] && nv[j] == old_names[j]);
            } else if j == p {
                assert(nv[i] == old_names[i]);
            } else if i == p {
                assert(nv[j] == old_names[j - 1]);
                if j - 1 > p {
                    lemma_lex_transitive(name@, old_names[p as int]@, old_names[j - 1]@);
                }
            } else if i < p {
                assert(nv[i] == old_names[i] && nv[j] == old_names[j - 1]);
            } else {
                assert(nv[i] == old_names[i - 1] && nv[j] == old_names[j - 1]);
            }
        }
        assert forall|n: Seq<char>| views(nv).contains(n) <==> (views(old_names).contains(n) || n == name@) by {
            if views(nv).contains(n) {
                let k = choose|k: int| 0 <= k < views(nv).len() && views(nv)[k] == n;
                if k < p {
                    assert(views(old_names)[k] == n);
                } else if k > p {
                    assert(views(old_names)[k - 1] == n);
                }
            }
            if views(old_names).contains(n) {
                let k = choose|k: int| 0 <= k < views(old_names).len() && views(old_names)[k] == n;
                if k < p {
                    assert(views(nv)[k] == n);
                } else {
                    assert(views(nv)[k + 1] == n);
                }
            }
            if n == name@ {
                assert(views(nv)[p as int] == n);
            }
        }
    }
}

/// All names that occur in `baseline` or `current`, each once, in increasing order.
fn all_names<M>(baseline: &[BenchResult<M>], current: &[BenchResult<M>]) -> (names: Vec<String>)
    ensures
        strictly_sorted(names@),
        forall|n: Seq<char>|
            views(names@).contains(n) <==> (names_of(baseline@).contains(n) || names_of(
                current@,
            ).contains(n)),
{
    let mut names: Vec<String> = Vec::new();
    let bn = baseline.len();
    let cn = current.len();
    for i in 0..bn
        invariant
            bn == baseline@.len(),
            strictly_sorted(names@),
            forall|n: Seq<char>|
                views(names@).contains(n) <==> names_of(baseline@).take(i as int).contains(n),
    {
        let ghost before = names@;
        insert_name(&mut names, &baseline[i].name);
        proof {
            let t = names_of(baseline@).take(i + 1);
            assert(t =~= names_of(baseline@).take(i as int).push(baseline@[i as int].name@));
            assert forall|n: Seq<char>| views(names@).contains(n) <==> t.contains(n) by {
                if t.contains(n) && n != baseline@[i as int].name@ {
                    let k = choose|k: int| 0 <= k < t.len() && t[k] == n;
                    assert(names_of(baseline@).take(i as int)[k] == n);
                }
                if names_of(baseline@).take(i as int).contains(n) {
                    let k = choose|k: int|
                        0 <= k < names_of(baseline@).take(i as int).len() && names_of(
                            baseline@,
                        ).take(i as int)[k] == n;
                    assert(t[k] == n);
                }
                if n == baseline@[i as int].name@ {
                    assert(t[i as int] == n);
                }
            }
        }
    }
    assert(names_of(baseline@).take(bn as int) =~= names_of(baseline@));
    for j in 0..cn
        invariant
            bn == baseline@.len(),
            cn == current@.len(),
            strictly_sorted(names@),
            forall|n: Seq<char>|
                views(names@).contains(n) <==> (names_of(baseline@).contains(n) || names_of(
                    current@,
                ).take(j as int).contains(n)),
    {
        insert_name(&mut names, &current[j].name);
        proof {
            let t = names_of(current@).take(j + 1);
            assert(t =~= names_of(current@).take(j as int).push(current@[j as int].name@));
            assert forall|n: Seq<char>|
                views(names@).contains(n) <==> (names_of(baseline@).contains(n) || t.contains(
                    n,
                )) by {
                if t.contains(n) && n != current@[j as int].name@ {
                    let k = choose|k: int| 0 <= k < t.len() && t[k] == n;
                    assert(names_of(current@).take(j as int)[k] == n);
                }
                if names_of(current@).take(j as int).contains(n) {
                    let k = choose|k: int|
                        0 <= k < names_of(current@).take(j as int).len() && names_of(
                            current@,
                        ).take(j as int)[k] == n;
                    assert(t[k] == n);
                }
                if n == current@[j as int].name@ {
                    assert(t[j as int] == n);
                }
            }
        }
    }
    assert(names_of(current@).take(cn as int) =~= names_of(current@));
    names
}

impl<M: Copy> BenchComparison<M> {
    /// The comparison of `baseline` with `current` whose change is `delta`:
    /// named after the baseline, holding copies of both results, and
    /// classified by where the change lies relative to the threshold.
    pub fn from_delta(baseline: &BenchResult<M>, current: &BenchResult<M>, delta: Delta<M>) -> (r: Self)
        ensures
            r == comparison_from(*baseline, *current, delta),
            r.change_percent == delta.change_percent,
            r.confidence_interval == delta.confidence_interval,
            carried_percent(r.outcome) == Some(delta.change_percent),
            (r.outcome is Improved) <==> delta.below_threshold,
            (r.outcome is Regressed) <==> (!delta.below_threshold && delta.above_threshold),
    {
        BenchComparison {
            name: baseline.name.clone(),
            baseline: Some(baseline.duplicate()),
            current: Some(current.duplicate()),
            change_percent: delta.change_percent,
            confidence_interval: delta.confidence_interval,
            outcome: ComparisonOutcome::classify(
                delta.change_percent,
                delta.below_threshold,
                delta.above_threshold,
            ),
        }
    }

    /// An identical copy of this comparison.
    pub(crate) fn duplicate(&self) -> (r: Self)
        ensures
            r == *self,
    {
        BenchComparison {
            name: self.name.clone(),
            baseline: match &self.baseline {
                Some(b) => Some(b.duplicate()),
                None => None,
            },
            current: match &self.current {
                Some(c) => Some(c.duplicate()),
                None => None,
            },
            change_percent: self.change_percent,
            confidence_interval: self.confidence_interval,
            outcome: self.outcome.duplicate(),
        }
    }

    /// The comparison for a benchmark that only one run has.
    fn only_in(present: &BenchResult<M>, in_baseline: bool, missing: M) -> (r: Self)
        ensures
            only_in_one(r, *present, in_baseline, missing),
    {
        let which = if in_baseline {
            String::from_str("baseline")
        } else {
            String::from_str("current")
        };
        BenchComparison {
            name: present.name.clone(),
            baseline: if in_baseline {
                Some(present.duplicate())
            } else {
                None
            },
            current: if in_baseline {
                None
            } else {
                Some(present.duplicate())
            },
            change_percent: missing,
            confidence_interval: missing,
            outcome: ComparisonOutcome::OnlyInOne { which },
        }
    }

    /// Compare two full sets of benchmark results, matching by name.
    ///
    /// There is one comparison for each name that occurs in either set,
    /// in increasing order of name. When a set holds a name more than once,
    /// its last result with that name is the one compared. Where both sets
    /// have the name, `delta_of` measures the change between the two results
    /// against `threshold_percent`; where only one has it, the comparison says
    /// which one, and holds `missing` in place of the change figures.
    pub fn compare_sets<F: Fn(&BenchResult<M>, &BenchResult<M>, M) -> Delta<M>>(
        baseline: &[BenchResult<M>],
        current: &[BenchResult<M>],
        threshold_percent: M,
        delta_of: &F,
        missing: M,
    ) -> (r: Vec<Self>)
        requires
            forall|b: BenchResult<M>, c: BenchResult<M>|
                call_requires(*delta_of, (&b, &c, threshold_percent)),
        ensures
            are_comparisons_of(baseline@, current@, threshold_percent, *delta_of, missing, r@),
    {
        let names = all_names(baseline, current);
        let n = names.len();
        let mut out: Vec<Self> = Vec::new();
        for k in 0..n
            invariant
                n == names@.len(),
                strictly_sorted(names@),
                forall|x: Seq<char>|
                    views(names@).contains(x) <==> (names_of(baseline@).contains(x) || names_of(
                        current@,
                    ).contains(x)),
                forall|b: BenchResult<M>, c: BenchResult<M>|
                    call_requires(*delta_of, (&b, &c, threshold_percent)),
                out@.len() == k,
                forall|q: int| 0 <= q < k ==> #[trigger] out@[q].name@ == names@[q]@,
                forall|q: int|
                    0 <= q < k ==> #[trigger] is_comparison_of(
                        baseline@,
                        current@,
                        threshold_percent,
                        *delta_of,
                        missing,
                        out@[q],
                    ),
        {
            let name = &names[k];
            proof {
                assert(views(names@)[k as int] == name@);
                lemma_last_index_of(names_of(baseline@), name@);
                lemma_last_index_of(names_of(current@), name@);
            }
            let bi = last_position(baseline, name.as_str());
            let ci = last_position(current, name.as_str());
            let entry = match bi {
                Some(i) => {
                    assert(names_of(baseline@)[i as int] == name@);
                    match ci {
                        Some(j) => {
                            assert(names_of(current@)[j as int] == name@);
                            let d = delta_of(&baseline[i], &current[j], threshold_percent);
                            Self::from_delta(&baseline[i], &current[j], d)
                        },
                        None => Self::only_in(&baseline[i], true, missing),
                    }
                },
                None => {
                    // Every listed name occurs in at least one of the two sets.
                    assert(views(names@).contains(name@));
                    let j = ci.unwrap();
                    assert(names_of(current@)[j as int] == name@);
                    Self::only_in(&current[j], false, missing)
                },
            };
            out.push(entry);
        }
        proof {
            assert forall|i: int, j: int| 0 <= i < j < out@.len() implies lex_lt(
                out@[i].name@,
                out@[j].name@,
            ) by {
                assert(out@[i].name@ == names@[i]@);
                assert(out@[j].name@ == names@[j]@);
            }
            assert forall|x: Seq<char>|
                (names_of(baseline@).contains(x) || names_of(current@).contains(x)) <==> exists|
                    k: int,
                |
                    0 <= k < out@.len() && #[trigger] out@[k].name@ == x by {
                if names_of(baseline@).contains(x) || names_of(current@).contains(x) {
                    assert(views(names@).contains(x));
                    let k = choose|k: int| 0 <= k < views(names@).len() && views(names@)[k] == x;
                    assert(names@[k]@ == x);
                    assert(out@[k].name@ == x);
                }
                if exists|k: int| 0 <= k < out@.len() && #[trigger] out@[k].name@ == x {
                    let k = choose|k: int| 0 <= k < out@.len() && #[trigger] out@[k].name@ == x;
                    assert(out@[k].name@ == names@[k]@);
                    assert(views(names@)[k] == x);
                    assert(views(names@).contains(x));
                }
            }
        }
        out
    }
}

} // verus!
