//! Markdown reports of benchmark comparisons.
use vstd::prelude::*;
use crate::bench_result::BenchResult;
use crate::bench_comparison::{BenchComparison, ComparisonOutcome};
use crate::regression_detector::{regressions, law_regressions_nonempty_iff_some_regressed};

verus! {

broadcast use vstd::string::group_string_axioms;

// ---------------------------------------------------------------------------
// Decimal numbers
// ---------------------------------------------------------------------------

/// The decimal digit for `d < 10`.
pub open spec fn digit_char(d: nat) -> char {
    if d == 0 {
        '0'
    } else if d == 1 {
        '1'
    } else if d == 2 {
        '2'
    } else if d == 3 {
        '3'
    } else if d == 4 {
        '4'
    } else if d == 5 {
        '5'
    } else if d == 6 {
        '6'
    } else if d == 7 {
        '7'
    } else if d == 8 {
        '8'
    } else {
        '9'
    }
}

/// The decimal representation of `n`, without leading zeros.
pub open spec fn decimal(n: nat) -> Seq<char>
    decreases n,
{
    if n < 10 {
        seq![digit_char(n)]
    } else {
        decimal(n / 10) + seq![digit_char(n % 10)]
    }
}

fn digit_str(d: usize) -> (r: &'static str)
    requires
        d < 10,
    ensures
        r@ == seq![digit_char(d as nat)],
{
    proof {
        reveal_strlit("0");
        reveal_strlit("1");
        reveal_strlit("2");
        reveal_strlit("3");
        reveal_strlit("4");
        reveal_strlit("5");
        reveal_strlit("6");
        reveal_strlit("7");
        reveal_strlit("8");
        reveal_strlit("9");
    }
    let r = if d == 0 {
        "0"
    } else if d == 1 {
        "1"
    } else if d == 2 {
        "2"
    } else if d == 3 {
        "3"
    } else if d == 4 {
        "4"
    } else if d == 5 {
        "5"
    } else if d == 6 {
        "6"
    } else if d == 7 {
        "7"
    } else if d == 8 {
        "8"
    } else {
        "9"
    };
    assert(r@ =~= seq![digit_char(d as nat)]);
    r
}

/// Append the decimal representation of `n` to `s`.
fn push_decimal(s: &mut String, n: usize)
    ensures
        final(s)@ == old(s)@ + decimal(n as nat),
    decreases n,
{
    if n < 10 {
        s.append(digit_str(n));
    } else {
        push_decimal(s, n / 10);
        s.append(digit_str(n % 10));
        assert(s@ =~= old(s)@ + decimal(n as nat));
    }
}

// ---------------------------------------------------------------------------
// Counting outcomes
// ---------------------------------------------------------------------------

/// How many comparisons in `cs` have an outcome that satisfies `p`.
pub open spec fn count<M>(cs: Seq<BenchComparison<M>>, p: spec_fn(ComparisonOutcome<M>) -> bool) -> nat
    decreases cs.len(),
{
    if cs.len() == 0 {
        0
    } else {
        count(cs.drop_last(), p) + if p(cs.last().outcome) {
            1nat
        } else {
            0nat
        }
    }
}

pub open spec fn improved<M>() -> spec_fn(ComparisonOutcome<M>) -> bool {
    |o: ComparisonOutcome<M>| o is Improved
}

pub open spec fn unchanged<M>() -> spec_fn(ComparisonOutcome<M>) -> bool {
    |o: ComparisonOutcome<M>| o is Unchanged
}

pub open spec fn regressed<M>() -> spec_fn(ComparisonOutcome<M>) -> bool {
    |o: ComparisonOutcome<M>| o is Regressed
}

pub open spec fn one_sided<M>() -> spec_fn(ComparisonOutcome<M>) -> bool {
    |o: ComparisonOutcome<M>| o is OnlyInOne
}

proof fn lemma_count_le<M>(cs: Seq<BenchComparison<M>>, p: spec_fn(ComparisonOutcome<M>) -> bool)
    ensures
        count(cs, p) <= cs.len(),
    decreases cs.len(),
{
    if cs.len() > 0 {
        lemma_count_le(cs.drop_last(), p);
    }
}

/// Every comparison has exactly one of the four outcomes, so the four counts
/// of the report's summary line add up to the number of comparisons.
pub proof fn law_counts_add_up<M>(cs: Seq<BenchComparison<M>>)
    ensures
        count(cs, improved()) + count(cs, unchanged()) + count(cs, regressed()) + count(
            cs,
            one_sided(),
        ) == cs.len(),
    decreases cs.len(),
{
    if cs.len() > 0 {
        law_counts_add_up(cs.drop_last());
    }
}

proof fn lemma_count_is_filter_len<M>(cs: Seq<BenchComparison<M>>, p: spec_fn(ComparisonOutcome<M>) -> bool)
    ensures
        count(cs, p) == cs.filter(|c: BenchComparison<M>| p(c.outcome)).len(),
    decreases cs.len(),
{
    reveal(Seq::filter);
    if cs.len() > 0 {
        lemma_count_is_filter_len(cs.drop_last(), p);
    }
}

/// The benchmarks among `cs` that improved, in order.
pub open spec fn improvements<M>(cs: Seq<BenchComparison<M>>) -> Seq<BenchComparison<M>> {
    cs.filter(|c: BenchComparison<M>| c.outcome is Improved)
}

/// The brief summary counts all the comparisons: when some benchmark
/// regressed, it gives the number of regressions (those that `detect`
/// picks out) out of the number of all comparisons; otherwise, when some
/// improved, it gives no regressions across all of them with the number of
/// improvements; otherwise it gives all of them unchanged.
pub proof fn law_summary_counts<M>(cs: Seq<BenchComparison<M>>)
    ensures
        (exists|k: int| 0 <= k < cs.len() && (#[trigger] cs[k]).outcome is Regressed) ==> brief(cs)
            == "⚠️ "@ + decimal(regressions(cs).len()) + " regression(s) detected out of "@
            + decimal(cs.len()) + " benchmarks"@,
        !(exists|k: int| 0 <= k < cs.len() && (#[trigger] cs[k]).outcome is Regressed) && improvements(
            cs,
        ).len() > 0 ==> brief(cs) == "✅ No regressions across "@ + decimal(cs.len())
            + " benchmarks ("@ + decimal(improvements(cs).len()) + " improved)"@,
        !(exists|k: int| 0 <= k < cs.len() && (#[trigger] cs[k]).outcome is Regressed)
            && improvements(cs).len() == 0 ==> brief(cs) == "✅ All "@ + decimal(cs.len())
            + " benchmarks unchanged"@,
{
    lemma_count_is_filter_len(cs, regressed());
    lemma_count_is_filter_len(cs, improved());
    assert((|c: BenchComparison<M>| regressed()(c.outcome)) =~= (|c: BenchComparison<M>| c.outcome is Regressed));
    assert((|c: BenchComparison<M>| improved()(c.outcome)) =~= (|c: BenchComparison<M>| c.outcome is Improved));
    law_regressions_nonempty_iff_some_regressed(cs);
}

/// The unchanged benchmarks among `cs`, in order.
pub open spec fn unchanged_ones<M>(cs: Seq<BenchComparison<M>>) -> Seq<BenchComparison<M>> {
    cs.filter(|c: BenchComparison<M>| c.outcome is Unchanged)
}

/// The benchmarks among `cs` that only one run has, in order.
pub open spec fn one_sided_ones<M>(cs: Seq<BenchComparison<M>>) -> Seq<BenchComparison<M>> {
    cs.filter(|c: BenchComparison<M>| c.outcome is OnlyInOne)
}

/// The report's summary line counts each kind of outcome under its own
/// legend: the improvements under `🟢 improved`, the unchanged benchmarks
/// under `🟡 unchanged`, the regressions under `🔴 regressed`, and, when
/// there are any, the benchmarks of one run only under `➖ only in one run`.
pub proof fn law_summary_line_counts<M>(cs: Seq<BenchComparison<M>>)
    ensures
        summary_line(cs) == "**Summary:** "@ + decimal(improvements(cs).len()) + " 🟢 improved | "@
            + decimal(unchanged_ones(cs).len()) + " 🟡 unchanged | "@ + decimal(
            regressions(cs).len(),
        ) + " 🔴 regressed"@ + if one_sided_ones(cs).len() > 0 {
            " | "@ + decimal(one_sided_ones(cs).len()) + " ➖ only in one run"@
        } else {
            Seq::empty()
        },
{
    lemma_count_is_filter_len(cs, regressed());
    lemma_count_is_filter_len(cs, improved());
    lemma_count_is_filter_len(cs, unchanged());
    lemma_count_is_filter_len(cs, one_sided());
    assert((|c: BenchComparison<M>| regressed()(c.outcome)) =~= (|c: BenchComparison<M>| c.outcome is Regressed));
    assert((|c: BenchComparison<M>| improved()(c.outcome)) =~= (|c: BenchComparison<M>| c.outcome is Improved));
    assert((|c: BenchComparison<M>| unchanged()(c.outcome)) =~= (|c: BenchComparison<M>| c.outcome is Unchanged));
    assert((|c: BenchComparison<M>| one_sided()(c.outcome)) =~= (|c: BenchComparison<M>| c.outcome is OnlyInOne));
}

/// The number that a sequence of decimal digits writes.
pub open spec fn digits_value(s: Seq<char>) -> int
    decreases s.len(),
{
    if s.len() == 0 {
        0
    } else {
        digits_value(s.drop_last()) * 10 + (s.last() as int - '0' as int)
    }
}

proof fn lemma_digit_char(d: nat)
    requires
        d < 10,
    ensures
        digit_char(d) as int - '0' as int == d,
        '0' <= digit_char(d) <= '9',
{
}

/// `decimal(n)` writes `n` in decimal: it is made of the digits `'0'` to
/// `'9'`, it reads back as `n`, and it has no leading zero (`0` is written `"0"`).
pub proof fn law_decimal_writes_the_number(n: nat)
    ensures
        forall|i: int| 0 <= i < decimal(n).len() ==> '0' <= #[trigger] decimal(n)[i] <= '9',
        digits_value(decimal(n)) == n,
        decimal(n).len() >= 1,
        decimal(n)[0] == '0' ==> n == 0,
    decreases n,
{
    if n < 10 {
        lemma_digit_char(n);
        assert(decimal(n).drop_last() =~= Seq::<char>::empty());
        assert(decimal(n).last() == digit_char(n));
        assert(digits_value(Seq::<char>::empty()) == 0);
        assert(digits_value(decimal(n)) == digits_value(decimal(n).drop_last()) * 10 + (digit_char(n) as int - '0' as int));
    } else {
        lemma_digit_char(n % 10);
        law_decimal_writes_the_number(n / 10);
        let d = decimal(n);
        let h = decimal(n / 10);
        assert(d == h + seq![digit_char(n % 10)]);
        assert(d.drop_last() =~= h);
        assert(d[0] == h[0]);
        assert(n == (n / 10) * 10 + n % 10);
        assert(d.last() == digit_char(n % 10));
        assert(digits_value(d) == digits_value(h) * 10 + (digit_char(n % 10) as int - '0' as int));
        assert forall|i: int| 0 <= i < d.len() implies '0' <= #[trigger] d[i] <= '9' by {
            if i < h.len() {
                assert(d[i] == h[i]);
            }
        }
    }
}

/// The numbers of improved, unchanged, regressed and one-sided comparisons in `cs`.
fn tally<M>(cs: &[BenchComparison<M>]) -> (r: (usize, usize, usize, usize))
    ensures
        r.0 == count(cs@, improved()),
        r.1 == count(cs@, unchanged()),
        r.2 == count(cs@, regressed()),
        r.3 == count(cs@, one_sided()),
{
    let n = cs.len();
    let mut a: usize = 0;
    let mut b: usize = 0;
    let mut c: usize = 0;
    let mut d: usize = 0;
    assert(cs@.take(0) =~= Seq::<BenchComparison<M>>::empty());
    for i in 0..n
        invariant
            n == cs@.len(),
            a == count(cs@.take(i as int), improved()),
            b == count(cs@.take(i as int), unchanged()),
            c == count(cs@.take(i as int), regressed()),
            d == count(cs@.take(i as int), one_sided()),
            a + b + c + d <= i,
    {
        assert(cs@.take(i + 1).drop_last() =~= cs@.take(i as int));
        assert(cs@.take(i + 1).last() == cs@[i as int]);
        match &cs[i].outcome {
            ComparisonOutcome::Improved { .. } => {
                a = a + 1;
            },
            ComparisonOutcome::Unchanged { .. } => {
                b = b + 1;
            },
            ComparisonOutcome::Regressed { .. } => {
                c = c + 1;
            },
            ComparisonOutcome::OnlyInOne { .. } => {
                d = d + 1;
            },
        }
    }
    assert(cs@.take(n as int) =~= cs@);
    (a, b, c, d)
}

// ---------------------------------------------------------------------------
// The report
// ---------------------------------------------------------------------------

/// The summary line of the report.
pub open spec fn summary_line<M>(cs: Seq<BenchComparison<M>>) -> Seq<char> {
    "**Summary:** "@ + decimal(count(cs, improved())) + " 🟢 improved | "@ + decimal(
        count(cs, unchanged()),
    ) + " 🟡 unchanged | "@ + decimal(count(cs, regressed())) + " 🔴 regressed"@ + if count(
        cs,
        one_sided(),
    ) > 0 {
        " | "@ + decimal(count(cs, one_sided())) + " ➖ only in one run"@
    } else {
        Seq::empty()
    }
}

/// The status indicator of an outcome.
pub open spec fn indicator<M>(o: ComparisonOutcome<M>) -> Seq<char> {
    match o {
        ComparisonOutcome::Improved { .. } => "🟢"@,
        ComparisonOutcome::Unchanged { .. } => "🟡"@,
        ComparisonOutcome::Regressed { .. } => "🔴"@,
        ComparisonOutcome::OnlyInOne { .. } => "➖"@,
    }
}

/// `cell` is what the report shows for a run's result: the mean time as
/// `format_ns` writes it, followed by `" ns"`, or `"—"` when there is no result.
pub open spec fn time_cell<M, FN: Fn(&M) -> String>(r: Option<BenchResult<M>>, format_ns: FN, cell: Seq<char>) -> bool {
    match r {
        Some(b) => exists|s: String| call_ensures(format_ns, (&b.mean_ns,), s) && cell == s@ + " ns"@,
        None => cell == "—"@,
    }
}

/// `cell` is what the report shows for the change of an outcome: the
/// percentage as `format_percent` writes it, followed by `"%"`, or
/// `"only in "` followed by the run's name.
pub open spec fn change_cell<M, FP: Fn(&M) -> String>(o: ComparisonOutcome<M>, format_percent: FP, cell: Seq<char>) -> bool {
    match o {
        ComparisonOutcome::Improved { percent } => exists|s: String|
            call_ensures(format_percent, (&percent,), s) && cell == s@ + "%"@,
        ComparisonOutcome::Unchanged { percent } => exists|s: String|
            call_ensures(format_percent, (&percent,), s) && cell == s@ + "%"@,
        ComparisonOutcome::Regressed { percent } => exists|s: String|
            call_ensures(format_percent, (&percent,), s) && cell == s@ + "%"@,
        ComparisonOutcome::OnlyInOne { which } => cell == "only in "@ + which@,
    }
}

/// The cells of a comparison's row: baseline, current and change.
pub open spec fn cells_of<M, FN: Fn(&M) -> String, FP: Fn(&M) -> String>(
    c: BenchComparison<M>,
    format_ns: FN,
    format_percent: FP,
    cells: (Seq<char>, Seq<char>, Seq<char>),
) -> bool {
    &&& time_cell(c.baseline, format_ns, cells.0)
    &&& time_cell(c.current, format_ns, cells.1)
    &&& change_cell(c.outcome, format_percent, cells.2)
}

/// A table row of the report.
pub open spec fn row<M>(c: BenchComparison<M>, cells: (Seq<char>, Seq<char>, Seq<char>)) -> Seq<char> {
    "| "@ + c.name@ + " | "@ + cells.0 + " | "@ + cells.1 + " | "@ + cells.2 + " | "@ + indicator(
        c.outcome,
    ) + " |\n"@
}

/// Each report row ends with the status marker of its outcome, the one the
/// summary line's legend uses, then `" |"` and a line break: `'🔴'` exactly
/// when the benchmark regressed, `'🟢'` exactly when it improved, `'🟡'`
/// exactly when it is unchanged and `'➖'` exactly when only one run has it.
pub proof fn law_row_status<M>(c: BenchComparison<M>, cells: (Seq<char>, Seq<char>, Seq<char>))
    ensures
        row(c, cells).len() >= 4,
        row(c, cells).subrange(row(c, cells).len() - 3, row(c, cells).len() as int) == seq![
            ' ',
            '|',
            '\n',
        ],
        (row(c, cells)[row(c, cells).len() - 4] == '🔴') <==> (c.outcome is Regressed),
        (row(c, cells)[row(c, cells).len() - 4] == '🟢') <==> (c.outcome is Improved),
        (row(c, cells)[row(c, cells).len() - 4] == '🟡') <==> (c.outcome is Unchanged),
        (row(c, cells)[row(c, cells).len() - 4] == '➖') <==> (c.outcome is OnlyInOne),
{
    reveal_strlit("🔴");
    reveal_strlit("🟢");
    reveal_strlit("🟡");
    reveal_strlit("➖");
    reveal_strlit(" |\n");
    let r = row(c, cells);
    let pre = "| "@ + c.name@ + " | "@ + cells.0 + " | "@ + cells.1 + " | "@ + cells.2 + " | "@;
    let mark = indicator(c.outcome);
    assert(mark.len() == 1);
    assert(r == pre + mark + " |\n"@);
    assert(r.len() == pre.len() + 4);
    assert(r[r.len() - 4] == mark[0]);
    assert(r.subrange(r.len() - 3, r.len() as int) =~= " |\n"@);
}

/// The table rows of the report, one per comparison, in order.
pub open spec fn rows<M>(cs: Seq<BenchComparison<M>>, cells: Seq<(Seq<char>, Seq<char>, Seq<char>)>) -> Seq<char>
    decreases cs.len(),
{
    if cs.len() == 0 {
        Seq::empty()
    } else {
        rows(cs.drop_last(), cells.drop_last()) + row(cs.last(), cells.last())
    }
}

/// The whole report: title, summary line, table header, rows.
pub open spec fn report<M>(cs: Seq<BenchComparison<M>>, cells: Seq<(Seq<char>, Seq<char>, Seq<char>)>) -> Seq<char> {
    "# Benchmark Report\n\n"@ + summary_line(cs) + "\n\n"@
        + "| Benchmark | Baseline | Current | Change | Status |\n"@
        + "|-----------|----------|---------|--------|--------|\n"@ + rows(cs, cells)
}

/// The brief summary: no regressions but some improvements, some
/// regressions, or everything unchanged.
pub open spec fn brief<M>(cs: Seq<BenchComparison<M>>) -> Seq<char> {
    let r = count(cs, regressed());
    let i = count(cs, improved());
    let total = cs.len();
    if r == 0 && i > 0 {
        "✅ No regressions across "@ + decimal(total) + " benchmarks ("@ + decimal(i)
            + " improved)"@
    } else if r > 0 {
        "⚠️ "@ + decimal(r) + " regression(s) detected out of "@ + decimal(total)
            + " benchmarks"@
    } else {
        "✅ All "@ + decimal(total) + " benchmarks unchanged"@
    }
}

/// Generates markdown reports from benchmark comparisons.
pub struct BenchReport;

impl BenchReport {
    /// Append the cell for a run's result to `md`.
    fn push_time_cell<M, FN: Fn(&M) -> String>(md: &mut String, r: &Option<BenchResult<M>>, format_ns: &FN) -> (cell: Ghost<Seq<char>>)
        requires
            forall|m: M| call_requires(*format_ns, (&m,)),
        ensures
            final(md)@ == old(md)@ + cell@,
            time_cell(*r, *format_ns, cell@),
    {
        match r {
            Some(b) => {
                let s = format_ns(&b.mean_ns);
                md.append(s.as_str());
                md.append(" ns");
                Ghost(s@ + " ns"@)
            },
            None => {
                md.append("—");
                Ghost("—"@)
            },
        }
    }

    /// Append the cell for the change of an outcome to `md`.
    fn push_change_cell<M, FP: Fn(&M) -> String>(md: &mut String, o: &ComparisonOutcome<M>, format_percent: &FP) -> (cell: Ghost<Seq<char>>)
        requires
            forall|m: M| call_requires(*format_percent, (&m,)),
        ensures
            final(md)@ == old(md)@ + cell@,
            change_cell(*o, *format_percent, cell@),
    {
        match o {
            ComparisonOutcome::Improved { percent } | ComparisonOutcome::Unchanged { percent }
            | ComparisonOutcome::Regressed { percent } => {
                let s = format_percent(percent);
                md.append(s.as_str());
                md.append("%");
                Ghost(s@ + "%"@)
            },
            ComparisonOutcome::OnlyInOne { which } => {
                md.append("only in ");
                md.append(which.as_str());
                Ghost("only in "@ + which@)
            },
        }
    }

    /// The status indicator of an outcome.
    fn indicator_str<M>(o: &ComparisonOutcome<M>) -> (r: &'static str)
        ensures
            r@ == indicator(*o),
    {
        match o {
            ComparisonOutcome::Improved { .. } => "🟢",
            ComparisonOutcome::Unchanged { .. } => "🟡",
            ComparisonOutcome::Regressed { .. } => "🔴",
            ComparisonOutcome::OnlyInOne { .. } => "➖",
        }
    }

    /// Append the table row of `c` to `md`.
    fn push_row<M, FN: Fn(&M) -> String, FP: Fn(&M) -> String>(
        md: &mut String,
        c: &BenchComparison<M>,
        format_ns: &FN,
        format_percent: &FP,
    ) -> (cells: Ghost<(Seq<char>, Seq<char>, Seq<char>)>)
        requires
            forall|m: M| call_requires(*format_ns, (&m,)),
            forall|m: M| call_requires(*format_percent, (&m,)),
        ensures
            final(md)@ == old(md)@ + row(*c, cells@),
            cells_of(*c, *format_ns, *format_percent, cells@),
    {
        md.append("| ");
        md.append(c.name.as_str());
        md.append(" | ");
        let base_cell = Self::push_time_cell(md, &c.baseline, format_ns);
        md.append(" | ");
        let cur_cell = Self::push_time_cell(md, &c.current, format_ns);
        md.append(" | ");
        let change = Self::push_change_cell(md, &c.outcome, format_percent);
        md.append(" | ");
        md.append(Self::indicator_str(&c.outcome));
        md.append(" |\n");
        let ghost cells = (base_cell@, cur_cell@, change@);
        assert(md@ =~= old(md)@ + row(*c, cells));
        Ghost(cells)
    }

    /// Generate a markdown report from a list of comparisons.
    ///
    /// The mean times are written by `format_ns` and the percentage changes
    /// by `format_percent`; the report adds their units.
    pub fn generate<M, FN: Fn(&M) -> String, FP: Fn(&M) -> String>(
        comparisons: &[BenchComparison<M>],
        format_ns: &FN,
        format_percent: &FP,
    ) -> (r: String)
        requires
            forall|m: M| call_requires(*format_ns, (&m,)),
            forall|m: M| call_requires(*format_percent, (&m,)),
        ensures
            exists|cells: Seq<(Seq<char>, Seq<char>, Seq<char>)>|
                cells.len() == comparisons@.len() && (forall|k: int|
                    0 <= k < comparisons@.len() ==> #[trigger] cells_of(
                        comparisons@[k],
                        *format_ns,
                        *format_percent,
                        cells[k],
                    )) && r@ == report(comparisons@, cells),
    {
        let mut md = String::new();
        md.append("# Benchmark Report\n\n");
        let (improved_n, unchanged_n, regressed_n, only_n) = tally(comparisons);
        md.append("**Summary:** ");
        push_decimal(&mut md, improved_n);
        md.append(" 🟢 improved | ");
        push_decimal(&mut md, unchanged_n);
        md.append(" 🟡 unchanged | ");
        push_decimal(&mut md, regressed_n);
        md.append(" 🔴 regressed");
        let ghost before_only = md@;
        if only_n > 0 {
            md.append(" | ");
            push_decimal(&mut md, only_n);
            md.append(" ➖ only in one run");
        }
        assert(md@ =~= "# Benchmark Report\n\n"@ + summary_line(comparisons@)) by {
            if only_n == 0 {
                assert(before_only + Seq::<char>::empty() =~= before_only);
            }
        }
        md.append("\n\n");
        md.append("| Benchmark | Baseline | Current | Change | Status |\n");
        md.append("|-----------|----------|---------|--------|--------|\n");
        let ghost head = md@;
        let ghost mut cells: Seq<(Seq<char>, Seq<char>, Seq<char>)> = Seq::empty();
        let n = comparisons.len();
        assert(comparisons@.take(0) =~= Seq::<BenchComparison<M>>::empty());
        assert(head + rows(comparisons@.take(0), cells) =~= head);
        for i in 0..n
            invariant
                n == comparisons@.len(),
                forall|m: M| call_requires(*format_ns, (&m,)),
                forall|m: M| call_requires(*format_percent, (&m,)),
                cells.len() == i,
                forall|k: int|
                    0 <= k < i ==> #[trigger] cells_of(
                        comparisons@[k],
                        *format_ns,
                        *format_percent,
                        cells[k],
                    ),
                md@ == head + rows(comparisons@.take(i as int), cells),
        {
            let c = &comparisons[i];
            let cell = Self::push_row(&mut md, c, format_ns, format_percent);
            proof {
                let old_cells = cells;
                cells = cells.push(cell@);
                assert(comparisons@.take(i + 1).drop_last() =~= comparisons@.take(i as int));
                assert(comparisons@.take(i + 1).last() == comparisons@[i as int]);
                assert(cells.drop_last() =~= old_cells);
                assert(md@ =~= head + rows(comparisons@.take(i + 1), cells));
            }
        }
        assert(comparisons@.take(n as int) =~= comparisons@);
        md
    }

    /// Generate a brief summary string (suitable for CI comments).
    pub fn summary<M>(comparisons: &[BenchComparison<M>]) -> (r: String)
        ensures
            r@ == brief(comparisons@),
            (exists|k: int|
                0 <= k < comparisons@.len() && (#[trigger] comparisons@[k]).outcome is Regressed)
                ==> r@ == "⚠️ "@ + decimal(regressions(comparisons@).len())
                + " regression(s) detected out of "@ + decimal(comparisons@.len()) + " benchmarks"@,
    {
        proof {
            law_summary_counts(comparisons@);
        }
        let (improved_n, _unchanged_n, regressed_n, _only_n) = tally(comparisons);
        let total = comparisons.len();
        let mut s = String::new();
        if regressed_n == 0 && improved_n > 0 {
            s.append("✅ No regressions across ");
            push_decimal(&mut s, total);
            s.append(" benchmarks (");
            push_decimal(&mut s, improved_n);
            s.append(" improved)");
        } else if regressed_n > 0 {
            s.append("⚠️ ");
            push_decimal(&mut s, regressed_n);
            s.append(" regression(s) detected out of ");
            push_decimal(&mut s, total);
            s.append(" benchmarks");
        } else {
            s.append("✅ All ");
            push_decimal(&mut s, total);
            s.append(" benchmarks unchanged");
        }
        s
    }
}

} // verus!
