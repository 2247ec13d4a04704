//! Parsing `cargo bench` (libtest) output.
use vstd::prelude::*;
use crate::bench_result::BenchResult;
use crate::text::{
    find, find_str, first_piece, first_piece_str, lemma_find_props, lemma_lines_join, lines,
    remove_commas, second_piece, second_piece_str, trim, trim_end_spaces, trim_end_spaces_str,
    trim_str, without_commas,
};

verus! {

/// One benchmark line of `cargo bench` output, taken apart.
///
/// The measurements are kept as the decimal text that the line holds, with
/// the thousands separators removed, ready to be read as numbers.
#[derive(Debug, Clone, PartialEq)]
pub struct ParsedLine {
    /// Benchmark function/test name
    pub name: String,
    /// The mean time per iteration in nanoseconds, as written
    pub mean_ns_text: String,
    /// The `(+/- ...)` deviation in nanoseconds, as written, when the line has one
    pub stddev_ns_text: Option<String>,
}

impl View for ParsedLine {
    type V = (Seq<char>, Seq<char>, Option<Seq<char>>);

    open spec fn view(&self) -> Self::V {
        (
            self.name@,
            self.mean_ns_text@,
            match self.stddev_ns_text {
                Some(s) => Some(s@),
                None => None,
            },
        )
    }
}

impl ParsedLine {
    /// The result that this line gives once its texts are read as numbers:
    /// `mean_ns` is read from the mean's text, and `stddev_ns` from the
    /// deviation's text when there is one that reads as a number. Standard
    /// output gives no median and no iteration count: the median is the mean,
    /// the deviation is `zero` when none was read, and the iterations are 0.
    pub fn to_result<M: Copy>(&self, mean_ns: M, stddev_ns: Option<M>, zero: M) -> (r: BenchResult<M>)
        ensures
            r.name == self.name,
            r.mean_ns == mean_ns,
            r.median_ns == mean_ns,
            r.stddev_ns == (match stddev_ns {
                Some(s) => s,
                None => zero,
            }),
            r.iterations == 0,
    {
        let stddev = match stddev_ns {
            Some(s) => s,
            None => zero,
        };
        BenchResult {
            name: self.name.clone(),
            mean_ns,
            median_ns: mean_ns,
            stddev_ns: stddev,
            iterations: 0,
        }
    }
}

/// The name in a benchmark line: the text after the first `"test "` and
/// before the first `" ... bench:"`, without the spaces that pad it into a
/// column before `" ... bench:"`, when that leaves a name.
pub open spec fn spec_extract_name(line: Seq<char>) -> Option<Seq<char>> {
    match find(line, "test "@) {
        None => None,
        Some(i) => match find(line, " ... bench:"@) {
            None => None,
            Some(end) => {
                let start = i + "test "@.len();
                if end <= start {
                    None
                } else {
                    let name = trim_end_spaces(line.subrange(start, end));
                    if name.len() == 0 {
                        None
                    } else {
                        Some(name)
                    }
                }
            },
        },
    }
}

/// The deviation in the part of a line after `"ns/iter"`: the text between
/// the first `"(+/- "` and the next `')'`, without commas.
pub open spec fn spec_extract_stddev(s: Seq<char>) -> Option<Seq<char>> {
    match find(s, "(+/- "@) {
        None => None,
        Some(i) => {
            let rest = s.skip(i + "(+/- "@.len());
            match find(rest, ")"@) {
                None => None,
                Some(end) => Some(without_commas(rest.take(end))),
            }
        },
    }
}

/// What a line of `cargo bench` output holds, when it is a benchmark line:
/// `test <name> ... bench: <mean> ns/iter (+/- <stddev>)`, surrounding
/// whitespace ignored.
pub open spec fn spec_parse_line(line: Seq<char>) -> Option<(Seq<char>, Seq<char>, Option<Seq<char>>)> {
    let t = trim(line);
    if find(t, "bench:"@) is None {
        None
    } else {
        match spec_extract_name(t) {
            None => None,
            Some(name) => {
                let bench_part = trim(second_piece(t, "bench:"@)->0);
                let mean = without_commas(trim(first_piece(bench_part, "ns/iter"@)));
                let stddev = match second_piece(bench_part, "ns/iter"@) {
                    Some(after) => spec_extract_stddev(after),
                    None => None,
                };
                Some((name, mean, stddev))
            },
        }
    }
}

/// The view of an optional parsed line.
pub open spec fn opt_view(p: Option<ParsedLine>) -> Option<(Seq<char>, Seq<char>, Option<Seq<char>>)> {
    match p {
        Some(p) => Some(p@),
        None => None,
    }
}

/// What a whole `cargo bench` output holds: each of its benchmark lines, in order.
pub open spec fn spec_parse(output: Seq<char>) -> Seq<(Seq<char>, Seq<char>, Option<Seq<char>>)> {
    lines(output).filter_map(|l: Seq<char>| spec_parse_line(l))
}

proof fn lemma_lines_without_newline(s: Seq<char>)
    requires
        !s.contains('\n'),
    ensures
        lines(s) == seq![s],
    decreases s.len(),
{
    if s.len() > 0 {
        assert(!s.drop_last().contains('\n')) by {
            if s.drop_last().contains('\n') {
                let k = choose|k: int| 0 <= k < s.drop_last().len() && s.drop_last()[k] == '\n';
                assert(s[k] == '\n');
            }
        }
        lemma_lines_without_newline(s.drop_last());
        assert(s.last() != '\n') by {
            if s.last() == '\n' {
                assert(s[s.len() - 1] == '\n');
            }
        }
        assert(s.drop_last().push(s.last()) =~= s);
        assert(seq![s.drop_last()].update(0, s.drop_last().push(s.last())) =~= seq![s]);
    } else {
        assert(s =~= Seq::<char>::empty());
    }
}

/// Output that is a single line holds what that line holds: parsing it as
/// a whole gives the line's benchmark, or nothing when it is not a benchmark line.
pub proof fn law_parse_of_one_line(line: Seq<char>)
    requires
        !line.contains('\n'),
    ensures
        spec_parse(line) == match spec_parse_line(line) {
            Some(p) => seq![p],
            None => Seq::empty(),
        },
{
    lemma_lines_without_newline(line);
    let f = |l: Seq<char>| spec_parse_line(l);
    assert(seq![line].drop_last() =~= Seq::<Seq<char>>::empty());
    assert(seq![line].last() == line);
    assert(Seq::<Seq<char>>::empty().filter_map(f) =~= Seq::empty());
    match spec_parse_line(line) {
        Some(p) => {
            assert(Seq::<(Seq<char>, Seq<char>, Option<Seq<char>>)>::empty() + seq![p] =~= seq![p]);
        },
        None => {},
    }
}

proof fn lemma_filter_map_join<A, B>(x: Seq<A>, y: Seq<A>, f: spec_fn(A) -> Option<B>)
    ensures
        (x + y).filter_map(f) == x.filter_map(f) + y.filter_map(f),
    decreases y.len(),
{
    if y.len() == 0 {
        assert(x + y =~= x);
        assert(y.filter_map(f) =~= Seq::<B>::empty());
        assert(x.filter_map(f) + Seq::<B>::empty() =~= x.filter_map(f));
    } else {
        lemma_filter_map_join(x, y.drop_last(), f);
        assert((x + y).drop_last() =~= x + y.drop_last());
        assert((x + y).last() == y.last());
        match f(y.last()) {
            Some(v) => {
                assert(x.filter_map(f) + y.drop_last().filter_map(f) + seq![v] =~= x.filter_map(f)
                    + (y.drop_last().filter_map(f) + seq![v]));
            },
            None => {},
        }
    }
}

/// Parsing two texts joined by a line break gives the results of the first
/// followed by those of the second, and an empty text holds no results.
pub proof fn law_parse_join(a: Seq<char>, b: Seq<char>)
    ensures
        spec_parse(a + seq!['\n'] + b) == spec_parse(a) + spec_parse(b),
        spec_parse(Seq::empty()) == Seq::<(Seq<char>, Seq<char>, Option<Seq<char>>)>::empty(),
{
    lemma_lines_join(a, b);
    let f = |l: Seq<char>| spec_parse_line(l);
    lemma_filter_map_join(lines(a), lines(b), f);
    reveal_strlit("bench:");
    let e = Seq::<char>::empty();
    assert(lines(e) =~= seq![e]);
    assert(trim(e) =~= e);
    assert(find(e, "bench:"@) is None);
    assert(spec_parse_line(e) is None);
    assert(seq![e].drop_last() =~= Seq::<Seq<char>>::empty());
    assert(seq![e].last() == e);
    assert(f(e) is None);
    assert(Seq::<Seq<char>>::empty().filter_map(f) =~= Seq::empty());
    assert(seq![e].filter_map(f) =~= Seq::empty());
}

/// Parses `cargo bench` output.
///
/// Supports the standard libtest benchmark format:
/// ```text
/// test bench_foo      ... bench:       2,345 ns/iter (+/- 120)
/// ```
pub struct BenchParser;

impl BenchParser {
    /// Parse a full `cargo bench` output string into its benchmark lines.
    pub fn parse(output: &str) -> (r: Vec<ParsedLine>)
        ensures
            r@.map_values(|p: ParsedLine| p@) == spec_parse(output@),
    {
        let ghost f = |l: Seq<char>| spec_parse_line(l);
        let chars = crate::text::chars_of(output);
        let n = chars.len();
        let mut out: Vec<ParsedLine> = Vec::new();
        let mut start: usize = 0;
        let mut i: usize = 0;
        proof {
            assert(output@.take(0) =~= Seq::<char>::empty());
            assert(lines(output@.take(0)) =~= seq![Seq::<char>::empty()]);
            assert(lines(output@.take(0)).drop_last() =~= Seq::<Seq<char>>::empty());
            assert(output@.subrange(0, 0) =~= Seq::<char>::empty());
        }
        while i < n
            invariant
                start <= i <= n,
                n == output@.len(),
                chars@ == output@,
                f == (|l: Seq<char>| spec_parse_line(l)),
                lines(output@.take(i as int)).len() >= 1,
                lines(output@.take(i as int)).last() == output@.subrange(start as int, i as int),
                out@.map_values(|p: ParsedLine| p@) == lines(output@.take(i as int)).drop_last().filter_map(f),
            decreases n - i,
        {
            let ghost prev = lines(output@.take(i as int));
            let ghost pre_out = out@.map_values(|p: ParsedLine| p@);
            assert(output@.take(i + 1).drop_last() =~= output@.take(i as int));
            assert(output@.take(i + 1).last() == chars@[i as int]);
            if chars[i] == '\n' {
                let line = output.substring_char(start, i);
                let parsed = Self::parse_line(line);
                proof {
                    let now = lines(output@.take(i + 1));
                    assert(now == prev.push(Seq::empty()));
                    assert(now.drop_last() =~= prev);
                    assert(prev =~= prev.drop_last().push(prev.last()));
                    assert(prev.last() == line@);
                }
                match parsed {
                    Some(p) => {
                        out.push(p);
                    },
                    None => {},
                }
                proof {
                    let now = lines(output@.take(i + 1));
                    assert(out@.map_values(|p: ParsedLine| p@) =~= now.drop_last().filter_map(f));
                }
                start = i + 1;
                proof {
                    assert(output@.subrange(start as int, (i + 1) as int) =~= Seq::<char>::empty());
                }
            } else {
                proof {
                    let now = lines(output@.take(i + 1));
                    assert(now == prev.update(prev.len() - 1, prev.last().push(chars@[i as int])));
                    assert(now.drop_last() =~= prev.drop_last());
                    assert(output@.subrange(start as int, (i + 1) as int) =~= output@.subrange(
                        start as int,
                        i as int,
                    ).push(chars@[i as int]));
                }
            }
            i = i + 1;
        }
        let line = output.substring_char(start, n);
        let parsed = Self::parse_line(line);
        proof {
            let all = lines(output@.take(n as int));
            assert(output@.take(n as int) =~= output@);
            assert(all =~= all.drop_last().push(all.last()));
            assert(all.last() == line@);
        }
        match parsed {
            Some(p) => {
                out.push(p);
            },
            None => {},
        }
        proof {
            let all = lines(output@);
            assert(out@.map_values(|p: ParsedLine| p@) =~= all.filter_map(f));
        }
        out
    }

    /// Parse a single benchmark output line.
    ///
    /// Matches `test <name> ... bench: <time> ns/iter (+/- <stddev>)`;
    /// the name is taken without the spaces that pad it into a column, and
    /// the deviation part is optional.
    pub fn parse_line(line: &str) -> (r: Option<ParsedLine>)
        ensures
            opt_view(r) == spec_parse_line(line@),
    {
        let line = trim_str(line);
        proof {
            lemma_find_props(line@, "bench:"@);
        }
        if find_str(line, "bench:").is_none() {
            return None;
        }
        // Extract name: everything between "test " and " ... bench:"
        let name = match Self::extract_name(line) {
            Some(name) => name,
            None => {
                return None;
            },
        };
        // Extract the timing value after "bench:"
        let bench_part = match second_piece_str(line, "bench:") {
            Some(part) => part,
            None => {
                return None;
            },
        };
        let bench_part = trim_str(bench_part);
        // "2,345 ns/iter (+/- 120)" or "2345 ns/iter (+/- 120)"
        let mean_part = first_piece_str(bench_part, "ns/iter");
        let mean_ns_text = remove_commas(trim_str(mean_part));
        let stddev_ns_text = match second_piece_str(bench_part, "ns/iter") {
            Some(after) => Self::extract_stddev(after),
            None => None,
        };
        Some(ParsedLine { name, mean_ns_text, stddev_ns_text })
    }

    /// The name in a benchmark line: the text after the first `"test "` and
    /// before the first `" ... bench:"`, without the spaces that pad it into
    /// a column before `" ... bench:"` (`test bench_foo      ... bench:`
    /// names `bench_foo`), when that leaves a name.
    pub fn extract_name(line: &str) -> (r: Option<String>)
        ensures
            r matches Some(n) ==> spec_extract_name(line@) == Some(n@),
            r is None ==> spec_extract_name(line@) is None,
    {
        proof {
            reveal_strlit("test ");
            lemma_find_props(line@, "test "@);
            lemma_find_props(line@, " ... bench:"@);
        }
        let start = match find_str(line, "test ") {
            Some(i) => i + 5,
            None => {
                return None;
            },
        };
        let end = match find_str(line, " ... bench:") {
            Some(e) => e,
            None => {
                return None;
            },
        };
        if end <= start {
            return None;
        }
        let name = trim_end_spaces_str(line.substring_char(start, end));
        if name.unicode_len() == 0 {
            return None;
        }
        Some(name.to_owned())
    }

    /// The deviation in the part of a line after `"ns/iter"`: the text
    /// between the first `"(+/- "` and the next `')'`, without commas.
    pub fn extract_stddev(s: &str) -> (r: Option<String>)
        ensures
            r matches Some(t) ==> spec_extract_stddev(s@) == Some(t@),
            r is None ==> spec_extract_stddev(s@) is None,
    {
        proof {
            reveal_strlit("(+/- ");
            lemma_find_props(s@, "(+/- "@);
        }
        let n = s.unicode_len();
        let start = match find_str(s, "(+/- ") {
            Some(i) => i + 5,
            None => {
                return None;
            },
        };
        let rest = s.substring_char(start, n);
        assert(rest@ =~= s@.skip(start as int));
        proof {
            lemma_find_props(rest@, ")"@);
        }
        let end = match find_str(rest, ")") {
            Some(e) => e,
            None => {
                return None;
            },
        };
        let num = rest.substring_char(0, end);
        assert(num@ =~= rest@.take(end as int));
        Some(remove_commas(num))
    }
}

} // verus!
