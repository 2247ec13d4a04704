use bench_compare::{BenchParser, BenchResult, ParsedLine};

fn stddev(p: &ParsedLine) -> f64 {
    p.stddev_ns_text
        .as_ref()
        .and_then(|t| t.parse::<f64>().ok())
        .unwrap_or(0.0)
}

/// The result a line gives with its texts read as `f64`.
fn parse_result(line: &str) -> Option<BenchResult<f64>> {
    let p = BenchParser::parse_line(line)?;
    let mean: f64 = p.mean_ns_text.parse().ok()?;
    let sd = p.stddev_ns_text.as_ref().and_then(|t| t.parse::<f64>().ok());
    Some(p.to_result(mean, sd, 0.0))
}

#[test]
fn parse_single_line() {
    let result = parse_result(
        "test bench_encode ... bench:       2,345 ns/iter (+/- 120)"
    ).unwrap();
    assert_eq!(result.name, "bench_encode");
    assert_eq!(result.mean_ns, 2345.0);
    assert_eq!(result.stddev_ns, 120.0);
}

#[test]
fn parse_line_no_commas() {
    let result = parse_result(
        "test bench_decode ... bench:         987 ns/iter (+/- 45)"
    ).unwrap();
    assert_eq!(result.name, "bench_decode");
    assert_eq!(result.mean_ns, 987.0);
    assert_eq!(result.stddev_ns, 45.0);
}

#[test]
fn parse_full_output() {
    let output = r#"
running 3 tests
test bench_foo ... bench:       1,000 ns/iter (+/- 50)
test bench_bar ... bench:       2,500 ns/iter (+/- 100)
test bench_baz ... bench:       5,000 ns/iter (+/- 200)

test result: ok. 0 passed; 0 failed; 0 ignored; 0 measured; 3 filtered out
"#;
    let results = BenchParser::parse(output);
    assert_eq!(results.len(), 3);
    assert_eq!(results[0].name, "bench_foo");
    assert_eq!(results[1].name, "bench_bar");
    assert_eq!(results[2].name, "bench_baz");
}

#[test]
fn parse_ignores_non_bench_lines() {
    assert!(BenchParser::parse_line("test bench_foo ... ok").is_none());
    assert!(BenchParser::parse_line("running 3 tests").is_none());
}

#[test]
fn parse_large_numbers() {
    let result = parse_result(
        "test bench_heavy ... bench:  12,345,678 ns/iter (+/- 1,234)"
    ).unwrap();
    assert_eq!(result.mean_ns, 12345678.0);
    assert_eq!(result.stddev_ns, 1234.0);
}

#[test]
fn parsed_line_without_deviation_gives_zero_median_mean_no_iterations() {
    let r = parse_result("test x ... bench: 100 ns/iter").unwrap();
    assert_eq!(r, BenchResult::new("x", 100.0, 100.0, 0.0, 0));
    let r = parse_result("test y ... bench: 7 ns/iter (+/- oops)").unwrap();
    assert_eq!(r, BenchResult::new("y", 7.0, 7.0, 0.0, 0));
    assert!(parse_result("test z ... bench: fast ns/iter").is_none());
}

#[test]
fn name_keeps_all_but_trailing_padding_spaces() {
    assert_eq!(BenchParser::extract_name("test  x ... bench: 1").as_deref(), Some(" x"));
    assert_eq!(BenchParser::extract_name("test x\t ... bench: 1").as_deref(), Some("x\t"));
    assert_eq!(BenchParser::extract_name("test a b   ... bench: 1").as_deref(), Some("a b"));
}

#[test]
fn parse_line_keeps_texts_exactly() {
    let result = BenchParser::parse_line(
        "   test a::b ... bench:  1,234,567 ns/iter (+/- 8,9)  \r"
    ).unwrap();
    assert_eq!(result.name, "a::b");
    assert_eq!(result.mean_ns_text, "1234567");
    assert_eq!(result.stddev_ns_text.as_deref(), Some("89"));
}

#[test]
fn parse_line_without_deviation() {
    let result = BenchParser::parse_line("test quick ... bench: 17 ns/iter").unwrap();
    assert_eq!(result.name, "quick");
    assert_eq!(result.mean_ns_text, "17");
    assert_eq!(result.stddev_ns_text, None);
    assert_eq!(stddev(&result), 0.0);
}

#[test]
fn parse_line_unclosed_deviation() {
    let result = BenchParser::parse_line("test t ... bench: 5 ns/iter (+/- 3").unwrap();
    assert_eq!(result.stddev_ns_text, None);
}

#[test]
fn parse_line_without_ns_iter_keeps_the_rest_as_mean() {
    let result = BenchParser::parse_line("test t ... bench: 5 units").unwrap();
    assert_eq!(result.mean_ns_text, "5 units");
    assert!(result.mean_ns_text.parse::<f64>().is_err());
}

#[test]
fn parse_line_needs_a_name() {
    // "bench:" present but no " ... bench:" separator
    assert!(BenchParser::parse_line("test foo bench: 5 ns/iter").is_none());
    // the separator comes right after "test ": the name would be empty
    assert!(BenchParser::parse_line("test  ... bench: 5 ns/iter").is_none());
}

#[test]
fn extract_name_cases() {
    assert_eq!(
        BenchParser::extract_name("test foo ... bench: 1 ns/iter").as_deref(),
        Some("foo")
    );
    assert_eq!(BenchParser::extract_name("foo ... bench: 1 ns/iter"), None);
    assert_eq!(BenchParser::extract_name(" ... bench: test x"), None);
    assert_eq!(
        BenchParser::extract_name("xtest héllo wörld ... bench: 3").as_deref(),
        Some("héllo wörld")
    );
}

#[test]
fn extract_stddev_cases() {
    assert_eq!(BenchParser::extract_stddev(" (+/- 1,2,3)").as_deref(), Some("123"));
    assert_eq!(BenchParser::extract_stddev(" (+/- 7) (+/- 9)").as_deref(), Some("7"));
    assert_eq!(BenchParser::extract_stddev("(+- 7)"), None);
}

#[test]
fn parse_handles_crlf_and_missing_final_newline() {
    let output = "test a ... bench: 1 ns/iter (+/- 0)\r\nnoise\r\ntest b ... bench: 2 ns/iter";
    let results = BenchParser::parse(output);
    assert_eq!(results.len(), 2);
    assert_eq!(results[0].name, "a");
    assert_eq!(results[1].name, "b");
    assert_eq!(results[1].mean_ns_text, "2");
}

#[test]
fn parse_of_one_line_equals_parse_line() {
    let line = "test one ... bench: 3 ns/iter (+/- 1)";
    let all = BenchParser::parse(line);
    let single = BenchParser::parse_line(line).unwrap();
    assert_eq!(all, vec![single]);
    assert!(BenchParser::parse("").is_empty());
}

#[test]
fn parse_line_padded_name() {
    let result = parse_result(
        "test bench_foo      ... bench:       2,345 ns/iter (+/- 120)"
    ).unwrap();
    assert_eq!(result.name, "bench_foo");
    assert_eq!(result.mean_ns, 2345.0);
    assert_eq!(result.stddev_ns, 120.0);
    assert_eq!(
        BenchParser::extract_name("test bench_foo      ... bench: 1 ns/iter").as_deref(),
        Some("bench_foo")
    );
    // a name made only of padding is no name
    assert_eq!(BenchParser::extract_name("test      ... bench: 1 ns/iter"), None);
}

#[test]
fn parse_of_joined_text_is_joined_results() {
    let a = "test a ... bench: 1 ns/iter\nnoise";
    let b = "test b ... bench: 2 ns/iter (+/- 1)";
    let joined = format!("{}\n{}", a, b);
    let mut expected = BenchParser::parse(a);
    expected.extend(BenchParser::parse(b));
    assert_eq!(BenchParser::parse(&joined), expected);
}
