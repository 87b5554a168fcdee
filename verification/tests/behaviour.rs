use ouro::config::{config_candidates, default_files, default_prefix, find_config_file, DEFAULT_FILES_GLOB};
use ouro::diff::{diff_pieces, render_diff, LineChange, Piece, Style};
use ouro::parser::{parse_source, ParseError};
use ouro::patterns::{DefaultPatterns, PatternSet};
use ouro::reporter::{exit_report_pieces, outcome_pieces, stream_report_pieces, summary_line};
use ouro::runner::{check_output, check_text, command_args, rewrite_directives, update_content, Diff, TestOutcome};
use ouro::text::{chars_of, parse_i32_chars, split_lines, trim_chars, i32_to_decimal};
use ouro::{expand_pattern, failed_to_run, tally, verdict, Suite, TestsFailed};

fn parse(content: &str) -> Result<ouro::parser::TestCase, ParseError> {
    parse_source("case.example", content, &DefaultPatterns::new("// "))
}

fn shown(pieces: Vec<Piece>) -> String {
    let mut r = String::new();
    for p in pieces {
        r.push_str(&p.text);
        if p.newline {
            r.push('\n');
        }
    }
    r
}

fn s(v: &[char]) -> String {
    v.iter().collect()
}

#[test]
fn parse_defaults_without_directives() {
    let tc = parse("print 1\nprint 2\n").unwrap();
    assert_eq!(tc.path, "case.example");
    assert_eq!(tc.prefix, "// ");
    assert!(tc.args.is_empty());
    assert_eq!(tc.expected_stdout, None);
    assert_eq!(tc.expected_stderr, None);
    assert_eq!(tc.expected_exit, 0);
}

#[test]
fn parse_args_block_one_arg_per_line() {
    let tc = parse("// args:\n//   --opt value  \n// \n// -x\n// :args\n").unwrap();
    assert_eq!(tc.args, vec!["--opt value", "-x"]);
}

#[test]
fn parse_inline_args_accumulate_and_quote() {
    let tc = parse("// args: -a 'b c'\n// args: \"d e\" f\n").unwrap();
    assert_eq!(tc.args, vec!["-a", "b c", "d e", "f"]);
}

#[test]
fn parse_inline_args_with_bad_quoting_are_dropped() {
    let tc = parse("// args: 'unterminated\n// args: ok\n").unwrap();
    assert_eq!(tc.args, vec!["ok"]);
}

#[test]
fn parse_exit_negative_and_invalid() {
    assert_eq!(parse("// exit: -3\n").unwrap().expected_exit, -3);
    assert_eq!(parse("// exit: +7\n").unwrap().expected_exit, 7);
    assert_eq!(parse("// exit: 9\n// exit: nope\n").unwrap().expected_exit, 9);
    assert_eq!(parse("// exit: 2147483648\n").unwrap().expected_exit, 0);
}

#[test]
fn parse_err_block_and_crlf_lines() {
    let tc = parse("// err:\r\n// first\r\n// second\r\n// :err\r\n").unwrap();
    assert_eq!(tc.expected_stderr, Some("first\nsecond".to_string()));
}

#[test]
fn parse_empty_block_gives_empty_expectation() {
    let tc = parse("// out:\n// :out\n").unwrap();
    assert_eq!(tc.expected_stdout, Some(String::new()));
}

#[test]
fn parse_unclosed_block_kinds() {
    assert!(matches!(parse("// args:\n//\n// :args\n"), Err(ParseError::UnclosedBlock { .. })));
    match parse("// args:\n// -x\n") {
        Err(ParseError::UnclosedBlock { file, kind }) => {
            assert_eq!(file, "case.example");
            assert_eq!(kind, "args");
        }
        _ => panic!("expected an unclosed args block"),
    }
    match parse("// err:\nsource\n// :err\n") {
        Err(ParseError::UnclosedBlock { kind, .. }) => assert_eq!(kind, "err"),
        _ => panic!("expected an unclosed err block"),
    }
}

#[test]
fn parse_other_prefix() {
    let tc = parse_source("t.py", "# out: hi\n// out: ignored\n", &DefaultPatterns::new("# ")).unwrap();
    assert_eq!(tc.expected_stdout, Some("hi".to_string()));
    assert_eq!(tc.prefix, "# ");
}

#[test]
fn default_patterns_keywords() {
    let p = DefaultPatterns::new("-- ");
    assert_eq!(p.prefix(), "-- ");
    assert_eq!(p.args_inline(), "args:");
    assert_eq!(p.args_close(), ":args");
    assert_eq!(p.stdout_open(), "out:");
    assert_eq!(p.stdout_close(), ":out");
    assert_eq!(p.stderr_inline(), "err:");
    assert_eq!(p.stderr_close(), ":err");
    assert_eq!(p.exit(), "exit:");
}

#[test]
fn check_output_passes_modulo_trailing_newlines() {
    let tc = parse("// out: hello\n// err:\n// a\n// b\n// :err\n// exit: 2\n").unwrap();
    let outcome = check_output(&tc, b"hello\n\n", b"a\nb", Some(2));
    assert!(matches!(outcome, TestOutcome::Pass));
}

#[test]
fn check_output_reports_diffs_and_exit() {
    let tc = parse("// out: hello\n").unwrap();
    match check_output(&tc, b"bye\n", b"ignored", None) {
        TestOutcome::Fail { path, diffs, exit_mismatch } => {
            assert_eq!(path, "case.example");
            assert_eq!(diffs.len(), 1);
            assert_eq!(diffs[0].stream, "stdout");
            assert_eq!(diffs[0].expected, "hello");
            assert_eq!(diffs[0].actual, "bye");
            assert_eq!(exit_mismatch, Some((0, -1)));
        }
        _ => panic!("expected a failure"),
    }
}

#[test]
fn check_output_unchecked_streams() {
    let tc = parse("code\n").unwrap();
    assert!(matches!(check_output(&tc, b"anything", b"at all", Some(0)), TestOutcome::Pass));
    match check_output(&tc, b"", b"", Some(1)) {
        TestOutcome::Fail { diffs, exit_mismatch, .. } => {
            assert!(diffs.is_empty());
            assert_eq!(exit_mismatch, Some((0, 1)));
        }
        _ => panic!("expected a failure"),
    }
}

#[test]
fn check_output_decodes_invalid_utf8_lossily() {
    let tc = parse("// out: a\u{FFFD}b\n").unwrap();
    assert!(matches!(check_output(&tc, &[b'a', 0xff, b'b'], b"", Some(0)), TestOutcome::Pass));
}

#[test]
fn check_output_stderr_mismatch() {
    let tc = parse("// err: boom\n").unwrap();
    match check_output(&tc, b"", b"bang\n", Some(0)) {
        TestOutcome::Fail { diffs, exit_mismatch, .. } => {
            assert_eq!(diffs.len(), 1);
            assert_eq!(diffs[0].stream, "stderr");
            assert_eq!(diffs[0].actual, "bang");
            assert_eq!(exit_mismatch, None);
        }
        _ => panic!("expected a failure"),
    }
}

#[test]
fn update_then_check_passes() {
    let content = "// args: --run\n// out: old\n// exit: 1\nprint \"x\"\n";
    let tc = parse(content).unwrap();
    let updated = update_content(&tc, content, b"line one\nline two\n", b"warn\n", Some(0));
    assert_eq!(
        updated,
        "// args: --run\n// out:\n// line one\n// line two\n// :out\n// err: warn\n// exit: 0\nprint \"x\"\n"
    );
    let tc2 = parse(&updated).unwrap();
    assert!(matches!(check_output(&tc2, b"line one\nline two\n", b"warn\n", Some(0)), TestOutcome::Pass));
}

#[test]
fn update_keeps_args_block_and_then_passes() {
    let content = "// args:\n// --flag\n// two words\n// :args\n// out: old\nsource\n";
    let tc = parse(content).unwrap();
    assert_eq!(tc.args, vec!["--flag", "two words"]);
    let updated = update_content(&tc, content, b"new\n", b"", Some(2));
    assert_eq!(
        updated,
        "// args:\n// --flag\n// two words\n// :args\n// out: new\n// exit: 2\nsource\n"
    );
    let tc2 = parse(&updated).unwrap();
    assert_eq!(tc2.args, tc.args);
    assert!(matches!(check_output(&tc2, b"new\n", b"", Some(2)), TestOutcome::Pass));
}

#[test]
fn update_drops_directive_standing_as_argument() {
    // An `exit:` line inside an args block is an argument to the parser and a
    // directive to the rewriter: the update writes the new exit code inside
    // the block, where it reads as an argument.
    let content = "// args:\n// exit: 1\n// :args\nsource\n";
    let tc = parse(content).unwrap();
    assert_eq!(tc.args, vec!["exit: 1"]);
    let updated = update_content(&tc, content, b"", b"", Some(3));
    assert_eq!(updated, "// args:\n// exit: 3\n// :args\nsource\n");
    let tc2 = parse(&updated).unwrap();
    assert_eq!(tc2.args, vec!["exit: 3"]);
    assert_eq!(tc2.expected_exit, 0);
}

#[test]
fn update_writes_nothing_for_silent_unchecked_run() {
    let content = "code\n";
    let tc = parse(content).unwrap();
    assert_eq!(update_content(&tc, content, b"", b"", Some(0)), "code\n");
    assert_eq!(update_content(&tc, "code", b"", b"", Some(0)), "code\n");
}

#[test]
fn update_negative_exit_appended_at_end_without_source() {
    let content = "// out: x\n";
    let tc = parse(content).unwrap();
    let updated = update_content(&tc, content, b"y", b"", Some(-5));
    assert_eq!(updated, "// out: y\n// exit: -5\n");
    assert_eq!(parse(&updated).unwrap().expected_exit, -5);
}

#[test]
fn rewrite_keeps_source_and_unknown_directives() {
    let content = "// note: keep me\n// err:\n// e\n// :err\nsource\n";
    let result = rewrite_directives(content, "// ", None, None, 0, false);
    assert_eq!(result, "// note: keep me\nsource\n");
}

#[test]
fn rewrite_empty_content_appends_directives() {
    let result = rewrite_directives("", "# ", Some("a"), Some("b"), 3, true);
    assert_eq!(result, "# out: a\n# err: b\n# exit: 3\n");
}

#[test]
fn config_defaults() {
    assert_eq!(DEFAULT_FILES_GLOB, "tests/**/*");
    assert_eq!(default_files(), vec!["tests/**/*".to_string()]);
    assert_eq!(default_prefix(), "// ");
}

#[test]
fn config_candidates_walk_upward() {
    assert_eq!(
        config_candidates("/a/b"),
        vec!["/a/b/ouro.toml".to_string(), "/a/ouro.toml".to_string(), "/ouro.toml".to_string()]
    );
    assert_eq!(config_candidates("rel"), vec!["rel/ouro.toml".to_string(), "ouro.toml".to_string()]);
}

#[test]
fn find_config_file_takes_nearest() {
    let existing = vec!["/ouro.toml".to_string(), "/a/ouro.toml".to_string()];
    assert_eq!(find_config_file("/a/b", &existing), Some("/a/ouro.toml".to_string()));
    assert_eq!(find_config_file("/a/b", &vec![]), None);
    assert_eq!(find_config_file("/x", &existing), Some("/ouro.toml".to_string()));
}

#[test]
fn suite_builder_and_settings() {
    assert!(Suite::new().settings().is_err());
    let s = Suite::default()
        .binary("./myc")
        .files("a/*.x")
        .prefix("# ")
        .jobs(3)
        .update(true)
        .settings()
        .ok()
        .unwrap();
    assert_eq!(s.binary, "./myc");
    assert_eq!(s.files, vec!["a/*.x".to_string()]);
    assert_eq!(s.prefix, "# ");
    assert_eq!(s.jobs, Some(3));
    assert!(s.update);
    let s2 = Suite::new()
        .binary("b")
        .files_from_vec(vec!["x".to_string(), "y".to_string()])
        .settings()
        .ok()
        .unwrap();
    assert_eq!(s2.files, vec!["x".to_string(), "y".to_string()]);
    assert_eq!(s2.prefix, "// ");
    assert_eq!(s2.jobs, None);
    assert!(!s2.update);
}

#[test]
fn suite_from_config() {
    let cfg = ouro::config::Config {
        binary: "bin".to_string(),
        files: vec!["g".to_string()],
        prefix: "; ".to_string(),
        jobs: Some(2),
    };
    let s = Suite::from_config(cfg).settings().ok().unwrap();
    assert_eq!(s.binary, "bin");
    assert_eq!(s.files, vec!["g".to_string()]);
    assert_eq!(s.prefix, "; ");
    assert_eq!(s.jobs, Some(2));
    assert!(!s.update);
}

#[test]
fn tally_and_verdict() {
    let results = vec![TestOutcome::Pass, failed_to_run("t"), TestOutcome::Updated];
    assert_eq!(tally(&results), (2, 1));
    assert!(verdict(3, 0).is_ok());
    assert!(verdict(3, 1).is_err());
    assert!(verdict(0, 0).is_ok());
    assert_eq!(TestsFailed.message(), "one or more tests failed");
    match failed_to_run("p") {
        TestOutcome::Fail { path, diffs, exit_mismatch } => {
            assert_eq!(path, "p");
            assert!(diffs.is_empty());
            assert!(exit_mismatch.is_none());
        }
        _ => panic!("expected a failure"),
    }
}

#[test]
fn expand_directory_pattern() {
    assert_eq!(expand_pattern("tests/golden", true), "tests/golden/**/*");
    assert_eq!(expand_pattern("tests/*.x", false), "tests/*.x");
}

#[test]
fn summary_lines() {
    assert_eq!(summary_line(3, 0), "test result: ok. 3 passed; 0 failed");
    assert_eq!(summary_line(2, 1), "test result: FAILED. 2 passed; 1 failed");
    assert_eq!(summary_line(0, 12), "test result: FAILED. 0 passed; 12 failed");
}

#[test]
fn diff_pieces_mark_changes() {
    let pieces = diff_pieces("a\nb\n", "a\nc\n");
    let shown: Vec<(Style, String, bool)> = pieces.into_iter().map(|p| (p.style, p.text, p.newline)).collect();
    assert_eq!(
        shown,
        vec![
            (Style::Dimmed, "      a\n".to_string(), false),
            (Style::Red, "    - b\n".to_string(), false),
            (Style::Green, "    + c\n".to_string(), false),
        ]
    );
}

#[test]
fn render_diff_separates_groups() {
    let groups = vec![
        vec![(LineChange::Delete, "x\n".to_string())],
        vec![(LineChange::Insert, "y\n".to_string()), (LineChange::Equal, "z\n".to_string())],
    ];
    let shown: Vec<(Style, String, bool)> =
        render_diff(&groups).into_iter().map(|p| (p.style, p.text, p.newline)).collect();
    assert_eq!(
        shown,
        vec![
            (Style::Red, "    - x\n".to_string(), false),
            (Style::Dimmed, "      ...".to_string(), true),
            (Style::Green, "    + y\n".to_string(), false),
            (Style::Dimmed, "      z\n".to_string(), false),
        ]
    );
}

#[test]
fn text_helpers() {
    assert_eq!(s(&trim_chars(&chars_of("\u{3000} a b\t\n"))), "a b");
    let ls: Vec<String> = split_lines(&chars_of("a\r\nb\n\nc\r")).iter().map(|l| s(l)).collect();
    assert_eq!(ls, vec!["a", "b", "", "c\r"]);
    assert!(split_lines(&chars_of("")).is_empty());
    assert_eq!(parse_i32_chars(&chars_of("-2147483648")), Some(i32::MIN));
    assert_eq!(parse_i32_chars(&chars_of("2147483647")), Some(i32::MAX));
    assert_eq!(parse_i32_chars(&chars_of("-")), None);
    assert_eq!(parse_i32_chars(&chars_of("1 2")), None);
    assert_eq!(parse_i32_chars(&chars_of("99999999999")), None);
    assert_eq!(s(&i32_to_decimal(i32::MIN)), "-2147483648");
    assert_eq!(s(&i32_to_decimal(0)), "0");
}

#[test]
fn stream_report_puts_each_change_on_its_own_line() {
    let pieces = stream_report_pieces("stdout", "hello world", "greetings globe");
    assert_eq!(pieces[1].style, Style::Red);
    assert_eq!(pieces[2].style, Style::Green);
    assert_eq!(shown(pieces), "  stdout:\n    - hello world\n    + greetings globe\n\n");
}

#[test]
fn diff_last_line_without_newline_ends_its_line() {
    let pieces = diff_pieces("a\nb", "a\nc");
    assert_eq!(shown(pieces), "      a\n    - b\n    + c\n");
}

#[test]
fn exit_report_text() {
    let pieces = exit_report_pieces(1, -42);
    assert_eq!(pieces[1].style, Style::Red);
    assert_eq!(pieces[3].style, Style::Green);
    assert_eq!(shown(pieces), "  exit code: 1 \u{2192} -42\n\n");
}

#[test]
fn outcome_reports() {
    assert_eq!(shown(outcome_pieces("t.example", &TestOutcome::Pass)), "");
    assert_eq!(shown(outcome_pieces("t.example", &TestOutcome::Updated)), "updated t.example\n");
    let fail = TestOutcome::Fail {
        path: "t.example".to_string(),
        diffs: vec![Diff { stream: "stderr", expected: "x".to_string(), actual: "y".to_string() }],
        exit_mismatch: Some((0, 2)),
    };
    let pieces = outcome_pieces("t.example", &fail);
    assert_eq!(pieces[1].style, Style::Alert);
    assert_eq!(
        shown(pieces),
        "\nFAIL t.example\n\n  stderr:\n    - x\n    + y\n\n  exit code: 0 \u{2192} 2\n\n"
    );
}

#[test]
fn check_text_judges_decoded_output() {
    let tc = parse("// out: hi\n// err: oops\n").unwrap();
    assert!(matches!(check_text(&tc, "hi\n\n", "oops", Some(0)), TestOutcome::Pass));
    match check_text(&tc, "ho", "oops\n", None) {
        TestOutcome::Fail { diffs, exit_mismatch, .. } => {
            assert_eq!(diffs.len(), 1);
            assert_eq!(diffs[0].stream, "stdout");
            assert_eq!(diffs[0].expected, "hi");
            assert_eq!(diffs[0].actual, "ho");
            assert_eq!(exit_mismatch, Some((0, -1)));
        }
        _ => panic!("expected a failure"),
    }
}

#[test]
fn command_args_put_the_path_last() {
    let tc = parse("// args: --a 'b c'\n").unwrap();
    assert_eq!(command_args(&tc), vec!["--a", "b c", "case.example"]);
}

#[test]
fn parse_error_messages() {
    let e = parse("// args:\n// x\n").unwrap_err();
    assert_eq!(e.message(), "case.example: unclosed args block");
    let io = ParseError::Io(std::io::Error::new(std::io::ErrorKind::NotFound, "gone"));
    assert_eq!(io.message(), "IO error: gone");
}

#[test]
fn rewrite_twice_is_rewrite_once() {
    let content = "// args: --x\n// out: old\nsource\n// err:\n// e\n// :err\nmore\n";
    let once = rewrite_directives(content, "// ", Some("a\nb"), Some("warn"), 4, true);
    let twice = rewrite_directives(&once, "// ", Some("a\nb"), Some("warn"), 4, true);
    assert_eq!(once, "// args: --x\n// out:\n// a\n// b\n// :out\n// exit: 4\nsource\n// err: warn\nmore\n");
    assert_eq!(twice, once);
}

#[test]
fn rewrite_reads_back_the_written_values() {
    let content = "# args:\n# --flag\n# :args\n# exit: 9\nbody\n";
    let before = parse_source("t", content, &DefaultPatterns::new("# ")).unwrap();
    let once = rewrite_directives(content, "# ", Some("x"), None, 0, false);
    let tc = parse_source("t", &once, &DefaultPatterns::new("# ")).unwrap();
    assert_eq!(tc.args, before.args);
    assert_eq!(tc.expected_stdout, Some("x".to_string()));
    assert_eq!(tc.expected_stderr, None);
    assert_eq!(tc.expected_exit, 0);
}

#[test]
fn update_to_empty_output_writes_empty_block() {
    let content = "// out: x\ncode\n";
    let tc = parse(content).unwrap();
    let updated = update_content(&tc, content, b"", b"", Some(0));
    assert_eq!(updated, "// out:\n// :out\ncode\n");
    let tc2 = parse(&updated).unwrap();
    assert_eq!(tc2.expected_stdout, Some(String::new()));
    assert!(matches!(check_output(&tc2, b"", b"", Some(0)), TestOutcome::Pass));
    assert!(!matches!(check_output(&tc2, b"x", b"", Some(0)), TestOutcome::Pass));
}

#[test]
fn update_keeps_surrounding_whitespace_in_a_block() {
    let content = "// err: old\ncode\n";
    let tc = parse(content).unwrap();
    let updated = update_content(&tc, content, b"", b"  indented \n", Some(0));
    assert_eq!(updated, "// err:\n//   indented \n// :err\ncode\n");
    let tc2 = parse(&updated).unwrap();
    assert_eq!(tc2.expected_stderr, Some("  indented ".to_string()));
    assert!(matches!(check_output(&tc2, b"", b"  indented \n", Some(0)), TestOutcome::Pass));
}

#[test]
fn rewrite_twice_with_edged_and_newline_ended_values() {
    let content = "// out: 1\nsrc\n";
    let once = rewrite_directives(content, "// ", Some(" x"), Some("a\n"), 0, false);
    assert_eq!(once, "// out:\n//  x\n// :out\n// err:\n// a\n// :err\nsrc\n");
    assert_eq!(rewrite_directives(&once, "// ", Some(" x"), Some("a\n"), 0, false), once);
}
