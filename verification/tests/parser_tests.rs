use ouro::parser::{parse_source, ParseError, TestCase};
use ouro::patterns::DefaultPatterns;

fn patterns() -> DefaultPatterns {
    DefaultPatterns::new("// ")
}

fn parse(content: &str) -> Result<TestCase, ParseError> {
    parse_source("test.example", content, &patterns())
}

#[test]
fn test_inline_out() {
    let tc = parse("// out: hello world\n").unwrap();
    assert_eq!(tc.expected_stdout, Some("hello world".to_string()));
}

#[test]
fn test_block_out() {
    let tc = parse("// out:\n// line one\n// line two\n// :out\n").unwrap();
    assert_eq!(tc.expected_stdout, Some("line one\nline two".to_string()));
}

#[test]
fn test_inline_args() {
    let tc = parse("// args: --foo bar\n").unwrap();
    assert_eq!(tc.args, vec!["--foo", "bar"]);
}

#[test]
fn test_inline_err() {
    let tc = parse("// err: oops\n").unwrap();
    assert_eq!(tc.expected_stderr, Some("oops".to_string()));
}

#[test]
fn test_exit_code() {
    let tc = parse("// exit: 42\n").unwrap();
    assert_eq!(tc.expected_exit, 42);
}

#[test]
fn test_block_with_braces_in_content() {
    let content = "// out:\n// { foo }\n// :out\n";
    let tc = parse(content).unwrap();
    assert_eq!(tc.expected_stdout, Some("{ foo }".to_string()));
}

#[test]
fn test_non_prefix_line_in_idle_ok() {
    let tc = parse("let x = 42;\n// out: 42\n").unwrap();
    assert_eq!(tc.expected_stdout, Some("42".to_string()));
}

#[test]
fn test_stacked_inline_out() {
    let tc = parse("// out: foo\n// out: bar\n").unwrap();
    assert_eq!(tc.expected_stdout, Some("foo\nbar".to_string()));
}

#[test]
fn test_stacked_inline_then_block() {
    let content = "// out: foo\n// out:\n// bar\n// baz\n// :out\n";
    let tc = parse(content).unwrap();
    assert_eq!(tc.expected_stdout, Some("foo\nbar\nbaz".to_string()));
}

#[test]
fn test_stacked_block_then_inline() {
    let content = "// out:\n// foo\n// bar\n// :out\n// out: baz\n";
    let tc = parse(content).unwrap();
    assert_eq!(tc.expected_stdout, Some("foo\nbar\nbaz".to_string()));
}

#[test]
fn test_stacked_inline_err() {
    let tc = parse("// err: oops\n// err: also bad\n").unwrap();
    assert_eq!(tc.expected_stderr, Some("oops\nalso bad".to_string()));
}

#[test]
fn test_unclosed_block_is_error() {
    let result = parse("// out:\n// some line\ncode here\n");
    assert!(matches!(result, Err(ParseError::UnclosedBlock { .. })));
}
