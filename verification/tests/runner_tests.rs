use ouro::runner::rewrite_directives;

fn rewrite(content: &str, stdout: Option<&str>, stderr: Option<&str>, exit: i32, write_exit: bool) -> String {
    rewrite_directives(content, "// ", stdout, stderr, exit, write_exit)
}

#[test]
fn rewrite_replaces_inline_out() {
    let content = "// out: old value\ncode here\n";
    let result = rewrite(content, Some("new value"), None, 0, false);
    assert!(result.contains("// out: new value"), "got: {result}");
    assert!(!result.contains("old value"), "got: {result}");
}

#[test]
fn rewrite_preserves_args_position() {
    let content = "// args: --foo\n// out: old\ncode here\n";
    let result = rewrite(content, Some("new"), None, 0, false);
    let args_pos = result.find("// args:").unwrap();
    let out_pos = result.find("// out:").unwrap();
    assert!(args_pos < out_pos, "args should precede out:\n{result}");
    assert!(result.contains("// args: --foo"), "args preserved: {result}");
    assert!(result.contains("// out: new"), "out updated: {result}");
    assert!(!result.contains("old"), "old value removed: {result}");
}

#[test]
fn rewrite_collapses_stacked_directives() {
    let content = "// out: first\n// out: second\ncode here\n";
    let result = rewrite(content, Some("new value"), None, 0, false);
    let count = result.matches("// out:").count();
    assert_eq!(count, 1, "expected exactly one out: directive, got:\n{result}");
    assert!(result.contains("// out: new value"), "got: {result}");
}

#[test]
fn rewrite_updates_stderr() {
    let content = "// err: old error\ncode here\n";
    let result = rewrite(content, None, Some("new error"), 0, false);
    assert!(result.contains("// err: new error"), "got: {result}");
    assert!(!result.contains("old error"), "got: {result}");
}

#[test]
fn rewrite_new_snapshot_inserts_before_first_source_line() {
    let content = "// args: --foo\ncode here\n";
    let result = rewrite(content, Some("output"), None, 0, false);
    let args_pos = result.find("// args:").unwrap();
    let out_pos = result.find("// out:").unwrap();
    let code_pos = result.find("code here").unwrap();
    assert!(args_pos < out_pos, "args before out:\n{result}");
    assert!(out_pos < code_pos, "out: before source code:\n{result}");
}

#[test]
fn rewrite_multiline_uses_block_form() {
    let content = "// out: old\ncode here\n";
    let result = rewrite(content, Some("line1\nline2"), None, 0, false);
    assert!(result.contains("// out:\n"), "block open: {result}");
    assert!(result.contains("// line1\n"), "line1: {result}");
    assert!(result.contains("// line2\n"), "line2: {result}");
    assert!(result.contains("// :out\n"), "block close: {result}");
}

#[test]
fn rewrite_strips_block_out_directives() {
    let content = "// out:\n// line one\n// line two\n// :out\ncode here\n";
    let result = rewrite(content, Some("new value"), None, 0, false);
    assert!(result.contains("// out: new value"), "got: {result}");
    assert!(!result.contains("line one"), "old content removed: {result}");
    assert!(!result.contains("line two"), "old content removed: {result}");
    assert!(!result.contains(":out"), "block close removed: {result}");
}

#[test]
fn rewrite_exit_nonzero() {
    let content = "// exit: 1\ncode here\n";
    let result = rewrite(content, None, None, 42, true);
    assert!(result.contains("// exit: 42"), "got: {result}");
}

#[test]
fn rewrite_clears_exit_when_now_zero() {
    let content = "// exit: 1\ncode here\n";
    let result = rewrite(content, None, None, 0, true);
    assert!(result.contains("// exit: 0"), "got: {result}");
}
