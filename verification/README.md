# ouro

A golden test runner for language authors: a binary is run on test files
whose expectations (stdout, stderr, exit code, extra arguments) are written
in the files' own comment lines, for example

```
// args: --run
// out: hello world
print "hello world"
```

The library in `src/` is verified with Verus:

- `text` — character-level helpers (`str::lines`, `trim`, integer parsing
  and printing) specified over `Seq<char>`.
- `patterns` — the directive keywords behind a comment prefix.
- `parser` — the directive scanner, a state machine over a file's lines.
- `runner` — judging a run against a test case, and rewriting a file's
  directives with the output it actually produced (`--update`).
- `roundtrip` — the proofs that an updated file reads back as the run it was
  updated to, and that rewriting a file twice gives what rewriting it once
  gives.
- `config`, `diff`, `reporter` and the crate root — configuration and the
  upward search for `ouro.toml`, diff lines, the report of each test and the
  summary line, the suite builder, tally and verdict.

`app/` is the `ouro` command around it: argument parsing, reading and writing
files, running the binary, parallelism and colored output.
