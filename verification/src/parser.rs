//! The directive scanner: a state machine over the lines of a test file.

use vstd::prelude::*;

use crate::patterns::{PatternSet, PatternStrings};
use crate::text::{
    char_views, chars_eq, chars_of, split_lines, join_lines, join_lines_chars, lines, parse_i32, parse_i32_chars,
    slice_chars, string_from_chars, strip_prefix, strip_prefix_chars, trim, trim_chars,
};

verus! {

/// What shell-style word splitting (`shlex::split`) gives for `s`: the words,
/// or `None` where the quoting is erroneous.
pub uninterp spec fn shell_words(s: Seq<char>) -> Option<Seq<Seq<char>>>;

/// Splits `s` into words with POSIX shell quoting rules by `shlex::split`.
/// The result is named by `shell_words`; nothing more of it is stated.
#[verifier::external_body]
fn shell_split(s: &str) -> (r: Option<Vec<String>>)
    ensures
        r.deep_view() == shell_words(s@),
{
    shlex::split(s)
}

#[verifier::external_type_specification]
#[verifier::external_body]
pub struct ExIoError(std::io::Error);

/// A parsed test file: how to invoke the binary and what to expect.
#[derive(Debug, Clone)]
pub struct TestCase {
    pub path: String,
    pub prefix: String,
    pub args: Vec<String>,
    pub expected_stdout: Option<String>,
    pub expected_stderr: Option<String>,
    pub expected_exit: i32,
}

#[derive(Debug)]
pub enum ParseError {
    Io(std::io::Error),
    UnclosedBlock { file: String, kind: &'static str },
}

/// The text of an I/O error, as `std::io::Error` displays it. It comes from
/// the system's error messages, so nothing is said of it.
#[verifier::external_body]
fn io_error_text(e: &std::io::Error) -> (r: String) {
    format!("{e}")
}

impl ParseError {
    /// The error's message: the I/O error, or the file and the kind of the
    /// block left open.
    pub fn message(&self) -> (r: String)
        ensures
            match self {
                ParseError::Io(_) => "IO error: "@.is_prefix_of(r@),
                ParseError::UnclosedBlock { file, kind } => r@ == file@ + ": unclosed "@ + kind@
                    + " block"@,
            },
    {
        match self {
            ParseError::Io(e) => {
                let r = String::from_str("IO error: ").concat(io_error_text(e).as_str());
                proof {
                    assert(r@.subrange(0, "IO error: "@.len() as int) =~= "IO error: "@);
                }
                r
            },
            ParseError::UnclosedBlock { file, kind } => String::from_str(file.as_str()).concat(
                ": unclosed ",
            ).concat(kind).concat(" block"),
        }
    }
}

/// Which block, if any, the scanner is inside.
#[derive(Debug, Clone, Copy, PartialEq, Eq, Structural)]
pub enum State {
    Idle,
    InArgs,
    InStdout,
    InStderr,
}

/// The abstract state of a scan.
pub struct Scan {
    pub state: State,
    pub args: Seq<Seq<char>>,
    pub stdout_lines: Seq<Seq<char>>,
    pub stderr_lines: Seq<Seq<char>>,
    pub expected_stdout: Option<Seq<char>>,
    pub expected_stderr: Option<Seq<char>>,
    pub expected_exit: i32,
}

/// The state before the first line.
pub open spec fn initial_scan() -> Scan {
    Scan {
        state: State::Idle,
        args: Seq::empty(),
        stdout_lines: Seq::empty(),
        stderr_lines: Seq::empty(),
        expected_stdout: None,
        expected_stderr: None,
        expected_exit: 0,
    }
}

/// A value appended to an expectation: directives of one stream stack up,
/// separated by `'\n'`.
pub open spec fn append_to(slot: Option<Seq<char>>, value: Seq<char>) -> Option<Seq<char>> {
    match slot {
        Some(s) => Some(s + seq!['\n'] + value),
        None => Some(value),
    }
}

pub open spec fn with_state(st: Scan, s: State) -> Scan {
    Scan { state: s, ..st }
}

/// The inline `args:` value `v` added to the arguments: shell-split, and
/// dropped where it is empty or its quoting is erroneous.
pub open spec fn with_inline_args(st: Scan, v: Seq<char>) -> Scan {
    if v.len() == 0 {
        st
    } else {
        match shell_words(v) {
            Some(words) => Scan { args: st.args + words, ..st },
            None => st,
        }
    }
}

/// A directive line `t` (already trimmed) read outside any block.
pub open spec fn scan_directive(p: PatternStrings, st: Scan, t: Seq<char>) -> Scan {
    if t == p.args_open {
        with_state(st, State::InArgs)
    } else if t == p.stdout_open {
        with_state(st, State::InStdout)
    } else if t == p.stderr_open {
        with_state(st, State::InStderr)
    } else if let Some(v) = strip_prefix(t, p.args_inline) {
        with_inline_args(st, trim(v))
    } else if let Some(v) = strip_prefix(t, p.stdout_inline) {
        Scan { expected_stdout: append_to(st.expected_stdout, trim(v)), ..st }
    } else if let Some(v) = strip_prefix(t, p.stderr_inline) {
        Scan { expected_stderr: append_to(st.expected_stderr, trim(v)), ..st }
    } else if let Some(v) = strip_prefix(t, p.exit) {
        match parse_i32(trim(v)) {
            Some(n) => Scan { expected_exit: n, ..st },
            None => st,
        }
    } else {
        st
    }
}

/// One line read in state `st`: the next state, or the open block that a
/// line without the comment prefix leaves unclosed.
pub open spec fn scan_line(p: PatternStrings, st: Scan, line: Seq<char>) -> Result<Scan, State> {
    match strip_prefix(line, p.prefix) {
        None => if st.state == State::Idle {
            Ok(st)
        } else {
            Err(st.state)
        },
        Some(rest) => {
            let t = trim(rest);
            match st.state {
                State::InArgs => if t == p.args_close {
                    Ok(with_state(st, State::Idle))
                } else if t.len() == 0 {
                    Ok(st)
                } else {
                    Ok(Scan { args: st.args.push(t), ..st })
                },
                State::InStdout => if t == p.stdout_close {
                    Ok(
                        Scan {
                            state: State::Idle,
                            expected_stdout: append_to(
                                st.expected_stdout,
                                join_lines(st.stdout_lines),
                            ),
                            stdout_lines: Seq::empty(),
                            ..st
                        },
                    )
                } else {
                    Ok(Scan { stdout_lines: st.stdout_lines.push(rest), ..st })
                },
                State::InStderr => if t == p.stderr_close {
                    Ok(
                        Scan {
                            state: State::Idle,
                            expected_stderr: append_to(
                                st.expected_stderr,
                                join_lines(st.stderr_lines),
                            ),
                            stderr_lines: Seq::empty(),
                            ..st
                        },
                    )
                } else {
                    Ok(Scan { stderr_lines: st.stderr_lines.push(rest), ..st })
                },
                State::Idle => Ok(scan_directive(p, st, t)),
            }
        },
    }
}

/// The scan of `lines` from the initial state, stopping at the first error.
pub open spec fn scan_lines(p: PatternStrings, lines: Seq<Seq<char>>) -> Result<Scan, State>
    decreases lines.len(),
{
    if lines.len() == 0 {
        Ok(initial_scan())
    } else {
        match scan_lines(p, lines.drop_last()) {
            Ok(st) => scan_line(p, st, lines.last()),
            Err(s) => Err(s),
        }
    }
}

/// The scan of a whole file: a block still open at the end is an error.
pub open spec fn scan_file(p: PatternStrings, content: Seq<char>) -> Result<Scan, State> {
    match scan_lines(p, lines(content)) {
        Ok(st) => if st.state == State::Idle {
            Ok(st)
        } else {
            Err(st.state)
        },
        Err(s) => Err(s),
    }
}

/// The name of a block kind in error messages.
pub open spec fn block_name(s: State) -> Seq<char> {
    match s {
        State::InArgs => "args"@,
        State::InStdout => "out"@,
        State::InStderr => "err"@,
        State::Idle => Seq::empty(),
    }
}

/// The character sequence of an optional character vector.
pub open spec fn opt_chars(o: Option<Vec<char>>) -> Option<Seq<char>> {
    match o {
        Some(v) => Some(v@),
        None => None,
    }
}

/// The character sequence of an optional string.
pub open spec fn opt_str(o: Option<String>) -> Option<Seq<char>> {
    match o {
        Some(v) => Some(v@),
        None => None,
    }
}

/// The character sequences of a sequence of strings.
pub open spec fn str_views(v: Seq<String>) -> Seq<Seq<char>> {
    v.map_values(|s: String| s@)
}

/// The pattern strings held as character vectors.
pub struct Keywords {
    pub prefix: Vec<char>,
    pub args_inline: Vec<char>,
    pub args_open: Vec<char>,
    pub args_close: Vec<char>,
    pub stdout_inline: Vec<char>,
    pub stdout_open: Vec<char>,
    pub stdout_close: Vec<char>,
    pub stderr_inline: Vec<char>,
    pub stderr_open: Vec<char>,
    pub stderr_close: Vec<char>,
    pub exit: Vec<char>,
}

impl Keywords {
    pub open spec fn view(&self) -> PatternStrings {
        PatternStrings {
            prefix: self.prefix@,
            args_inline: self.args_inline@,
            args_open: self.args_open@,
            args_close: self.args_close@,
            stdout_inline: self.stdout_inline@,
            stdout_open: self.stdout_open@,
            stdout_close: self.stdout_close@,
            stderr_inline: self.stderr_inline@,
            stderr_open: self.stderr_open@,
            stderr_close: self.stderr_close@,
            exit: self.exit@,
        }
    }

    pub fn from_patterns<P: PatternSet>(p: &P) -> (r: Self)
        ensures
            r.view() == p.strings(),
    {
        Keywords {
            prefix: chars_of(p.prefix()),
            args_inline: chars_of(p.args_inline()),
            args_open: chars_of(p.args_open()),
            args_close: chars_of(p.args_close()),
            stdout_inline: chars_of(p.stdout_inline()),
            stdout_open: chars_of(p.stdout_open()),
            stdout_close: chars_of(p.stdout_close()),
            stderr_inline: chars_of(p.stderr_inline()),
            stderr_open: chars_of(p.stderr_open()),
            stderr_close: chars_of(p.stderr_close()),
            exit: chars_of(p.exit()),
        }
    }
}

/// The scanner's state, line by line.
pub struct Scanner {
    pub state: State,
    pub args: Vec<Vec<char>>,
    pub stdout_lines: Vec<Vec<char>>,
    pub stderr_lines: Vec<Vec<char>>,
    pub expected_stdout: Option<Vec<char>>,
    pub expected_stderr: Option<Vec<char>>,
    pub expected_exit: i32,
}

fn append_chars(slot: Option<Vec<char>>, value: &[char]) -> (r: Option<Vec<char>>)
    ensures
        opt_chars(r) == append_to(opt_chars(slot), value@),
{
    match slot {
        Some(mut s) => {
            let ghost s0 = s@;
            s.push('\n');
            let mut i: usize = 0;
            while i < value.len()
                invariant
                    0 <= i <= value@.len(),
                    s@ == s0 + seq!['\n'] + value@.take(i as int),
                decreases value@.len() - i,
            {
                s.push(value[i]);
                i += 1;
                assert(s@ =~= s0 + seq!['\n'] + value@.take(i as int));
            }
            assert(value@.take(value@.len() as int) == value@);
            Some(s)
        },
        None => Some(slice_chars(value, 0, value.len())),
    }
}

fn strings_to_chars(v: &Vec<String>) -> (r: Vec<Vec<char>>)
    ensures
        char_views(r@) == v.deep_view(),
{
    let mut r: Vec<Vec<char>> = Vec::new();
    let mut i: usize = 0;
    while i < v.len()
        invariant
            0 <= i <= v@.len(),
            char_views(r@) == v.deep_view().take(i as int),
        decreases v@.len() - i,
    {
        let c = chars_of(v[i].as_str());
        let ghost old_r = r@;
        r.push(c);
        assert(v.deep_view()[i as int] == v@[i as int]@);
        assert(char_views(r@) =~= char_views(old_r).push(c@));
        assert(v.deep_view().take(i + 1) =~= v.deep_view().take(i as int).push(v@[i as int]@));
        i += 1;
    }
    assert(v.deep_view().take(v@.len() as int) =~= v.deep_view());
    r
}

fn chars_to_strings(v: &Vec<Vec<char>>) -> (r: Vec<String>)
    ensures
        str_views(r@) == char_views(v@),
{
    let mut r: Vec<String> = Vec::new();
    let mut i: usize = 0;
    while i < v.len()
        invariant
            0 <= i <= v@.len(),
            str_views(r@) == char_views(v@).take(i as int),
        decreases v@.len() - i,
    {
        let s = string_from_chars(v[i].as_slice());
        let ghost old_r = r@;
        r.push(s);
        assert(str_views(r@) =~= str_views(old_r).push(v@[i as int]@));
        assert(char_views(v@).take(i + 1) =~= char_views(v@).take(i as int).push(v@[i as int]@));
        i += 1;
    }
    assert(char_views(v@).take(v@.len() as int) =~= char_views(v@));
    r
}

fn opt_to_string(o: &Option<Vec<char>>) -> (r: Option<String>)
    ensures
        opt_str(r) == opt_chars(*o),
{
    match o {
        Some(v) => Some(string_from_chars(v.as_slice())),
        None => None,
    }
}

impl Scanner {
    pub open spec fn view(&self) -> Scan {
        Scan {
            state: self.state,
            args: char_views(self.args@),
            stdout_lines: char_views(self.stdout_lines@),
            stderr_lines: char_views(self.stderr_lines@),
            expected_stdout: opt_chars(self.expected_stdout),
            expected_stderr: opt_chars(self.expected_stderr),
            expected_exit: self.expected_exit,
        }
    }

    pub fn new() -> (r: Self)
        ensures
            r.view() == initial_scan(),
    {
        let r = Scanner {
            state: State::Idle,
            args: Vec::new(),
            stdout_lines: Vec::new(),
            stderr_lines: Vec::new(),
            expected_stdout: None,
            expected_stderr: None,
            expected_exit: 0,
        };
        assert(r.view().args =~= Seq::<Seq<char>>::empty());
        assert(r.view().stdout_lines =~= Seq::<Seq<char>>::empty());
        assert(r.view().stderr_lines =~= Seq::<Seq<char>>::empty());
        r
    }

    /// Adds the words of a split inline `args:` value; a value whose quoting
    /// was erroneous (`None`) adds nothing.
    pub fn add_split_args(&mut self, words: Option<Vec<String>>)
        ensures
            final(self).view() == (match words.deep_view() {
                Some(w) => Scan { args: old(self).view().args + w, ..old(self).view() },
                None => old(self).view(),
            }),
    {
        if let Some(ws) = words {
            let mut cs = strings_to_chars(&ws);
            let ghost a0 = self.args@;
            let ghost c0 = cs@;
            self.args.append(&mut cs);
            assert(char_views(self.args@) =~= char_views(a0) + char_views(c0));
        }
    }

    /// A directive line `t` (already trimmed) read outside any block.
    fn directive(&mut self, p: &Keywords, t: &Vec<char>)
        requires
            old(self).state == State::Idle,
        ensures
            final(self).view() == scan_directive(p.view(), old(self).view(), t@),
    {
        if chars_eq(t, &p.args_open) {
            self.state = State::InArgs;
        } else if chars_eq(t, &p.stdout_open) {
            self.state = State::InStdout;
        } else if chars_eq(t, &p.stderr_open) {
            self.state = State::InStderr;
        } else if let Some(v) = strip_prefix_chars(t, &p.args_inline) {
            let v = trim_chars(&v);
            if v.len() > 0 {
                let s = string_from_chars(v.as_slice());
                let words = shell_split(s.as_str());
                self.add_split_args(words);
            }
        } else if let Some(v) = strip_prefix_chars(t, &p.stdout_inline) {
            let v = trim_chars(&v);
            let cur = self.expected_stdout.take();
            self.expected_stdout = append_chars(cur, &v);
        } else if let Some(v) = strip_prefix_chars(t, &p.stderr_inline) {
            let v = trim_chars(&v);
            let cur = self.expected_stderr.take();
            self.expected_stderr = append_chars(cur, &v);
        } else if let Some(v) = strip_prefix_chars(t, &p.exit) {
            let v = trim_chars(&v);
            if let Some(n) = parse_i32_chars(&v) {
                self.expected_exit = n;
            }
        }
    }

    /// Reads one line of a test file.
    pub fn feed(&mut self, p: &Keywords, line: &[char]) -> (r: Result<(), State>)
        ensures
            match scan_line(p.view(), old(self).view(), line@) {
                Ok(st) => r is Ok && final(self).view() == st,
                Err(s) => r == Err::<(), State>(s),
            },
    {
        match strip_prefix_chars(line, &p.prefix) {
            None => {
                if self.state == State::Idle {
                    Ok(())
                } else {
                    Err(self.state)
                }
            },
            Some(rest) => {
                let t = trim_chars(&rest);
                match self.state {
                    State::InArgs => {
                        if chars_eq(&t, &p.args_close) {
                            self.state = State::Idle;
                        } else if t.len() > 0 {
                            let ghost a0 = self.args@;
                            self.args.push(t);
                            assert(char_views(self.args@) =~= char_views(a0).push(trim(rest@)));
                        }
                        Ok(())
                    },
                    State::InStdout => {
                        if chars_eq(&t, &p.stdout_close) {
                            let joined = join_lines_chars(&self.stdout_lines);
                            let cur = self.expected_stdout.take();
                            self.expected_stdout = append_chars(cur, &joined);
                            self.stdout_lines = Vec::new();
                            self.state = State::Idle;
                            assert(char_views(self.stdout_lines@) =~= Seq::<Seq<char>>::empty());
                        } else {
                            let ghost a0 = self.stdout_lines@;
                            self.stdout_lines.push(rest);
                            assert(char_views(self.stdout_lines@) =~= char_views(a0).push(
                                rest@,
                            ));
                        }
                        Ok(())
                    },
                    State::InStderr => {
                        if chars_eq(&t, &p.stderr_close) {
                            let joined = join_lines_chars(&self.stderr_lines);
                            let cur = self.expected_stderr.take();
                            self.expected_stderr = append_chars(cur, &joined);
                            self.stderr_lines = Vec::new();
                            self.state = State::Idle;
                            assert(char_views(self.stderr_lines@) =~= Seq::<Seq<char>>::empty());
                        } else {
                            let ghost a0 = self.stderr_lines@;
                            self.stderr_lines.push(rest);
                            assert(char_views(self.stderr_lines@) =~= char_views(a0).push(
                                rest@,
                            ));
                        }
                        Ok(())
                    },
                    State::Idle => {
                        self.directive(p, &t);
                        Ok(())
                    },
                }
            },
        }
    }
}

proof fn lemma_scan_error_persists(p: PatternStrings, ls: Seq<Seq<char>>, k: int, s: State)
    requires
        0 <= k <= ls.len(),
        scan_lines(p, ls.take(k)) == Err::<Scan, State>(s),
    ensures
        scan_lines(p, ls) == Err::<Scan, State>(s),
    decreases ls.len() - k,
{
    if k == ls.len() {
        assert(ls.take(k) == ls);
    } else {
        assert(ls.drop_last().take(k) == ls.take(k));
        lemma_scan_error_persists(p, ls.drop_last(), k, s);
    }
}

fn block_kind(s: State) -> (r: &'static str)
    requires
        s != State::Idle,
    ensures
        r@ == block_name(s),
{
    match s {
        State::InArgs => "args",
        State::InStdout => "out",
        State::InStderr => "err",
        State::Idle => "",
    }
}

/// Parses the directives of the test file at `path` whose text is `content`.
pub fn parse_source<P: PatternSet>(path: &str, content: &str, patterns: &P) -> (r: Result<
    TestCase,
    ParseError,
>)
    ensures
        match scan_file(patterns.strings(), content@) {
            Ok(st) => r matches Ok(tc) && tc.path@ == path@ && tc.prefix@
                == patterns.strings().prefix && str_views(tc.args@) == st.args && opt_str(
                tc.expected_stdout,
            ) == st.expected_stdout && opt_str(tc.expected_stderr) == st.expected_stderr
                && tc.expected_exit == st.expected_exit,
            Err(s) => r matches Err(ParseError::UnclosedBlock { file, kind }) && file@ == path@
                && kind@ == block_name(s),
        },
{
    let keywords = Keywords::from_patterns(patterns);
    let text = chars_of(content);
    let ls = split_lines(text.as_slice());
    let ghost p = keywords.view();
    let mut scanner = Scanner::new();
    let mut i: usize = 0;
    while i < ls.len()
        invariant
            0 <= i <= ls@.len(),
            p == keywords.view(),
            p == patterns.strings(),
            char_views(ls@) == lines(content@),
            scan_lines(p, char_views(ls@).take(i as int)) == Ok::<Scan, State>(scanner.view()),
        decreases ls@.len() - i,
    {
        let ghost before = scanner.view();
        assert(char_views(ls@).take(i + 1).drop_last() =~= char_views(ls@).take(i as int));
        assert(char_views(ls@).take(i + 1).last() == ls@[i as int]@);
        match scanner.feed(&keywords, ls[i].as_slice()) {
            Ok(()) => {},
            Err(s) => {
                proof {
                    assert(scan_lines(p, char_views(ls@).take(i + 1)) == Err::<Scan, State>(s));
                    lemma_scan_error_persists(p, char_views(ls@), i + 1, s);
                }
                return Err(
                    ParseError::UnclosedBlock { file: String::from_str(path), kind: block_kind(s) },
                );
            },
        }
        i += 1;
    }
    assert(char_views(ls@).take(ls@.len() as int) =~= char_views(ls@));
    if scanner.state != State::Idle {
        return Err(
            ParseError::UnclosedBlock {
                file: String::from_str(path),
                kind: block_kind(scanner.state),
            },
        );
    }
    Ok(
        TestCase {
            path: String::from_str(path),
            prefix: String::from_str(patterns.prefix()),
            args: chars_to_strings(&scanner.args),
            expected_stdout: opt_to_string(&scanner.expected_stdout),
            expected_stderr: opt_to_string(&scanner.expected_stderr),
            expected_exit: scanner.expected_exit,
        },
    )
}

/// Lines without the comment prefix are source code: outside a block they
/// change nothing, and inside one they are an error naming the block.
pub proof fn source_lines_ignored(p: PatternStrings, st: Scan, line: Seq<char>)
    requires
        strip_prefix(line, p.prefix) is None,
    ensures
        st.state == State::Idle ==> scan_line(p, st, line) == Ok::<Scan, State>(st),
        st.state != State::Idle ==> scan_line(p, st, line) == Err::<Scan, State>(st.state),
{
}

/// The directive text of a line: what follows the comment prefix, trimmed.
pub open spec fn directive_of(p: PatternStrings, l: Seq<char>) -> Option<Seq<char>> {
    match strip_prefix(l, p.prefix) {
        Some(rest) => Some(trim(rest)),
        None => None,
    }
}

/// Whether a line is a stdout directive, inline or block.
pub open spec fn names_stdout(p: PatternStrings, l: Seq<char>) -> bool {
    directive_of(p, l) matches Some(t) && (t == p.stdout_open || p.stdout_inline.is_prefix_of(t))
}

/// Whether a line is a stderr directive, inline or block.
pub open spec fn names_stderr(p: PatternStrings, l: Seq<char>) -> bool {
    directive_of(p, l) matches Some(t) && (t == p.stderr_open || p.stderr_inline.is_prefix_of(t))
}

/// Whether a line is an exit directive.
pub open spec fn names_exit(p: PatternStrings, l: Seq<char>) -> bool {
    directive_of(p, l) matches Some(t) && p.exit.is_prefix_of(t)
}

/// Expectations come only from their directives: without a stdout (stderr)
/// directive the stream is not checked, and without an exit directive the
/// exit code expected is `0`.
pub proof fn expectations_need_directives(p: PatternStrings, ls: Seq<Seq<char>>)
    ensures
        (forall|i: int| 0 <= i < ls.len() ==> !names_stdout(p, #[trigger] ls[i])) ==> (scan_lines(
            p,
            ls,
        ) matches Ok(st) ==> st.expected_stdout is None && st.state != State::InStdout),
        (forall|i: int| 0 <= i < ls.len() ==> !names_stderr(p, #[trigger] ls[i])) ==> (scan_lines(
            p,
            ls,
        ) matches Ok(st) ==> st.expected_stderr is None && st.state != State::InStderr),
        (forall|i: int| 0 <= i < ls.len() ==> !names_exit(p, #[trigger] ls[i])) ==> (scan_lines(
            p,
            ls,
        ) matches Ok(st) ==> st.expected_exit == 0),
    decreases ls.len(),
{
    if ls.len() > 0 {
        let d = ls.drop_last();
        expectations_need_directives(p, d);
        let l = ls.last();
        assert(l == ls[ls.len() - 1]);
        if forall|i: int| 0 <= i < ls.len() ==> !names_stdout(p, #[trigger] ls[i]) {
            assert forall|i: int| 0 <= i < d.len() implies !names_stdout(p, #[trigger] d[i]) by {
                assert(d[i] == ls[i]);
            }
        }
        if forall|i: int| 0 <= i < ls.len() ==> !names_stderr(p, #[trigger] ls[i]) {
            assert forall|i: int| 0 <= i < d.len() implies !names_stderr(p, #[trigger] d[i]) by {
                assert(d[i] == ls[i]);
            }
        }
        if forall|i: int| 0 <= i < ls.len() ==> !names_exit(p, #[trigger] ls[i]) {
            assert forall|i: int| 0 <= i < d.len() implies !names_exit(p, #[trigger] d[i]) by {
                assert(d[i] == ls[i]);
            }
        }
        if let Some(rest) = strip_prefix(l, p.prefix) {
            let t = trim(rest);
            if strip_prefix(t, p.stdout_inline) is Some {
                assert(p.stdout_inline.is_prefix_of(t));
            }
            if strip_prefix(t, p.stderr_inline) is Some {
                assert(p.stderr_inline.is_prefix_of(t));
            }
            if strip_prefix(t, p.exit) is Some {
                assert(p.exit.is_prefix_of(t));
            }
        }
    }
}


/// The value of one stream's directives in a file read after another: the
/// two joined by a newline where both are present, else the one present.
pub open spec fn stacked(first: Option<Seq<char>>, then: Option<Seq<char>>) -> Option<Seq<char>> {
    match then {
        None => first,
        Some(t) => match first {
            None => Some(t),
            Some(f) => Some(f + seq!['\n'] + t),
        },
    }
}

/// A scan outside a block holds no block lines.
proof fn lemma_scan_lines_quiet(p: PatternStrings, ls: Seq<Seq<char>>)
    ensures
        scan_lines(p, ls) matches Ok(st) ==> (st.state != State::InStdout
            ==> st.stdout_lines.len() == 0) && (st.state != State::InStderr
            ==> st.stderr_lines.len() == 0),
    decreases ls.len(),
{
    if ls.len() > 0 {
        lemma_scan_lines_quiet(p, ls.drop_last());
    }
}

/// How a scan of lines read after a file that ended in state `s` (`x`)
/// stands to a scan of the same lines on their own (`y`).
pub open spec fn read_after(x: Scan, y: Scan, s: Scan) -> bool {
    &&& x.state == y.state
    &&& x.stdout_lines == y.stdout_lines
    &&& x.stderr_lines == y.stderr_lines
    &&& x.args == s.args + y.args
    &&& x.expected_stdout == stacked(s.expected_stdout, y.expected_stdout)
    &&& x.expected_stderr == stacked(s.expected_stderr, y.expected_stderr)
    &&& (x.expected_exit == y.expected_exit || (x.expected_exit == s.expected_exit
        && y.expected_exit == 0))
}

proof fn lemma_stacked_append(f: Option<Seq<char>>, t: Option<Seq<char>>, v: Seq<char>)
    ensures
        append_to(stacked(f, t), v) == stacked(f, append_to(t, v)),
{
    if let Some(a) = f {
        if let Some(b) = t {
            assert(a + seq!['\n'] + b + seq!['\n'] + v =~= a + seq!['\n'] + (b + seq!['\n'] + v));
        }
    }
}

proof fn lemma_read_after_step(p: PatternStrings, x: Scan, y: Scan, s: Scan, l: Seq<char>)
    requires
        read_after(x, y, s),
    ensures
        (scan_line(p, x, l) is Ok) == (scan_line(p, y, l) is Ok),
        scan_line(p, x, l) matches Ok(x2) ==> (scan_line(p, y, l) matches Ok(y2) && read_after(
            x2,
            y2,
            s,
        )),
{
    lemma_stacked_append(s.expected_stdout, y.expected_stdout, join_lines(y.stdout_lines));
    lemma_stacked_append(s.expected_stderr, y.expected_stderr, join_lines(y.stderr_lines));
    if let Some(rest) = strip_prefix(l, p.prefix) {
        let t = trim(rest);
        assert(x.args.push(t) =~= s.args + y.args.push(t));
        if let Some(v) = strip_prefix(t, p.args_inline) {
            if let Some(words) = shell_words(trim(v)) {
                assert(x.args + words =~= s.args + (y.args + words));
            }
        }
        if let Some(v) = strip_prefix(t, p.stdout_inline) {
            lemma_stacked_append(s.expected_stdout, y.expected_stdout, trim(v));
        }
        if let Some(v) = strip_prefix(t, p.stderr_inline) {
            lemma_stacked_append(s.expected_stderr, y.expected_stderr, trim(v));
        }
    }
}

/// Directives stack across a file: reading lines `b` after lines `a` that
/// end outside any block gives the arguments of `a` followed by those of
/// `b`, each stream's expectation of `a` followed (joined by a newline) by
/// that of `b`, and the exit code of `b` where `b` sets one other than `0`,
/// else that of `a` or `b`. Reading `b` fails exactly where it fails on its
/// own, in the same block.
pub proof fn directives_stack(p: PatternStrings, a: Seq<Seq<char>>, b: Seq<Seq<char>>)
    requires
        scan_lines(p, a) matches Ok(s) && s.state == State::Idle,
    ensures
        (scan_lines(p, a + b) is Ok) == (scan_lines(p, b) is Ok),
        scan_lines(p, a + b) matches Err(e) ==> scan_lines(p, b) == Err::<Scan, State>(e),
        scan_lines(p, a + b) matches Ok(x) ==> ({
            let s = scan_lines(p, a)->Ok_0;
            let y = scan_lines(p, b)->Ok_0;
            &&& x.state == y.state
            &&& x.args == s.args + y.args
            &&& x.expected_stdout == stacked(s.expected_stdout, y.expected_stdout)
            &&& x.expected_stderr == stacked(s.expected_stderr, y.expected_stderr)
            &&& y.expected_exit != 0 ==> x.expected_exit == y.expected_exit
            &&& x.expected_exit == s.expected_exit || x.expected_exit == y.expected_exit
        }),
        scan_lines(p, a + b) matches Ok(x) ==> read_after(
            x,
            scan_lines(p, b)->Ok_0,
            scan_lines(p, a)->Ok_0,
        ),
    decreases b.len(),
{
    let s = scan_lines(p, a)->Ok_0;
    if b.len() == 0 {
        assert(a + b =~= a);
        lemma_scan_lines_quiet(p, a);
        assert(s.args + Seq::<Seq<char>>::empty() =~= s.args);
        assert(s.stdout_lines =~= Seq::<Seq<char>>::empty());
        assert(s.stderr_lines =~= Seq::<Seq<char>>::empty());
    } else {
        directives_stack(p, a, b.drop_last());
        assert((a + b).drop_last() =~= a + b.drop_last());
        assert((a + b).last() == b.last());
        if let Ok(x) = scan_lines(p, a + b.drop_last()) {
            let y = scan_lines(p, b.drop_last())->Ok_0;
            lemma_read_after_step(p, x, y, s, b.last());
            if let Err(e) = scan_line(p, x, b.last()) {
                assert(e == x.state);
            }
        }
    }
}

} // verus!
