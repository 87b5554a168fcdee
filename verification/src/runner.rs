//! Judging a binary's output against a test case, and rewriting a test
//! file's directives with the output it actually produced.

use vstd::prelude::*;

use crate::parser::{opt_str, str_views, TestCase};
use crate::text::{
    char_views, chars_eq, chars_of, contains_char, i32_to_decimal, int_to_decimal, is_whitespace, is_ws,
    lines, push_all,
    split_lines, starts_with, string_from_chars, strip_prefix, strip_prefix_chars, trim, trim_chars,
    trim_newlines, trim_newlines_chars,
};

verus! {

/// A mismatch on one output stream.
#[derive(Debug)]
pub struct Diff {
    pub stream: &'static str,
    pub expected: String,
    pub actual: String,
}

/// The result of running (or updating) one test.
#[derive(Debug)]
pub enum TestOutcome {
    Pass,
    Updated,
    Fail { path: String, diffs: Vec<Diff>, exit_mismatch: Option<(i32, i32)> },
}

// ---------------------------------------------------------------------------
// Rewriting directives
// ---------------------------------------------------------------------------

/// The state of the first pass of the rewriter: the lines kept (each with
/// its `'\n'`), whether it is inside an `out:` or `err:` block, and where the
/// first directive of each kind, and the first source line, stood.
pub struct Rewrite {
    pub kept: Seq<Seq<char>>,
    pub in_stdout: bool,
    pub in_stderr: bool,
    pub stdout_at: Option<int>,
    pub stderr_at: Option<int>,
    pub exit_at: Option<int>,
    pub first_source: Option<int>,
}

pub open spec fn first_of(o: Option<int>, n: int) -> Option<int> {
    match o {
        Some(x) => Some(x),
        None => Some(n),
    }
}

pub open spec fn initial_rewrite() -> Rewrite {
    Rewrite {
        kept: Seq::empty(),
        in_stdout: false,
        in_stderr: false,
        stdout_at: None,
        stderr_at: None,
        exit_at: None,
        first_source: None,
    }
}

/// One line read by the rewriter: every `out:`, `err:` and `exit:` directive
/// (blocks with their content, inline forms and stray closing tags) is
/// dropped and the position of the first one of each stream recorded; all
/// other lines are kept.
pub open spec fn rewrite_step(prefix: Seq<char>, st: Rewrite, line: Seq<char>) -> Rewrite {
    let n = st.kept.len() as int;
    let keep = st.kept.push(line + seq!['\n']);
    match strip_prefix(line, prefix) {
        Some(rest) => {
            let t = trim(rest);
            if st.in_stdout {
                if t == ":out"@ {
                    Rewrite { in_stdout: false, ..st }
                } else {
                    st
                }
            } else if st.in_stderr {
                if t == ":err"@ {
                    Rewrite { in_stderr: false, ..st }
                } else {
                    st
                }
            } else if t == "out:"@ {
                Rewrite { stdout_at: first_of(st.stdout_at, n), in_stdout: true, ..st }
            } else if t == "err:"@ {
                Rewrite { stderr_at: first_of(st.stderr_at, n), in_stderr: true, ..st }
            } else if "out:"@.is_prefix_of(t) || t == ":out"@ {
                Rewrite { stdout_at: first_of(st.stdout_at, n), ..st }
            } else if "err:"@.is_prefix_of(t) || t == ":err"@ {
                Rewrite { stderr_at: first_of(st.stderr_at, n), ..st }
            } else if "exit:"@.is_prefix_of(t) {
                Rewrite { exit_at: first_of(st.exit_at, n), ..st }
            } else {
                Rewrite { kept: keep, ..st }
            }
        },
        None => Rewrite { first_source: first_of(st.first_source, n), kept: keep, ..st },
    }
}

/// The first pass over `ls`.
pub open spec fn rewrite_scan(prefix: Seq<char>, ls: Seq<Seq<char>>) -> Rewrite
    decreases ls.len(),
{
    if ls.len() == 0 {
        initial_rewrite()
    } else {
        rewrite_step(prefix, rewrite_scan(prefix, ls.drop_last()), ls.last())
    }
}

/// The lines of a block, each behind the prefix and ended by `'\n'`.
pub open spec fn block_body(prefix: Seq<char>, ls: Seq<Seq<char>>) -> Seq<char>
    decreases ls.len(),
{
    if ls.len() == 0 {
        Seq::empty()
    } else {
        block_body(prefix, ls.drop_last()) + prefix + ls.last() + seq!['\n']
    }
}

/// Whether `content` is written as an inline directive: one line, not
/// empty, without whitespace at either end, so that it reads back as it is
/// once trimmed. Other content is written as a block, whose lines read back
/// untrimmed.
pub open spec fn inline_form(content: Seq<char>) -> bool {
    &&& content.len() > 0
    &&& !content.contains('\n')
    &&& !is_ws(content[0])
    &&& !is_ws(content.last())
}

/// A directive holding `content`: inline where that form reads back as
/// `content`, else a block.
pub open spec fn directive_text(prefix: Seq<char>, keyword: Seq<char>, content: Seq<char>) -> Seq<
    char,
> {
    if !inline_form(content) {
        prefix + keyword + seq![':', '\n'] + block_body(prefix, lines(content)) + prefix + seq![
            ':',
        ] + keyword + seq!['\n']
    } else {
        prefix + keyword + seq![':', ' '] + content + seq!['\n']
    }
}

/// The `exit:` directive for `code`.
pub open spec fn exit_text(prefix: Seq<char>, code: i32) -> Seq<char> {
    prefix + "exit: "@ + int_to_decimal(code as int) + seq!['\n']
}

pub open spec fn opt_entry(o: Option<(int, Seq<char>)>) -> Seq<(int, Seq<char>)> {
    match o {
        Some(e) => seq![e],
        None => Seq::empty(),
    }
}

/// The directives to insert, with their positions, in the order stdout,
/// stderr, exit. A directive without an old position goes before the first
/// source line, or at the end.
pub open spec fn insertions(
    prefix: Seq<char>,
    st: Rewrite,
    new_stdout: Option<Seq<char>>,
    new_stderr: Option<Seq<char>>,
    new_exit: i32,
    write_exit: bool,
) -> Seq<(int, Seq<char>)> {
    let fallback = match st.first_source {
        Some(f) => f,
        None => st.kept.len() as int,
    };
    let at = |o: Option<int>|
        match o {
            Some(x) => x,
            None => fallback,
        };
    opt_entry(
        match new_stdout {
            Some(o) => Some((at(st.stdout_at), directive_text(prefix, "out"@, o))),
            None => None,
        },
    ) + opt_entry(
        match new_stderr {
            Some(e) => Some((at(st.stderr_at), directive_text(prefix, "err"@, e))),
            None => None,
        },
    ) + opt_entry(
        if write_exit {
            Some((at(st.exit_at), exit_text(prefix, new_exit)))
        } else {
            None
        },
    )
}

/// The texts of the insertions at position `k`, in their order.
pub open spec fn texts_at(ins: Seq<(int, Seq<char>)>, k: int) -> Seq<char>
    decreases ins.len(),
{
    if ins.len() == 0 {
        Seq::empty()
    } else {
        texts_at(ins.drop_last(), k) + if ins.last().0 == k {
            ins.last().1
        } else {
            Seq::empty()
        }
    }
}

/// The first `k` kept lines, each preceded by what is inserted before it.
pub open spec fn assembled(kept: Seq<Seq<char>>, ins: Seq<(int, Seq<char>)>, k: nat) -> Seq<char>
    decreases k,
{
    if k == 0 {
        Seq::empty()
    } else {
        assembled(kept, ins, (k - 1) as nat) + texts_at(ins, k - 1) + kept[k - 1]
    }
}

/// The text that the rewriter produces.
pub open spec fn rewritten(
    content: Seq<char>,
    prefix: Seq<char>,
    new_stdout: Option<Seq<char>>,
    new_stderr: Option<Seq<char>>,
    new_exit: i32,
    write_exit: bool,
) -> Seq<char> {
    let st = rewrite_scan(prefix, lines(content));
    let ins = insertions(prefix, st, new_stdout, new_stderr, new_exit, write_exit);
    assembled(st.kept, ins, st.kept.len()) + texts_at(ins, st.kept.len() as int)
}

pub open spec fn opt_str_ref(o: Option<&str>) -> Option<Seq<char>> {
    match o {
        Some(s) => Some(s@),
        None => None,
    }
}

pub open spec fn opt_pos(o: Option<usize>) -> Option<int> {
    match o {
        Some(x) => Some(x as int),
        None => None,
    }
}

fn first_pos(o: Option<usize>, n: usize) -> (r: Option<usize>)
    ensures
        opt_pos(r) == first_of(opt_pos(o), n as int),
{
    match o {
        Some(x) => Some(x),
        None => Some(n),
    }
}

fn line_with_newline(line: &[char]) -> (r: Vec<char>)
    ensures
        r@ == line@ + seq!['\n'],
{
    let mut r: Vec<char> = Vec::new();
    push_all(&mut r, line);
    r.push('\n');
    r
}

/// A directive holding `content`, inline where that form reads back as
/// `content`, else a block.
fn format_directive(prefix: &[char], keyword: &[char], content: &[char]) -> (r: Vec<char>)
    ensures
        r@ == directive_text(prefix@, keyword@, content@),
{
    let mut r: Vec<char> = Vec::new();
    push_all(&mut r, prefix);
    push_all(&mut r, keyword);
    let inline = content.len() > 0 && !contains_char(content, '\n') && !is_whitespace(content[0])
        && !is_whitespace(content[content.len() - 1]);
    proof {
        if content.len() > 0 {
            assert(content@[content.len() - 1] == content@.last());
        }
    }
    if !inline {
        r.push(':');
        r.push('\n');
        let ghost head = r@;
        let ls = split_lines(content);
        let mut i: usize = 0;
        while i < ls.len()
            invariant
                0 <= i <= ls@.len(),
                char_views(ls@) == lines(content@),
                r@ == head + block_body(prefix@, char_views(ls@).take(i as int)),
            decreases ls@.len() - i,
        {
            push_all(&mut r, prefix);
            push_all(&mut r, ls[i].as_slice());
            r.push('\n');
            proof {
                let w = char_views(ls@);
                assert(w.take(i + 1).drop_last() =~= w.take(i as int));
                assert(w.take(i + 1).last() == ls@[i as int]@);
            }
            i += 1;
            assert(r@ =~= head + block_body(prefix@, char_views(ls@).take(i as int)));
        }
        assert(char_views(ls@).take(ls@.len() as int) =~= char_views(ls@));
        push_all(&mut r, prefix);
        r.push(':');
        push_all(&mut r, keyword);
        r.push('\n');
    } else {
        r.push(':');
        r.push(' ');
        push_all(&mut r, content);
        r.push('\n');
    }
    assert(r@ =~= directive_text(prefix@, keyword@, content@));
    r
}

/// Literal keyword strings the rewriter matches, as character vectors.
struct RewriteWords {
    out_open: Vec<char>,
    out_close: Vec<char>,
    err_open: Vec<char>,
    err_close: Vec<char>,
    exit: Vec<char>,
}

impl RewriteWords {
    spec fn wf(&self) -> bool {
        &&& self.out_open@ == "out:"@
        &&& self.out_close@ == ":out"@
        &&& self.err_open@ == "err:"@
        &&& self.err_close@ == ":err"@
        &&& self.exit@ == "exit:"@
    }

    fn new() -> (r: Self)
        ensures
            r.wf(),
    {
        RewriteWords {
            out_open: chars_of("out:"),
            out_close: chars_of(":out"),
            err_open: chars_of("err:"),
            err_close: chars_of(":err"),
            exit: chars_of("exit:"),
        }
    }
}

struct Rewriter {
    kept: Vec<Vec<char>>,
    in_stdout: bool,
    in_stderr: bool,
    stdout_at: Option<usize>,
    stderr_at: Option<usize>,
    exit_at: Option<usize>,
    first_source: Option<usize>,
}

impl Rewriter {
    spec fn view(&self) -> Rewrite {
        Rewrite {
            kept: char_views(self.kept@),
            in_stdout: self.in_stdout,
            in_stderr: self.in_stderr,
            stdout_at: opt_pos(self.stdout_at),
            stderr_at: opt_pos(self.stderr_at),
            exit_at: opt_pos(self.exit_at),
            first_source: opt_pos(self.first_source),
        }
    }

    fn keep(&mut self, line: &[char])
        ensures
            final(self).view() == (Rewrite {
                kept: old(self).view().kept.push(line@ + seq!['\n']),
                ..old(self).view()
            }),
            final(self).kept@.len() == old(self).kept@.len() + 1,
    {
        let l = line_with_newline(line);
        let ghost k0 = self.kept@;
        self.kept.push(l);
        assert(char_views(self.kept@) =~= char_views(k0).push(line@ + seq!['\n']));
    }

    fn step(&mut self, w: &RewriteWords, prefix: &[char], line: &[char])
        requires
            w.wf(),
            old(self).kept@.len() < usize::MAX,
        ensures
            final(self).view() == rewrite_step(prefix@, old(self).view(), line@),
            final(self).kept@.len() <= old(self).kept@.len() + 1,
    {
        let n = self.kept.len();
        match strip_prefix_chars(line, prefix) {
            Some(rest) => {
                let t = trim_chars(&rest);
                if self.in_stdout {
                    if chars_eq(&t, &w.out_close) {
                        self.in_stdout = false;
                    }
                } else if self.in_stderr {
                    if chars_eq(&t, &w.err_close) {
                        self.in_stderr = false;
                    }
                } else if chars_eq(&t, &w.out_open) {
                    self.stdout_at = first_pos(self.stdout_at, n);
                    self.in_stdout = true;
                } else if chars_eq(&t, &w.err_open) {
                    self.stderr_at = first_pos(self.stderr_at, n);
                    self.in_stderr = true;
                } else if starts_with(&t, &w.out_open) || chars_eq(&t, &w.out_close) {
                    self.stdout_at = first_pos(self.stdout_at, n);
                } else if starts_with(&t, &w.err_open) || chars_eq(&t, &w.err_close) {
                    self.stderr_at = first_pos(self.stderr_at, n);
                } else if starts_with(&t, &w.exit) {
                    self.exit_at = first_pos(self.exit_at, n);
                } else {
                    self.keep(line);
                }
            },
            None => {
                self.first_source = first_pos(self.first_source, n);
                self.keep(line);
            },
        }
    }
}

fn entry_at(o: Option<usize>, fallback: usize) -> (r: usize)
    ensures
        r as int == (match opt_pos(o) {
            Some(x) => x,
            None => fallback as int,
        }),
{
    match o {
        Some(x) => x,
        None => fallback,
    }
}

pub open spec fn ins_view(v: Seq<(usize, Vec<char>)>) -> Seq<(int, Seq<char>)> {
    v.map_values(|e: (usize, Vec<char>)| (e.0 as int, e.1@))
}

/// Appends the texts of the insertions at position `k`.
fn push_texts_at(r: &mut Vec<char>, ins: &Vec<(usize, Vec<char>)>, k: usize)
    ensures
        final(r)@ == old(r)@ + texts_at(ins_view(ins@), k as int),
{
    let mut j: usize = 0;
    while j < ins.len()
        invariant
            0 <= j <= ins@.len(),
            r@ == old(r)@ + texts_at(ins_view(ins@).take(j as int), k as int),
        decreases ins@.len() - j,
    {
        let ghost before = r@;
        if ins[j].0 == k {
            push_all(r, ins[j].1.as_slice());
        }
        proof {
            let w = ins_view(ins@);
            assert(w.take(j + 1).drop_last() =~= w.take(j as int));
            assert(w.take(j + 1).last() == (ins@[j as int].0 as int, ins@[j as int].1@));
        }
        j += 1;
        assert(r@ =~= old(r)@ + texts_at(ins_view(ins@).take(j as int), k as int));
    }
    assert(ins_view(ins@).take(ins@.len() as int) =~= ins_view(ins@));
}

/// Rewrites the test file text `content`: every `out:`, `err:` and `exit:`
/// directive is removed, and the new ones are written where the first
/// directive of their kind stood, or else before the first source line (or
/// at the end). A `None` stream, or `write_exit == false`, writes nothing.
pub fn rewrite_directives(
    content: &str,
    prefix: &str,
    new_stdout: Option<&str>,
    new_stderr: Option<&str>,
    new_exit: i32,
    write_exit: bool,
) -> (r: String)
    ensures
        r@ == rewritten(
            content@,
            prefix@,
            opt_str_ref(new_stdout),
            opt_str_ref(new_stderr),
            new_exit,
            write_exit,
        ),
{
    let w = RewriteWords::new();
    let pre = chars_of(prefix);
    let text = chars_of(content);
    let ls = split_lines(text.as_slice());
    let mut st = Rewriter {
        kept: Vec::new(),
        in_stdout: false,
        in_stderr: false,
        stdout_at: None,
        stderr_at: None,
        exit_at: None,
        first_source: None,
    };
    assert(st.view().kept =~= Seq::<Seq<char>>::empty());
    let mut i: usize = 0;
    while i < ls.len()
        invariant
            0 <= i <= ls@.len(),
            w.wf(),
            char_views(ls@) == lines(content@),
            pre@ == prefix@,
            st.view() == rewrite_scan(prefix@, char_views(ls@).take(i as int)),
            st.kept@.len() <= i,
        decreases ls@.len() - i,
    {
        proof {
            let v = char_views(ls@);
            assert(v.take(i + 1).drop_last() =~= v.take(i as int));
            assert(v.take(i + 1).last() == ls@[i as int]@);
        }
        st.step(&w, pre.as_slice(), ls[i].as_slice());
        i += 1;
    }
    assert(char_views(ls@).take(ls@.len() as int) =~= char_views(ls@));
    let ghost scan = st.view();
    let n = st.kept.len();
    let fallback = match st.first_source {
        Some(f) => f,
        None => n,
    };
    let mut ins: Vec<(usize, Vec<char>)> = Vec::new();
    if let Some(o) = new_stdout {
        let oc = chars_of(o);
        let kw = chars_of("out");
        ins.push((entry_at(st.stdout_at, fallback), format_directive(pre.as_slice(), kw.as_slice(), oc.as_slice())));
    }
    let ghost ins1 = ins@;
    if let Some(e) = new_stderr {
        let ec = chars_of(e);
        let kw = chars_of("err");
        ins.push((entry_at(st.stderr_at, fallback), format_directive(pre.as_slice(), kw.as_slice(), ec.as_slice())));
    }
    let ghost ins2 = ins@;
    if write_exit {
        let mut t: Vec<char> = Vec::new();
        push_all(&mut t, pre.as_slice());
        let kw = chars_of("exit: ");
        push_all(&mut t, kw.as_slice());
        let d = i32_to_decimal(new_exit);
        push_all(&mut t, d.as_slice());
        t.push('\n');
        assert(t@ =~= exit_text(prefix@, new_exit));
        ins.push((entry_at(st.exit_at, fallback), t));
    }
    proof {
        let spec_ins = insertions(
            prefix@,
            scan,
            opt_str_ref(new_stdout),
            opt_str_ref(new_stderr),
            new_exit,
            write_exit,
        );
        assert(ins_view(ins@) =~= spec_ins);
    }
    let mut r: Vec<char> = Vec::new();
    let mut k: usize = 0;
    while k < n
        invariant
            0 <= k <= n,
            n == st.kept@.len(),
            scan == st.view(),
            r@ == assembled(scan.kept, ins_view(ins@), k as nat),
        decreases n - k,
    {
        push_texts_at(&mut r, &ins, k);
        push_all(&mut r, st.kept[k].as_slice());
        k += 1;
    }
    push_texts_at(&mut r, &ins, n);
    string_from_chars(r.as_slice())
}

// ---------------------------------------------------------------------------
// Judging output
// ---------------------------------------------------------------------------

/// The text that `String::from_utf8_lossy` decodes from `b`.
pub uninterp spec fn lossy_utf8(b: Seq<u8>) -> Seq<char>;

/// Decodes `b` as UTF-8 by `String::from_utf8_lossy`, which puts U+FFFD in
/// place of invalid sequences. The result is named by `lossy_utf8`.
#[verifier::external_body]
fn decode_lossy(b: &[u8]) -> (r: String)
    ensures
        r@ == lossy_utf8(b@),
{
    String::from_utf8_lossy(b).into_owned()
}

/// A stream's expectation held against what it printed: nothing when the
/// stream is not checked or matches once trailing newlines are trimmed from
/// both; else the trimmed expected and actual text.
pub open spec fn stream_mismatch(expected: Option<Seq<char>>, actual: Seq<char>) -> Option<
    (Seq<char>, Seq<char>),
> {
    match expected {
        None => None,
        Some(e) => if trim_newlines(actual) == trim_newlines(e) {
            None
        } else {
            Some((trim_newlines(e), trim_newlines(actual)))
        },
    }
}

/// The exit code of a process, `-1` where it has none (killed by a signal).
pub open spec fn exit_code(status: Option<i32>) -> i32 {
    match status {
        Some(c) => c,
        None => -1i32,
    }
}

pub open spec fn diff_view(d: Diff) -> (Seq<char>, Seq<char>, Seq<char>) {
    (d.stream@, d.expected@, d.actual@)
}

pub open spec fn diffs_view(v: Seq<Diff>) -> Seq<(Seq<char>, Seq<char>, Seq<char>)> {
    v.map_values(|d: Diff| diff_view(d))
}

pub open spec fn mismatch_entries(stream: Seq<char>, m: Option<(Seq<char>, Seq<char>)>) -> Seq<
    (Seq<char>, Seq<char>, Seq<char>),
> {
    match m {
        Some((e, a)) => seq![(stream, e, a)],
        None => Seq::empty(),
    }
}

/// The mismatch on stdout of a run that printed `stdout`.
pub open spec fn stdout_mismatch(tc: TestCase, stdout: Seq<u8>) -> Option<(Seq<char>, Seq<char>)> {
    stream_mismatch(opt_str(tc.expected_stdout), lossy_utf8(stdout))
}

/// The mismatch on stderr of a run that printed `stderr`.
pub open spec fn stderr_mismatch(tc: TestCase, stderr: Seq<u8>) -> Option<(Seq<char>, Seq<char>)> {
    stream_mismatch(opt_str(tc.expected_stderr), lossy_utf8(stderr))
}

/// The expected and actual exit code, where they differ.
pub open spec fn exit_mismatch(tc: TestCase, status: Option<i32>) -> Option<(i32, i32)> {
    if exit_code(status) != tc.expected_exit {
        Some((tc.expected_exit, exit_code(status)))
    } else {
        None
    }
}

fn stream_check(expected: &String, actual: &str) -> (r: Option<(Vec<char>, Vec<char>)>)
    ensures
        match stream_mismatch(Some(expected@), actual@) {
            Some((e, a)) => r matches Some((re, ra)) && re@ == e && ra@ == a,
            None => r is None,
        },
{
    let ac = chars_of(actual);
    let a = trim_newlines_chars(ac.as_slice());
    let ec = chars_of(expected.as_str());
    let e = trim_newlines_chars(ec.as_slice());
    if chars_eq(a.as_slice(), e.as_slice()) {
        None
    } else {
        Some((e, a))
    }
}

/// Judges a run of the binary on `tc` whose output, decoded, was `stdout`
/// and `stderr`, and which ended with `status` (`None` when no exit code was
/// reported): it passes when each checked stream matches and the exit code
/// is the expected one.
pub fn check_text(tc: &TestCase, stdout: &str, stderr: &str, status: Option<i32>) -> (r:
    TestOutcome)
    ensures
        (r is Pass) <==> (stream_mismatch(opt_str(tc.expected_stdout), stdout@) is None
            && stream_mismatch(opt_str(tc.expected_stderr), stderr@) is None && exit_mismatch(
            *tc,
            status,
        ) is None),
        !(r is Updated),
        r matches TestOutcome::Fail { path, diffs, exit_mismatch: em } ==> {
            &&& path@ == tc.path@
            &&& diffs_view(diffs@) == mismatch_entries(
                "stdout"@,
                stream_mismatch(opt_str(tc.expected_stdout), stdout@),
            ) + mismatch_entries("stderr"@, stream_mismatch(opt_str(tc.expected_stderr), stderr@))
            &&& em == exit_mismatch(*tc, status)
            &&& diffs@.len() > 0 || em is Some
        },
        r is Pass ==> (status == Some(tc.expected_exit) || (status is None && tc.expected_exit
            == -1)),
        r matches TestOutcome::Fail { exit_mismatch: em, .. } ==> (em is None <==> (status == Some(
            tc.expected_exit,
        ) || (status is None && tc.expected_exit == -1))),
{
    let mut diffs: Vec<Diff> = Vec::new();
    if let Some(expected) = &tc.expected_stdout {
        if let Some((e, a)) = stream_check(expected, stdout) {
            diffs.push(
                Diff {
                    stream: "stdout",
                    expected: string_from_chars(e.as_slice()),
                    actual: string_from_chars(a.as_slice()),
                },
            );
        }
    }
    let ghost d1 = diffs@;
    assert(diffs_view(d1) =~= mismatch_entries(
        "stdout"@,
        stream_mismatch(opt_str(tc.expected_stdout), stdout@),
    ));
    if let Some(expected) = &tc.expected_stderr {
        if let Some((e, a)) = stream_check(expected, stderr) {
            diffs.push(
                Diff {
                    stream: "stderr",
                    expected: string_from_chars(e.as_slice()),
                    actual: string_from_chars(a.as_slice()),
                },
            );
        }
    }
    assert(diffs_view(diffs@) =~= mismatch_entries(
        "stdout"@,
        stream_mismatch(opt_str(tc.expected_stdout), stdout@),
    ) + mismatch_entries("stderr"@, stream_mismatch(opt_str(tc.expected_stderr), stderr@)));
    let actual_exit = match status {
        Some(c) => c,
        None => -1i32,
    };
    let em = if actual_exit != tc.expected_exit {
        Some((tc.expected_exit, actual_exit))
    } else {
        None
    };
    if diffs.len() == 0 && em.is_none() {
        TestOutcome::Pass
    } else {
        TestOutcome::Fail { path: tc.path.clone(), diffs, exit_mismatch: em }
    }
}

/// Judges a run of the binary on `tc` that printed `stdout` and `stderr`
/// and ended with `status` (`None` when no exit code was reported): the
/// output is decoded as UTF-8, invalid sequences replaced, and judged by
/// `check_text`.
pub fn check_output(tc: &TestCase, stdout: &[u8], stderr: &[u8], status: Option<i32>) -> (r:
    TestOutcome)
    ensures
        (r is Pass) <==> (stdout_mismatch(*tc, stdout@) is None && stderr_mismatch(*tc, stderr@) is None
            && exit_mismatch(*tc, status) is None),
        !(r is Updated),
        r matches TestOutcome::Fail { path, diffs, exit_mismatch: em } ==> {
            &&& path@ == tc.path@
            &&& diffs_view(diffs@) == mismatch_entries("stdout"@, stdout_mismatch(*tc, stdout@))
                + mismatch_entries("stderr"@, stderr_mismatch(*tc, stderr@))
            &&& em == exit_mismatch(*tc, status)
            &&& diffs@.len() > 0 || em is Some
        },
        r is Pass ==> (status == Some(tc.expected_exit) || (status is None && tc.expected_exit
            == -1)),
        r matches TestOutcome::Fail { exit_mismatch: em, .. } ==> (em is None <==> (status == Some(
            tc.expected_exit,
        ) || (status is None && tc.expected_exit == -1))),
{
    let out = decode_lossy(stdout);
    let err = decode_lossy(stderr);
    check_text(tc, out.as_str(), err.as_str(), status)
}

/// The arguments that the binary is run with on `tc`: the test's arguments,
/// then the path of the test file.
pub fn command_args(tc: &TestCase) -> (r: Vec<String>)
    ensures
        str_views(r@) == str_views(tc.args@).push(tc.path@),
{
    let mut r: Vec<String> = Vec::new();
    let mut i: usize = 0;
    while i < tc.args.len()
        invariant
            0 <= i <= tc.args@.len(),
            str_views(r@) == str_views(tc.args@.take(i as int)),
        decreases tc.args@.len() - i,
    {
        let ghost before = r@;
        r.push(tc.args[i].clone());
        proof {
            assert(str_views(r@) =~= str_views(before).push(tc.args@[i as int]@));
            assert(tc.args@.take(i + 1) =~= tc.args@.take(i as int).push(tc.args@[i as int]));
            assert(str_views(tc.args@.take(i + 1)) =~= str_views(tc.args@.take(i as int)).push(
                tc.args@[i as int]@,
            ));
        }
        i += 1;
    }
    let ghost before = r@;
    r.push(tc.path.clone());
    assert(str_views(r@) =~= str_views(before).push(tc.path@));
    assert(tc.args@.take(tc.args@.len() as int) =~= tc.args@);
    r
}

/// `s`, ended by a `'\n'` when it does not end with one.
pub open spec fn with_final_newline(s: Seq<char>) -> Seq<char> {
    if s.len() > 0 && s.last() == '\n' {
        s
    } else {
        s.push('\n')
    }
}

/// The stdout expectation that an update to a run writes: the output less
/// its final newlines, where the file had a stdout expectation or the run
/// printed something.
pub open spec fn updated_stdout(tc: TestCase, stdout: Seq<u8>) -> Option<Seq<char>> {
    let out = trim_newlines(lossy_utf8(stdout));
    if tc.expected_stdout is Some || out.len() > 0 {
        Some(out)
    } else {
        None
    }
}

/// The stderr expectation that an update to a run writes, as for stdout.
pub open spec fn updated_stderr(tc: TestCase, stderr: Seq<u8>) -> Option<Seq<char>> {
    let err = trim_newlines(lossy_utf8(stderr));
    if tc.expected_stderr is Some || err.len() > 0 {
        Some(err)
    } else {
        None
    }
}

/// Whether an update to a run writes an exit directive: where the old or the
/// new exit code is not zero.
pub open spec fn writes_exit(tc: TestCase, status: Option<i32>) -> bool {
    exit_code(status) != 0 || tc.expected_exit != 0
}

/// The new text of the test file `tc` whose current text is `content`, after
/// a run that printed `stdout` and `stderr` and ended with `status`.
pub open spec fn updated_text(tc: TestCase, content: Seq<char>, stdout: Seq<u8>, stderr: Seq<u8>, status: Option<i32>) -> Seq<char> {
    with_final_newline(
        rewritten(
            content,
            tc.prefix@,
            updated_stdout(tc, stdout),
            updated_stderr(tc, stderr),
            exit_code(status),
            writes_exit(tc, status),
        ),
    )
}

/// The text that replaces `content`, the current text of the test file `tc`,
/// when its expectations are updated to a run that printed `stdout` and
/// `stderr` and ended with `status`.
pub fn update_content(tc: &TestCase, content: &str, stdout: &[u8], stderr: &[u8], status: Option<i32>) -> (r: String)
    ensures
        r@ == updated_text(*tc, content@, stdout@, stderr@, status),
{
    let actual_stdout = decode_lossy(stdout);
    let actual_stderr = decode_lossy(stderr);
    let actual_exit = match status {
        Some(c) => c,
        None => -1i32,
    };
    let oc = chars_of(actual_stdout.as_str());
    let out_chars = trim_newlines_chars(oc.as_slice());
    let new_stdout = string_from_chars(out_chars.as_slice());
    let ec = chars_of(actual_stderr.as_str());
    let err_chars = trim_newlines_chars(ec.as_slice());
    let new_stderr = string_from_chars(err_chars.as_slice());
    let stdout_directive = if tc.expected_stdout.is_some() || out_chars.len() > 0 {
        Some(new_stdout.as_str())
    } else {
        None
    };
    let stderr_directive = if tc.expected_stderr.is_some() || err_chars.len() > 0 {
        Some(new_stderr.as_str())
    } else {
        None
    };
    let write_exit = actual_exit != 0 || tc.expected_exit != 0;
    let result = rewrite_directives(
        content,
        tc.prefix.as_str(),
        stdout_directive,
        stderr_directive,
        actual_exit,
        write_exit,
    );
    let mut rc = chars_of(result.as_str());
    if !(rc.len() > 0 && rc[rc.len() - 1] == '\n') {
        rc.push('\n');
    }
    string_from_chars(rc.as_slice())
}

/// `k` newline characters.
pub open spec fn newlines(k: nat) -> Seq<char> {
    Seq::new(k, |i: int| '\n')
}

proof fn lemma_trim_newlines_append(s: Seq<char>, k: nat)
    ensures
        trim_newlines(s + newlines(k)) == trim_newlines(s),
    decreases k,
{
    if k > 0 {
        let t = s + newlines(k);
        assert(t.drop_last() =~= s + newlines((k - 1) as nat));
        assert(t.last() == '\n');
        lemma_trim_newlines_append(s, (k - 1) as nat);
    } else {
        assert(s + newlines(0) =~= s);
    }
}

/// How a stream is compared: a stream without an expectation is never a
/// mismatch; otherwise it matches exactly when the output and the
/// expectation agree once trailing newlines are trimmed, so that trailing
/// newlines on either side never change the verdict.
pub proof fn stream_comparison(expected: Seq<char>, actual: Seq<char>, i: nat, j: nat)
    ensures
        stream_mismatch(None, actual) is None,
        stream_mismatch(Some(expected), actual) is None <==> trim_newlines(actual) == trim_newlines(
            expected,
        ),
        stream_mismatch(Some(expected + newlines(i)), actual + newlines(j)) == stream_mismatch(
            Some(expected),
            actual,
        ),
{
    lemma_trim_newlines_append(expected, i);
    lemma_trim_newlines_append(actual, j);
}


/// A run's exit code is judged by equality: there is no mismatch exactly
/// when the code the process reported (`-1` where it reported none) equals
/// the expected one, and a mismatch holds the expected and the actual code,
/// in that order.
pub proof fn exit_code_judged(tc: TestCase, status: Option<i32>)
    ensures
        exit_mismatch(tc, status) is None <==> (match status {
            Some(c) => c == tc.expected_exit,
            None => tc.expected_exit == -1,
        }),
        exit_mismatch(tc, status) is Some ==> exit_mismatch(tc, status) == Some(
            (
                tc.expected_exit,
                match status {
                    Some(c) => c,
                    None => -1i32,
                },
            ),
        ),
{
}

} // verus!
