//! What an update gives back: a test file rewritten with the output of a run
//! has exactly that output as its expectations, and rewriting it again with
//! the same output changes nothing.

use vstd::prelude::*;

use crate::parser::{initial_scan, scan_file, scan_line, scan_lines, Scan, State, TestCase};
use crate::patterns::{default_strings, PatternStrings};
use crate::runner::{
    assembled, block_body, directive_text, exit_code, exit_text, insertions, lossy_utf8, opt_entry,
    first_of, initial_rewrite, inline_form, rewrite_step, Rewrite,
    rewrite_scan, rewritten, stream_mismatch, texts_at, updated_stderr, updated_stdout, updated_text,
    with_final_newline, writes_exit,
};
use crate::text::{decimal, decimal_parse_roundtrip, int_to_decimal, is_ws, lemma_decimal_digits, trim_newlines, join_lines, trim_end, trim_start, lines, split_newlines, strip_cr, strip_prefix, trim};

verus! {

/// Whether `s` ends a line (or is empty), so that what follows it starts a
/// new line.
pub open spec fn ends_line(s: Seq<char>) -> bool {
    s.len() == 0 || s.last() == '\n'
}

proof fn lemma_split_concat(a: Seq<char>, b: Seq<char>)
    requires
        ends_line(a),
    ensures
        split_newlines(a).len() >= 1,
        split_newlines(a).last() == Seq::<char>::empty(),
        split_newlines(a + b) == split_newlines(a).drop_last() + split_newlines(b),
    decreases b.len(),
{
    lemma_split_len(a);
    lemma_split_len(b);
    if a.len() > 0 {
        assert(split_newlines(a) == split_newlines(a.drop_last()).push(Seq::<char>::empty()));
    } else {
        assert(split_newlines(a) == seq![Seq::<char>::empty()]);
    }
    if b.len() == 0 {
        assert(a + b == a);
        assert(split_newlines(b) == seq![Seq::<char>::empty()]);
        assert(split_newlines(a) =~= split_newlines(a).drop_last() + split_newlines(b));
    } else {
        lemma_split_concat(a, b.drop_last());
        assert((a + b).drop_last() == a + b.drop_last());
        assert((a + b).last() == b.last());
        let pa = split_newlines(a).drop_last();
        let pb = split_newlines(b.drop_last());
        lemma_split_len(b.drop_last());
        if b.last() == '\n' {
            assert(split_newlines(a + b) =~= pa + pb.push(Seq::<char>::empty()));
        } else {
            assert(split_newlines(a + b) =~= pa + pb.update(pb.len() - 1, pb.last().push(b.last())));
        }
    }
}

proof fn lemma_split_len(s: Seq<char>)
    ensures
        split_newlines(s).len() >= 1,
    decreases s.len(),
{
    if s.len() > 0 {
        lemma_split_len(s.drop_last());
    }
}

/// The lines of two texts, the first ending a line, are the lines of each.
pub proof fn lemma_lines_concat(a: Seq<char>, b: Seq<char>)
    requires
        ends_line(a),
    ensures
        lines(a + b) == lines(a) + lines(b),
{
    lemma_split_concat(a, b);
    lemma_split_len(b);
    let pa = split_newlines(a);
    let pb = split_newlines(b);
    let p = split_newlines(a + b);
    assert(p.drop_last() =~= pa.drop_last() + pb.drop_last());
    assert(p.last() == pb.last());
    let f = |l: Seq<char>| strip_cr(l);
    assert(p.drop_last().map_values(f) =~= pa.drop_last().map_values(f) + pb.drop_last().map_values(f));
    assert(lines(a) == pa.drop_last().map_values(f));
}

/// The pieces of a text without newlines: the text itself.
proof fn lemma_split_no_newline(l: Seq<char>)
    requires
        !l.contains('\n'),
    ensures
        split_newlines(l) == seq![l],
    decreases l.len(),
{
    if l.len() == 0 {
        assert(l =~= Seq::<char>::empty());
    } else {
        assert(!l.drop_last().contains('\n')) by {
            if l.drop_last().contains('\n') {
                let i = choose|i: int| 0 <= i < l.drop_last().len() && l.drop_last()[i] == '\n';
                assert(l[i] == '\n');
            }
        }
        lemma_split_no_newline(l.drop_last());
        assert(l.last() != '\n') by {
            assert(l[l.len() - 1] == l.last());
        }
        assert(l.drop_last().push(l.last()) =~= l);
        let p = split_newlines(l.drop_last());
        assert(split_newlines(l) == p.update(p.len() - 1, p.last().push(l.last())));
        assert(split_newlines(l) =~= seq![l]);
    }
}

/// A line without newlines, ended by `'\n'`, is that one line, less a
/// carriage return that ends it.
pub proof fn lemma_lines_one(l: Seq<char>)
    requires
        !l.contains('\n'),
    ensures
        lines(l + seq!['\n']) == seq![strip_cr(l)],
{
    let s = l + seq!['\n'];
    lemma_split_no_newline(l);
    assert(s.drop_last() =~= l);
    assert(split_newlines(s) == seq![l].push(Seq::<char>::empty()));
    assert(split_newlines(s).drop_last() =~= seq![l]);
    assert(seq![l].map_values(|x: Seq<char>| strip_cr(x)) =~= seq![strip_cr(l)]);
}

/// A line without line-break characters, ended by `'\n'`, is that one line.
pub proof fn lemma_lines_single(l: Seq<char>)
    requires
        !l.contains('\n'),
        !l.contains('\r'),
    ensures
        lines(l + seq!['\n']) == seq![l],
{
    lemma_lines_one(l);
    assert(strip_cr(l) == l) by {
        if l.len() > 0 && l.last() == '\r' {
            assert(l.contains('\r')) by {
                assert(l[l.len() - 1] == '\r');
            }
        }
    }
}

/// A line that fits on one line, ended by `'\n'`, reads back as itself.
proof fn lemma_line_reads_back(l: Seq<char>)
    requires
        one_line(l),
    ensures
        lines(l + seq!['\n']) == seq![l],
{
    lemma_lines_one(l);
}

/// Scanning `ls` on from `r`.
pub open spec fn scan_from(p: PatternStrings, r: Result<Scan, State>, ls: Seq<Seq<char>>) -> Result<
    Scan,
    State,
>
    decreases ls.len(),
{
    if ls.len() == 0 {
        r
    } else {
        match scan_from(p, r, ls.drop_last()) {
            Ok(st) => scan_line(p, st, ls.last()),
            Err(s) => Err(s),
        }
    }
}

proof fn lemma_scan_from_concat(
    p: PatternStrings,
    r: Result<Scan, State>,
    a: Seq<Seq<char>>,
    b: Seq<Seq<char>>,
)
    ensures
        scan_from(p, r, a + b) == scan_from(p, scan_from(p, r, a), b),
    decreases b.len(),
{
    if b.len() == 0 {
        assert(a + b == a);
    } else {
        lemma_scan_from_concat(p, r, a, b.drop_last());
        assert((a + b).drop_last() == a + b.drop_last());
        assert((a + b).last() == b.last());
    }
}

proof fn lemma_scan_one(p: PatternStrings, st: Scan, l: Seq<char>)
    ensures
        scan_from(p, Ok(st), seq![l]) == scan_line(p, st, l),
{
    assert(seq![l].drop_last() =~= Seq::<Seq<char>>::empty());
    assert(scan_from(p, Ok(st), seq![l].drop_last()) == Ok::<Scan, State>(st));
    assert(seq![l].last() == l);
}

proof fn lemma_scan_lines_from(p: PatternStrings, ls: Seq<Seq<char>>)
    ensures
        scan_lines(p, ls) == scan_from(p, Ok(initial_scan()), ls),
    decreases ls.len(),
{
    if ls.len() > 0 {
        lemma_scan_lines_from(p, ls.drop_last());
    }
}

/// Scanning the lines of `text` on from `r`.
pub open spec fn scan_text(p: PatternStrings, r: Result<Scan, State>, text: Seq<char>) -> Result<
    Scan,
    State,
> {
    scan_from(p, r, lines(text))
}

proof fn lemma_scan_text_concat(
    p: PatternStrings,
    r: Result<Scan, State>,
    a: Seq<char>,
    b: Seq<char>,
)
    requires
        ends_line(a),
    ensures
        scan_text(p, r, a + b) == scan_text(p, scan_text(p, r, a), b),
{
    lemma_lines_concat(a, b);
    lemma_scan_from_concat(p, r, lines(a), lines(b));
}

proof fn lemma_ends_line_concat(a: Seq<char>, b: Seq<char>)
    requires
        ends_line(a),
        ends_line(b),
    ensures
        ends_line(a + b),
{
    if b.len() > 0 {
        assert((a + b).last() == b.last());
    } else {
        assert(a + b == a);
    }
}

/// A scan state outside any block, with the given expectations.
pub open spec fn settled(st: Scan, o: Option<Seq<char>>, e: Option<Seq<char>>, x: i32) -> bool {
    &&& st.state == State::Idle
    &&& st.stdout_lines.len() == 0
    &&& st.stderr_lines.len() == 0
    &&& st.expected_stdout == o
    &&& st.expected_stderr == e
    &&& st.expected_exit == x
}

/// A text that fits on one line: no newline in it, and no carriage return
/// at its end.
pub open spec fn one_line(l: Seq<char>) -> bool {
    !l.contains('\n') && !ends_cr(l)
}

/// A text without line-break characters.
pub open spec fn plain(l: Seq<char>) -> bool {
    !l.contains('\n') && !l.contains('\r')
}

proof fn lemma_prefix_self(s: Seq<char>)
    ensures
        s.is_prefix_of(s),
{
    assert(s =~= s.subrange(0, s.len() as int));
}

/// The pieces between newlines hold no newline, and only characters of `s`.
proof fn lemma_split_pieces(s: Seq<char>)
    ensures
        forall|i: int|
            0 <= i < split_newlines(s).len() ==> !(#[trigger] split_newlines(s)[i]).contains('\n'),
        forall|i: int, c: char|
            0 <= i < split_newlines(s).len() && #[trigger] split_newlines(s)[i].contains(c)
                ==> s.contains(c),
    decreases s.len(),
{
    lemma_split_len(s);
    if s.len() > 0 {
        let d = s.drop_last();
        lemma_split_pieces(d);
        lemma_split_len(d);
        let q = split_newlines(d);
        assert forall|c: char| d.contains(c) implies s.contains(c) by {
            let j = choose|j: int| 0 <= j < d.len() && d[j] == c;
            assert(s[j] == c);
        }
        if s.last() == '\n' {
            assert forall|i: int| 0 <= i < split_newlines(s).len() implies !(
            #[trigger] split_newlines(s)[i]).contains('\n') by {
                if i < q.len() {
                    assert(split_newlines(s)[i] == q[i]);
                } else {
                    assert(split_newlines(s)[i] =~= Seq::<char>::empty());
                }
            }
            assert forall|i: int, c: char|
                0 <= i < split_newlines(s).len() && #[trigger] split_newlines(s)[i].contains(c) implies s.contains(c) by {
                if i < q.len() {
                    assert(split_newlines(s)[i] == q[i]);
                } else {
                    assert(split_newlines(s)[i] =~= Seq::<char>::empty());
                }
            }
        } else {
            let last = q.last().push(s.last());
            assert(split_newlines(s) == q.update(q.len() - 1, last));
            assert(s.contains(s.last())) by {
                assert(s[s.len() - 1] == s.last());
            }
            assert(!last.contains('\n')) by {
                if last.contains('\n') {
                    let j = choose|j: int| 0 <= j < last.len() && last[j] == '\n';
                    if j < last.len() - 1 {
                        assert(q.last()[j] == '\n');
                        assert(q[q.len() - 1].contains('\n'));
                    }
                }
            }
            assert forall|i: int| 0 <= i < split_newlines(s).len() implies !(
            #[trigger] split_newlines(s)[i]).contains('\n') by {
                if i < q.len() - 1 {
                    assert(split_newlines(s)[i] == q[i]);
                }
            }
            assert forall|i: int, c: char|
                0 <= i < split_newlines(s).len() && #[trigger] split_newlines(s)[i].contains(c) implies s.contains(c) by {
                if i < q.len() - 1 {
                    assert(split_newlines(s)[i] == q[i]);
                } else {
                    let j = choose|j: int| 0 <= j < last.len() && last[j] == c;
                    if j < last.len() - 1 {
                        assert(q.last()[j] == c);
                        assert(q[q.len() - 1].contains(c));
                    }
                }
            }
        }
    }
}

/// The lines of a text hold no newline.
proof fn lemma_lines_no_newline(s: Seq<char>)
    ensures
        forall|i: int| 0 <= i < lines(s).len() ==> !(#[trigger] lines(s)[i]).contains('\n'),
{
    lemma_split_pieces(s);
    lemma_split_len(s);
    let q = split_newlines(s);
    assert forall|i: int| 0 <= i < lines(s).len() implies !(#[trigger] lines(s)[i]).contains('\n') by {
        let l = lines(s)[i];
        let piece = q[i];
        if i < q.len() - 1 {
            assert(l == strip_cr(piece));
        } else {
            assert(l == piece);
        }
        if l.contains('\n') {
            let j = choose|j: int| 0 <= j < l.len() && l[j] == '\n';
            assert(piece[j] == '\n');
            assert(piece.contains('\n'));
        }
    }
}

/// The lines of a block body: its lines behind the prefix.
proof fn lemma_block_body_lines(prefix: Seq<char>, ls: Seq<Seq<char>>)
    requires
        forall|i: int|
            0 <= i < ls.len() ==> !(prefix + #[trigger] ls[i]).contains('\n') && !ends_cr(
                prefix + ls[i],
            ),
    ensures
        lines(block_body(prefix, ls)) == ls.map_values(|l: Seq<char>| prefix + l),
        ends_line(block_body(prefix, ls)),
    decreases ls.len(),
{
    if ls.len() == 0 {
        assert(lines(Seq::<char>::empty()) =~= Seq::<Seq<char>>::empty()) by {
            assert(split_newlines(Seq::<char>::empty()) == seq![Seq::<char>::empty()]);
        }
    } else {
        lemma_block_body_lines(prefix, ls.drop_last());
        let a = block_body(prefix, ls.drop_last());
        let l = prefix + ls.last();
        assert(!(prefix + ls[ls.len() - 1]).contains('\n') && !ends_cr(prefix + ls[ls.len() - 1]));
        lemma_lines_concat(a, l + seq!['\n']);
        lemma_lines_one(l);
        assert(block_body(prefix, ls) =~= a + (l + seq!['\n']));
        assert(ls.map_values(|x: Seq<char>| prefix + x) =~= ls.drop_last().map_values(
            |x: Seq<char>| prefix + x,
        ).push(l));
    }
}

/// The lines of a block body, read back: its lines behind the prefix, less
/// a carriage return that ends them.
proof fn lemma_block_body_lines_cr(prefix: Seq<char>, ls: Seq<Seq<char>>)
    requires
        forall|i: int| 0 <= i < ls.len() ==> !(prefix + #[trigger] ls[i]).contains('\n'),
    ensures
        lines(block_body(prefix, ls)) == ls.map_values(|l: Seq<char>| strip_cr(prefix + l)),
        ends_line(block_body(prefix, ls)),
    decreases ls.len(),
{
    if ls.len() == 0 {
        assert(lines(Seq::<char>::empty()) =~= Seq::<Seq<char>>::empty()) by {
            assert(split_newlines(Seq::<char>::empty()) == seq![Seq::<char>::empty()]);
        }
    } else {
        lemma_block_body_lines_cr(prefix, ls.drop_last());
        let a = block_body(prefix, ls.drop_last());
        let l = prefix + ls.last();
        assert(!(prefix + ls[ls.len() - 1]).contains('\n'));
        lemma_lines_concat(a, l + seq!['\n']);
        lemma_lines_one(l);
        assert(block_body(prefix, ls) =~= a + (l + seq!['\n']));
        assert(ls.map_values(|x: Seq<char>| strip_cr(prefix + x)) =~= ls.drop_last().map_values(
            |x: Seq<char>| strip_cr(prefix + x),
        ).push(strip_cr(l)));
    }
}

proof fn lemma_plain_concat(a: Seq<char>, b: Seq<char>)
    requires
        plain(a),
        plain(b),
    ensures
        plain(a + b),
{
    assert forall|c: char| (a + b).contains(c) implies a.contains(c) || b.contains(c) by {
        let j = choose|j: int| 0 <= j < (a + b).len() && (a + b)[j] == c;
        if j < a.len() {
            assert(a[j] == c);
        } else {
            assert(b[j - a.len()] == c);
        }
    }
}

proof fn lemma_strip_prefix_concat(prefix: Seq<char>, rest: Seq<char>)
    ensures
        strip_prefix(prefix + rest, prefix) == Some(rest),
{
    assert((prefix + rest).subrange(0, prefix.len() as int) =~= prefix);
    assert((prefix + rest).skip(prefix.len() as int) =~= rest);
}

/// Whether `l` ends with a carriage return.
pub open spec fn ends_cr(l: Seq<char>) -> bool {
    l.len() > 0 && l.last() == '\r'
}

proof fn lemma_no_newline_concat(a: Seq<char>, b: Seq<char>)
    requires
        !a.contains('\n'),
        !b.contains('\n'),
    ensures
        !(a + b).contains('\n'),
{
    if (a + b).contains('\n') {
        let j = choose|j: int| 0 <= j < (a + b).len() && (a + b)[j] == '\n';
        if j < a.len() {
            assert(a[j] == '\n');
        } else {
            assert(b[j - a.len()] == '\n');
        }
    }
}

/// Text that a directive holds and gives back unchanged: made of its lines
/// joined by newlines, none of them ended by a carriage return, and one that
/// the rewriter passes over (see `rewritable`).
pub open spec fn writable(c: Seq<char>, close: Seq<char>) -> bool {
    &&& join_lines(lines(c)) == c
    &&& forall|i: int| 0 <= i < lines(c).len() ==> !ends_cr(#[trigger] lines(c)[i])
    &&& rewritable(c, close)
}

/// Text that a directive holds and that the rewriter passes over as a
/// whole: where it is written as a block, none of its lines reads as the
/// closing tag `close`.
pub open spec fn rewritable(c: Seq<char>, close: Seq<char>) -> bool {
    !inline_form(c) ==> forall|i: int|
        0 <= i < lines(c).len() ==> trim(#[trigger] lines(c)[i]) != close
}

proof fn lemma_trim_unchanged(s: Seq<char>)
    requires
        s.len() > 0,
        !is_ws(s[0]),
        !is_ws(s.last()),
    ensures
        trim(s) == s,
{
}

proof fn lemma_trim_space_then(c: Seq<char>)
    requires
        c.len() > 0,
        !is_ws(c[0]),
        !is_ws(c.last()),
    ensures
        trim(seq![' '] + c) == c,
{
    let s = seq![' '] + c;
    assert(s.drop_first() =~= c);
    assert(is_ws(s[0]));
    assert(trim_start(c) == c);
    assert(trim_start(s) == trim_start(c));
    assert(trim_end(c) == c);
}

/// Scanning block lines behind the prefix inside an `out:` block collects
/// them.
proof fn lemma_stdout_block(prefix: Seq<char>, st: Scan, ls: Seq<Seq<char>>)
    requires
        st.state == State::InStdout,
        forall|i: int| 0 <= i < ls.len() ==> trim(#[trigger] ls[i]) != ":out"@,
    ensures
        scan_from(default_strings(prefix), Ok(st), ls.map_values(|l: Seq<char>| prefix + l))
            == Ok::<Scan, State>(Scan { stdout_lines: st.stdout_lines + ls, ..st }),
    decreases ls.len(),
{
    let m = ls.map_values(|l: Seq<char>| prefix + l);
    if ls.len() == 0 {
        assert(st.stdout_lines + ls =~= st.stdout_lines);
    } else {
        lemma_stdout_block(prefix, st, ls.drop_last());
        assert(m.drop_last() =~= ls.drop_last().map_values(|l: Seq<char>| prefix + l));
        assert(m.last() == prefix + ls.last());
        lemma_strip_prefix_concat(prefix, ls.last());
        assert(trim(ls[ls.len() - 1]) != ":out"@);
        let p = default_strings(prefix);
        let st1 = Scan { stdout_lines: st.stdout_lines + ls.drop_last(), ..st };
        assert(scan_from(p, Ok(st), m.drop_last()) == Ok::<Scan, State>(st1));
        assert(scan_line(p, st1, m.last()) == Ok::<Scan, State>(
            Scan { stdout_lines: st1.stdout_lines.push(ls.last()), ..st1 },
        ));
        assert(st.stdout_lines + ls.drop_last() + seq![ls.last()] =~= st.stdout_lines + ls);
        assert(st1.stdout_lines.push(ls.last()) =~= st.stdout_lines + ls);
    }
}

/// Scanning block lines behind the prefix inside an `err:` block collects
/// them.
proof fn lemma_stderr_block(prefix: Seq<char>, st: Scan, ls: Seq<Seq<char>>)
    requires
        st.state == State::InStderr,
        forall|i: int| 0 <= i < ls.len() ==> trim(#[trigger] ls[i]) != ":err"@,
    ensures
        scan_from(default_strings(prefix), Ok(st), ls.map_values(|l: Seq<char>| prefix + l))
            == Ok::<Scan, State>(Scan { stderr_lines: st.stderr_lines + ls, ..st }),
    decreases ls.len(),
{
    let m = ls.map_values(|l: Seq<char>| prefix + l);
    if ls.len() == 0 {
        assert(st.stderr_lines + ls =~= st.stderr_lines);
    } else {
        lemma_stderr_block(prefix, st, ls.drop_last());
        assert(m.drop_last() =~= ls.drop_last().map_values(|l: Seq<char>| prefix + l));
        assert(m.last() == prefix + ls.last());
        lemma_strip_prefix_concat(prefix, ls.last());
        assert(trim(ls[ls.len() - 1]) != ":err"@);
        let p = default_strings(prefix);
        let st1 = Scan { stderr_lines: st.stderr_lines + ls.drop_last(), ..st };
        assert(scan_from(p, Ok(st), m.drop_last()) == Ok::<Scan, State>(st1));
        assert(scan_line(p, st1, m.last()) == Ok::<Scan, State>(
            Scan { stderr_lines: st1.stderr_lines.push(ls.last()), ..st1 },
        ));
        assert(st.stderr_lines + ls.drop_last() + seq![ls.last()] =~= st.stderr_lines + ls);
        assert(st1.stderr_lines.push(ls.last()) =~= st.stderr_lines + ls);
    }
}

/// An inline `out:` directive, read outside any block with no stdout
/// expectation yet, sets that expectation to its text.
proof fn lemma_out_single(prefix: Seq<char>, st: Scan, c: Seq<char>, e: Option<Seq<char>>, x: i32)
    requires
        one_line(prefix),
        settled(st, None, e, x),
        inline_form(c),
        writable(c, ":out"@),
    ensures
        scan_text(default_strings(prefix), Ok(st), directive_text(prefix, "out"@, c)) matches Ok(
            st2,
        ) && settled(st2, Some(c), e, x) && st2.args == st.args,
        ends_line(directive_text(prefix, "out"@, c)),
{
    reveal_strlit("out");
    reveal_strlit(":out");
    reveal_strlit("out:");
    reveal_strlit("args:");
    reveal_strlit("err:");
    let p = default_strings(prefix);
    let text = directive_text(prefix, "out"@, c);
    let r = "out"@ + seq![':', ' '] + c;
    let l = prefix + r;
    lemma_plain_concat("out"@, seq![':', ' ']);
    lemma_no_newline_concat("out"@ + seq![':', ' '], c);
    lemma_no_newline_concat(prefix, r);
    assert(text =~= l + seq!['\n']);
    lemma_lines_one(l);
    assert(l.last() == c.last());
    assert(strip_cr(l) == l);
    lemma_strip_prefix_concat(prefix, r);
    assert(r[0] == 'o');
    assert(r.last() == c.last());
    lemma_trim_unchanged(r);
    assert(r.subrange(0, 4) =~= "out:"@);
    assert(r.skip(4) =~= seq![' '] + c);
    lemma_trim_space_then(c);
    assert(r != "args:"@ && r != "out:"@ && r != "err:"@);
    assert(!"args:"@.is_prefix_of(r)) by {
        if "args:"@.is_prefix_of(r) {
            assert(r.subrange(0, 5)[0] == r[0]);
        }
    }
    assert(!("err:"@.is_prefix_of(r))) by {
        if "err:"@.is_prefix_of(r) {
            assert(r.subrange(0, 4)[0] == "err:"@[0]);
        }
    }
    lemma_scan_one(p, st, l);
}

proof fn lemma_out_block_directive(prefix: Seq<char>, st: Scan, c: Seq<char>, e: Option<Seq<char>>, x: i32)
    requires
        one_line(prefix),
        settled(st, None, e, x),
        !inline_form(c),
        writable(c, ":out"@),
    ensures
        scan_text(default_strings(prefix), Ok(st), directive_text(prefix, "out"@, c)) matches Ok(
            st2,
        ) && settled(st2, Some(c), e, x) && st2.args == st.args,
        ends_line(directive_text(prefix, "out"@, c)),
{
    reveal_strlit("out");
    reveal_strlit(":out");
    reveal_strlit("out:");
    reveal_strlit("args:");
    reveal_strlit("err:");
    let p = default_strings(prefix);
    let text = directive_text(prefix, "out"@, c);
    let a0 = prefix + ("out"@ + seq![':']);
    let a = a0 + seq!['\n'];
    let b = block_body(prefix, lines(c));
    let c0 = prefix + (seq![':'] + "out"@);
    let cc = c0 + seq!['\n'];
    assert(text =~= a + (b + cc));
    lemma_plain_concat("out"@, seq![':']);
    lemma_no_newline_concat(prefix, "out"@ + seq![':']);
    lemma_plain_concat(seq![':'], "out"@);
    lemma_no_newline_concat(prefix, seq![':'] + "out"@);
    lemma_lines_no_newline(c);
    assert forall|i: int| 0 <= i < lines(c).len() implies !(prefix + #[trigger] lines(c)[i]).contains(
        '\n',
    ) && !ends_cr(prefix + lines(c)[i]) by {
        let li = lines(c)[i];
        lemma_no_newline_concat(prefix, li);
        if li.len() == 0 {
            assert(prefix + li =~= prefix);
            if prefix.len() > 0 {
                assert(prefix[prefix.len() - 1] == prefix.last());
            }
        } else {
            assert((prefix + li).last() == li.last());
        }
    }
    lemma_block_body_lines(prefix, lines(c));
    assert(a0.last() == ':');
    assert(c0.last() == c0[c0.len() - 1]);
    lemma_line_reads_back(a0);
    lemma_line_reads_back(c0);
    lemma_scan_text_concat(p, Ok(st), a, b + cc);
    lemma_ends_line_concat(a, b + cc);
    lemma_ends_line_concat(b, cc);
    // The opening line.
    lemma_strip_prefix_concat(prefix, "out"@ + seq![':']);
    let t0 = "out"@ + seq![':'];
    assert(t0 =~= "out:"@);
    lemma_trim_unchanged(t0);
    lemma_scan_one(p, st, a0);
    assert(t0 != "args:"@);
    let st_in = Scan { state: State::InStdout, ..st };
    assert(scan_line(p, st, a0) == Ok::<Scan, State>(st_in));
    // The block's lines.
    lemma_scan_text_concat(p, Ok(st_in), b, cc);
    lemma_stdout_block(prefix, st_in, lines(c));
    let st_full = Scan { stdout_lines: st_in.stdout_lines + lines(c), ..st_in };
    assert(scan_text(p, Ok(st_in), b) == Ok::<Scan, State>(st_full));
    // The closing line.
    lemma_strip_prefix_concat(prefix, seq![':'] + "out"@);
    let t1 = seq![':'] + "out"@;
    assert(t1 =~= ":out"@);
    lemma_trim_unchanged(t1);
    lemma_scan_one(p, st_full, c0);
    assert(st_full.stdout_lines =~= lines(c));
}

/// An `out` directive holding writable text, read outside any block with no
/// stdout expectation yet, sets that expectation to the text.
proof fn lemma_out_directive(prefix: Seq<char>, st: Scan, c: Seq<char>, e: Option<Seq<char>>, x: i32)
    requires
        one_line(prefix),
        settled(st, None, e, x),
        writable(c, ":out"@),
    ensures
        scan_text(default_strings(prefix), Ok(st), directive_text(prefix, "out"@, c)) matches Ok(
            st2,
        ) && settled(st2, Some(c), e, x) && st2.args == st.args,
        ends_line(directive_text(prefix, "out"@, c)),
{
    if inline_form(c) {
        lemma_out_single(prefix, st, c, e, x);
    } else {
        lemma_out_block_directive(prefix, st, c, e, x);
    }
}

/// An inline `err:` directive, read outside any block with no stderr
/// expectation yet, sets that expectation to its text.
proof fn lemma_err_single(prefix: Seq<char>, st: Scan, c: Seq<char>, o: Option<Seq<char>>, x: i32)
    requires
        one_line(prefix),
        settled(st, o, None, x),
        inline_form(c),
        writable(c, ":err"@),
    ensures
        scan_text(default_strings(prefix), Ok(st), directive_text(prefix, "err"@, c)) matches Ok(
            st2,
        ) && settled(st2, o, Some(c), x) && st2.args == st.args,
        ends_line(directive_text(prefix, "err"@, c)),
{
    reveal_strlit("err");
    reveal_strlit(":err");
    reveal_strlit("err:");
    reveal_strlit("args:");
    reveal_strlit("out:");
    let p = default_strings(prefix);
    let text = directive_text(prefix, "err"@, c);
    let r = "err"@ + seq![':', ' '] + c;
    let l = prefix + r;
    lemma_plain_concat("err"@, seq![':', ' ']);
    lemma_no_newline_concat("err"@ + seq![':', ' '], c);
    lemma_no_newline_concat(prefix, r);
    assert(text =~= l + seq!['\n']);
    lemma_lines_one(l);
    assert(l.last() == c.last());
    assert(strip_cr(l) == l);
    lemma_strip_prefix_concat(prefix, r);
    assert(r[0] == 'e');
    assert(r.last() == c.last());
    lemma_trim_unchanged(r);
    assert(r.subrange(0, 4) =~= "err:"@);
    assert(r.skip(4) =~= seq![' '] + c);
    lemma_trim_space_then(c);
    assert(r != "args:"@ && r != "err:"@ && r != "out:"@);
    assert(!"args:"@.is_prefix_of(r)) by {
        if "args:"@.is_prefix_of(r) {
            assert(r.subrange(0, 5)[0] == r[0]);
        }
    }
    assert(!("out:"@.is_prefix_of(r))) by {
        if "out:"@.is_prefix_of(r) {
            assert(r.subrange(0, 4)[1] == "out:"@[1]);
        }
    }
    lemma_scan_one(p, st, l);
}

proof fn lemma_err_block_directive(prefix: Seq<char>, st: Scan, c: Seq<char>, o: Option<Seq<char>>, x: i32)
    requires
        one_line(prefix),
        settled(st, o, None, x),
        !inline_form(c),
        writable(c, ":err"@),
    ensures
        scan_text(default_strings(prefix), Ok(st), directive_text(prefix, "err"@, c)) matches Ok(
            st2,
        ) && settled(st2, o, Some(c), x) && st2.args == st.args,
        ends_line(directive_text(prefix, "err"@, c)),
{
    reveal_strlit("err");
    reveal_strlit(":err");
    reveal_strlit("err:");
    reveal_strlit("args:");
    reveal_strlit("out:");
    let p = default_strings(prefix);
    let text = directive_text(prefix, "err"@, c);
    let a0 = prefix + ("err"@ + seq![':']);
    let a = a0 + seq!['\n'];
    let b = block_body(prefix, lines(c));
    let c0 = prefix + (seq![':'] + "err"@);
    let cc = c0 + seq!['\n'];
    assert(text =~= a + (b + cc));
    lemma_plain_concat("err"@, seq![':']);
    lemma_no_newline_concat(prefix, "err"@ + seq![':']);
    lemma_plain_concat(seq![':'], "err"@);
    lemma_no_newline_concat(prefix, seq![':'] + "err"@);
    lemma_lines_no_newline(c);
    assert forall|i: int| 0 <= i < lines(c).len() implies !(prefix + #[trigger] lines(c)[i]).contains(
        '\n',
    ) && !ends_cr(prefix + lines(c)[i]) by {
        let li = lines(c)[i];
        lemma_no_newline_concat(prefix, li);
        if li.len() == 0 {
            assert(prefix + li =~= prefix);
            if prefix.len() > 0 {
                assert(prefix[prefix.len() - 1] == prefix.last());
            }
        } else {
            assert((prefix + li).last() == li.last());
        }
    }
    lemma_block_body_lines(prefix, lines(c));
    assert(a0.last() == ':');
    assert(c0.last() == c0[c0.len() - 1]);
    lemma_line_reads_back(a0);
    lemma_line_reads_back(c0);
    lemma_scan_text_concat(p, Ok(st), a, b + cc);
    lemma_ends_line_concat(a, b + cc);
    lemma_ends_line_concat(b, cc);
    // The opening line.
    lemma_strip_prefix_concat(prefix, "err"@ + seq![':']);
    let t0 = "err"@ + seq![':'];
    assert(t0 =~= "err:"@);
    lemma_trim_unchanged(t0);
    lemma_scan_one(p, st, a0);
    assert(t0 != "args:"@);
    let st_in = Scan { state: State::InStderr, ..st };
    assert(scan_line(p, st, a0) == Ok::<Scan, State>(st_in));
    // The block's lines.
    lemma_scan_text_concat(p, Ok(st_in), b, cc);
    lemma_stderr_block(prefix, st_in, lines(c));
    let st_full = Scan { stderr_lines: st_in.stderr_lines + lines(c), ..st_in };
    assert(scan_text(p, Ok(st_in), b) == Ok::<Scan, State>(st_full));
    // The closing line.
    lemma_strip_prefix_concat(prefix, seq![':'] + "err"@);
    let t1 = seq![':'] + "err"@;
    assert(t1 =~= ":err"@);
    lemma_trim_unchanged(t1);
    lemma_scan_one(p, st_full, c0);
    assert(st_full.stderr_lines =~= lines(c));
}

/// An `err` directive holding writable text, read outside any block with no
/// stderr expectation yet, sets that expectation to the text.
proof fn lemma_err_directive(prefix: Seq<char>, st: Scan, c: Seq<char>, o: Option<Seq<char>>, x: i32)
    requires
        one_line(prefix),
        settled(st, o, None, x),
        writable(c, ":err"@),
    ensures
        scan_text(default_strings(prefix), Ok(st), directive_text(prefix, "err"@, c)) matches Ok(
            st2,
        ) && settled(st2, o, Some(c), x) && st2.args == st.args,
        ends_line(directive_text(prefix, "err"@, c)),
{
    if inline_form(c) {
        lemma_err_single(prefix, st, c, o, x);
    } else {
        lemma_err_block_directive(prefix, st, c, o, x);
    }
}

proof fn lemma_decimal_text(n: i32)
    ensures
        int_to_decimal(n as int).len() > 0,
        plain(int_to_decimal(n as int)),
        !is_ws(int_to_decimal(n as int)[0]),
        !is_ws(int_to_decimal(n as int).last()),
{
    let d = int_to_decimal(n as int);
    let m: nat = if n < 0 {
        (-(n as int)) as nat
    } else {
        n as nat
    };
    lemma_decimal_digits(m);
    let digits = decimal(m);
    assert forall|i: int| 0 <= i < d.len() implies d[i] == '-' || ('0' <= #[trigger] d[i] <= '9') by {
        if n < 0 {
            if i > 0 {
                assert(d[i] == digits[i - 1]);
            }
        } else {
            assert(d[i] == digits[i]);
        }
    }
    assert(!d.contains('\n') && !d.contains('\r')) by {
        if d.contains('\n') {
            let i = choose|i: int| 0 <= i < d.len() && d[i] == '\n';
            assert(d[i] == '-' || ('0' <= d[i] <= '9'));
        }
        if d.contains('\r') {
            let i = choose|i: int| 0 <= i < d.len() && d[i] == '\r';
            assert(d[i] == '-' || ('0' <= d[i] <= '9'));
        }
    }
    assert(d[0] == '-' || ('0' <= d[0] <= '9'));
    assert(d[d.len() - 1] == '-' || ('0' <= d[d.len() - 1] <= '9'));
}

/// An `exit:` directive read outside any block sets the expected exit code.
proof fn lemma_exit_directive(
    prefix: Seq<char>,
    st: Scan,
    o: Option<Seq<char>>,
    e: Option<Seq<char>>,
    x: i32,
    n: i32,
)
    requires
        one_line(prefix),
        settled(st, o, e, x),
    ensures
        scan_text(default_strings(prefix), Ok(st), exit_text(prefix, n)) matches Ok(st2)
            && settled(st2, o, e, n) && st2.args == st.args,
        ends_line(exit_text(prefix, n)),
{
    reveal_strlit("exit: ");
    reveal_strlit("exit:");
    reveal_strlit("args:");
    reveal_strlit("out:");
    reveal_strlit("err:");
    let p = default_strings(prefix);
    let d = int_to_decimal(n as int);
    lemma_decimal_text(n);
    let r = "exit: "@ + d;
    let l = prefix + r;
    lemma_plain_concat("exit: "@, d);
    lemma_no_newline_concat(prefix, r);
    assert(exit_text(prefix, n) =~= l + seq!['\n']);
    assert(l.last() == d.last());
    lemma_line_reads_back(l);
    lemma_scan_one(p, st, l);
    lemma_strip_prefix_concat(prefix, r);
    assert(r[0] == 'e');
    assert(r.last() == d.last());
    lemma_trim_unchanged(r);
    assert(r != "args:"@ && r != "out:"@ && r != "err:"@);
    assert(!"args:"@.is_prefix_of(r)) by {
        if "args:"@.is_prefix_of(r) {
            assert(r.subrange(0, 5)[0] == r[0]);
        }
    }
    assert(!"out:"@.is_prefix_of(r)) by {
        if "out:"@.is_prefix_of(r) {
            assert(r.subrange(0, 4)[0] == r[0]);
        }
    }
    assert(!"err:"@.is_prefix_of(r)) by {
        if "err:"@.is_prefix_of(r) {
            assert(r.subrange(0, 4)[1] == r[1]);
        }
    }
    assert(r.subrange(0, 5) =~= "exit:"@);
    assert(r.skip(5) =~= seq![' '] + d);
    lemma_trim_space_then(d);
    decimal_parse_roundtrip(n);
}

/// A line kept by the rewriter: one line with its newline, which reads back
/// as a line that the rewriter keeps.
pub open spec fn kept_line(prefix: Seq<char>, x: Seq<char>) -> bool {
    &&& x.len() > 0
    &&& x.last() == '\n'
    &&& !x.drop_last().contains('\n')
    &&& !dropped(prefix, reread(x))
}

proof fn lemma_trim_start_push_ws(x: Seq<char>, w: char)
    requires
        is_ws(w),
    ensures
        trim_start(x.push(w)) == if trim_start(x).len() == 0 {
            Seq::<char>::empty()
        } else {
            trim_start(x).push(w)
        },
    decreases x.len(),
{
    if x.len() > 0 && is_ws(x[0]) {
        assert(x.push(w).drop_first() =~= x.drop_first().push(w));
        lemma_trim_start_push_ws(x.drop_first(), w);
    } else if x.len() == 0 {
        let y = x.push(w);
        assert(y.drop_first() =~= Seq::<char>::empty());
        assert(trim_start(Seq::<char>::empty()) == Seq::<char>::empty());
    }
}

/// A whitespace character at the end does not change the trimmed text.
proof fn lemma_trim_push_ws(x: Seq<char>, w: char)
    requires
        is_ws(w),
    ensures
        trim(x.push(w)) == trim(x),
{
    lemma_trim_start_push_ws(x, w);
    let t = trim_start(x);
    if t.len() > 0 {
        assert(t.push(w).drop_last() =~= t);
    } else {
        assert(trim_end(Seq::<char>::empty()) == Seq::<char>::empty());
    }
}

/// Dropping a final carriage return keeps what a line says as a directive.
proof fn lemma_strip_cr_directive(prefix: Seq<char>, l: Seq<char>)
    requires
        one_line(prefix),
    ensures
        (strip_prefix(strip_cr(l), prefix) is Some) == (strip_prefix(l, prefix) is Some),
        strip_prefix(l, prefix) matches Some(r1) ==> (strip_prefix(strip_cr(l), prefix) matches Some(
            r2,
        ) && trim(r1) == trim(r2)),
{
    if l.len() > 0 && l.last() == '\r' {
        let m = l.drop_last();
        assert(l =~= m.push('\r'));
        if prefix.is_prefix_of(l) {
            if prefix.len() == l.len() {
                assert(prefix[prefix.len() - 1] == l.subrange(0, prefix.len() as int)[prefix.len() - 1]);
                assert(prefix.contains('\r'));
            }
            assert(prefix =~= m.subrange(0, prefix.len() as int));
            assert(l.skip(prefix.len() as int) =~= m.skip(prefix.len() as int).push('\r'));
            lemma_trim_push_ws(m.skip(prefix.len() as int), '\r');
        }
        if prefix.is_prefix_of(m) {
            assert(prefix =~= l.subrange(0, prefix.len() as int));
        }
    }
}

/// An expectation written at position `pos`, as seen before position `k`.
pub open spec fn written_before(o: Option<Seq<char>>, pos: int, k: int) -> Option<Seq<char>> {
    if pos < k {
        o
    } else {
        None
    }
}

/// The exit code written at position `pos`, as seen before position `k`.
pub open spec fn exit_before(write: bool, code: i32, pos: int, k: int) -> i32 {
    if write && pos < k {
        code
    } else {
        0
    }
}

proof fn lemma_texts_at_concat(a: Seq<(int, Seq<char>)>, b: Seq<(int, Seq<char>)>, k: int)
    ensures
        texts_at(a + b, k) == texts_at(a, k) + texts_at(b, k),
    decreases b.len(),
{
    if b.len() == 0 {
        assert(a + b == a);
        assert(texts_at(a, k) + Seq::<char>::empty() =~= texts_at(a, k));
    } else {
        lemma_texts_at_concat(a, b.drop_last(), k);
        assert((a + b).drop_last() == a + b.drop_last());
    }
}

proof fn lemma_texts_at_one(e: Option<(int, Seq<char>)>, k: int)
    ensures
        texts_at(opt_entry(e), k) == (match e {
            Some(x) => if x.0 == k {
                x.1
            } else {
                Seq::<char>::empty()
            },
            None => Seq::<char>::empty(),
        }),
{
    assert(texts_at(Seq::<(int, Seq<char>)>::empty(), k) == Seq::<char>::empty());
    if let Some(x) = e {
        assert(opt_entry(e).drop_last() =~= Seq::<(int, Seq<char>)>::empty());
        assert(opt_entry(e).last() == x);
        assert(Seq::<char>::empty() + x.1 =~= x.1);
        assert(Seq::<char>::empty() + Seq::<char>::empty() =~= Seq::<char>::empty());
    }
}

proof fn lemma_scan_text_empty(p: PatternStrings, r: Result<Scan, State>)
    ensures
        scan_text(p, r, Seq::<char>::empty()) == r,
{
    assert(lines(Seq::<char>::empty()) =~= Seq::<Seq<char>>::empty()) by {
        assert(split_newlines(Seq::<char>::empty()) == seq![Seq::<char>::empty()]);
    }
}

/// The insertion of a stream directive holding `o`, at `pos`.
pub open spec fn stream_entry(prefix: Seq<char>, keyword: Seq<char>, o: Option<Seq<char>>, pos: int) -> Option<(int, Seq<char>)> {
    match o {
        Some(c) => Some((pos, directive_text(prefix, keyword, c))),
        None => None,
    }
}

/// The insertion of an exit directive, at `pos`, when one is written.
pub open spec fn exit_entry(prefix: Seq<char>, write: bool, code: i32, pos: int) -> Option<(int, Seq<char>)> {
    if write {
        Some((pos, exit_text(prefix, code)))
    } else {
        None
    }
}

proof fn lemma_stdout_part(
    prefix: Seq<char>,
    st: Scan,
    o: Option<Seq<char>>,
    po: int,
    k: int,
    e: Option<Seq<char>>,
    x: i32,
)
    requires
        one_line(prefix),
        o matches Some(c) ==> writable(c, ":out"@),
        settled(st, written_before(o, po, k), e, x),
    ensures
        scan_text(default_strings(prefix), Ok(st), texts_at(opt_entry(stream_entry(prefix, "out"@, o, po)), k))
            matches Ok(st1) && settled(st1, written_before(o, po, k + 1), e, x) && st1.args == st.args,
        ends_line(texts_at(opt_entry(stream_entry(prefix, "out"@, o, po)), k)),
{
    let p = default_strings(prefix);
    lemma_texts_at_one(stream_entry(prefix, "out"@, o, po), k);
    match o {
        Some(c) => {
            if po == k {
                lemma_out_directive(prefix, st, c, e, x);
            } else {
                lemma_scan_text_empty(p, Ok(st));
            }
        },
        None => {
            lemma_scan_text_empty(p, Ok(st));
        },
    }
}

proof fn lemma_stderr_part(
    prefix: Seq<char>,
    st: Scan,
    o: Option<Seq<char>>,
    e: Option<Seq<char>>,
    pe: int,
    k: int,
    x: i32,
)
    requires
        one_line(prefix),
        e matches Some(c) ==> writable(c, ":err"@),
        settled(st, o, written_before(e, pe, k), x),
    ensures
        scan_text(default_strings(prefix), Ok(st), texts_at(opt_entry(stream_entry(prefix, "err"@, e, pe)), k))
            matches Ok(st1) && settled(st1, o, written_before(e, pe, k + 1), x) && st1.args == st.args,
        ends_line(texts_at(opt_entry(stream_entry(prefix, "err"@, e, pe)), k)),
{
    let p = default_strings(prefix);
    lemma_texts_at_one(stream_entry(prefix, "err"@, e, pe), k);
    match e {
        Some(c) => {
            if pe == k {
                lemma_err_directive(prefix, st, c, o, x);
            } else {
                lemma_scan_text_empty(p, Ok(st));
            }
        },
        None => {
            lemma_scan_text_empty(p, Ok(st));
        },
    }
}

proof fn lemma_exit_part(
    prefix: Seq<char>,
    st: Scan,
    o: Option<Seq<char>>,
    e: Option<Seq<char>>,
    write: bool,
    code: i32,
    px: int,
    k: int,
)
    requires
        one_line(prefix),
        settled(st, o, e, exit_before(write, code, px, k)),
    ensures
        scan_text(default_strings(prefix), Ok(st), texts_at(opt_entry(exit_entry(prefix, write, code, px)), k))
            matches Ok(st1) && settled(st1, o, e, exit_before(write, code, px, k + 1)) && st1.args == st.args,
        ends_line(texts_at(opt_entry(exit_entry(prefix, write, code, px)), k)),
{
    let p = default_strings(prefix);
    lemma_texts_at_one(exit_entry(prefix, write, code, px), k);
    if write && px == k {
        lemma_exit_directive(prefix, st, o, e, exit_before(write, code, px, k), code);
    } else {
        lemma_scan_text_empty(p, Ok(st));
    }
}

/// The insertions of the rewriter, spelled out.
pub open spec fn entries(
    prefix: Seq<char>,
    o: Option<Seq<char>>,
    po: int,
    e: Option<Seq<char>>,
    pe: int,
    write: bool,
    code: i32,
    px: int,
) -> Seq<(int, Seq<char>)> {
    opt_entry(stream_entry(prefix, "out"@, o, po)) + opt_entry(stream_entry(prefix, "err"@, e, pe))
        + opt_entry(exit_entry(prefix, write, code, px))
}

proof fn lemma_texts_step(
    prefix: Seq<char>,
    st: Scan,
    o: Option<Seq<char>>,
    po: int,
    e: Option<Seq<char>>,
    pe: int,
    write: bool,
    code: i32,
    px: int,
    k: int,
)
    requires
        one_line(prefix),
        o matches Some(c) ==> writable(c, ":out"@),
        e matches Some(c) ==> writable(c, ":err"@),
        settled(
            st,
            written_before(o, po, k),
            written_before(e, pe, k),
            exit_before(write, code, px, k),
        ),
    ensures
        scan_text(
            default_strings(prefix),
            Ok(st),
            texts_at(entries(prefix, o, po, e, pe, write, code, px), k),
        ) matches Ok(st1) && settled(
            st1,
            written_before(o, po, k + 1),
            written_before(e, pe, k + 1),
            exit_before(write, code, px, k + 1),
        ) && st1.args == st.args,
        ends_line(texts_at(entries(prefix, o, po, e, pe, write, code, px), k)),
{
    let p = default_strings(prefix);
    let a = opt_entry(stream_entry(prefix, "out"@, o, po));
    let b = opt_entry(stream_entry(prefix, "err"@, e, pe));
    let c = opt_entry(exit_entry(prefix, write, code, px));
    lemma_texts_at_concat(a + b, c, k);
    lemma_texts_at_concat(a, b, k);
    let ta = texts_at(a, k);
    let tb = texts_at(b, k);
    let tc = texts_at(c, k);
    lemma_stdout_part(prefix, st, o, po, k, written_before(e, pe, k), exit_before(write, code, px, k));
    let st1 = scan_text(p, Ok(st), ta)->Ok_0;
    lemma_stderr_part(prefix, st1, written_before(o, po, k + 1), e, pe, k, exit_before(write, code, px, k));
    let st2 = scan_text(p, Ok(st1), tb)->Ok_0;
    lemma_exit_part(prefix, st2, written_before(o, po, k + 1), written_before(e, pe, k + 1), write, code, px, k);
    lemma_scan_text_concat(p, Ok(st), ta, tb);
    lemma_ends_line_concat(ta, tb);
    lemma_scan_text_concat(p, Ok(st), ta + tb, tc);
    lemma_ends_line_concat(ta + tb, tc);
}

proof fn lemma_trim_newlines_facts(s: Seq<char>)
    ensures
        trim_newlines(s).len() == 0 || trim_newlines(s).last() != '\n',
        trim_newlines(trim_newlines(s)) == trim_newlines(s),
    decreases s.len(),
{
    if s.len() > 0 && s.last() == '\n' {
        lemma_trim_newlines_facts(s.drop_last());
    }
}

/// What a run checked against a scanned test file gives: it passes when
/// each checked stream matches and the exit code is the expected one.
pub open spec fn run_passes(st: Scan, stdout: Seq<u8>, stderr: Seq<u8>, status: Option<i32>) -> bool {
    &&& stream_mismatch(st.expected_stdout, lossy_utf8(stdout)) is None
    &&& stream_mismatch(st.expected_stderr, lossy_utf8(stderr)) is None
    &&& st.expected_exit == exit_code(status)
}

/// Whether the rewriter, reading `l` outside an `out:` or `err:` block,
/// drops it: an `out:`, `err:` or `exit:` directive, or a stray closing tag
/// of an output block.
pub open spec fn dropped(prefix: Seq<char>, l: Seq<char>) -> bool {
    match strip_prefix(l, prefix) {
        None => false,
        Some(rest) => {
            let t = trim(rest);
            ||| "out:"@.is_prefix_of(t)
            ||| t == ":out"@
            ||| "err:"@.is_prefix_of(t)
            ||| t == ":err"@
            ||| "exit:"@.is_prefix_of(t)
        },
    }
}

/// Two lines that read alike as directives: both behind the prefix with the
/// same trimmed rest, or neither behind it.
pub open spec fn alike(prefix: Seq<char>, a: Seq<char>, b: Seq<char>) -> bool {
    match strip_prefix(a, prefix) {
        Some(ra) => match strip_prefix(b, prefix) {
            Some(rb) => trim(ra) == trim(rb),
            None => false,
        },
        None => strip_prefix(b, prefix) is None,
    }
}

/// The same block lines and expectations in two scan states.
pub open spec fn same_output(a: Scan, b: Scan) -> bool {
    &&& a.stdout_lines == b.stdout_lines
    &&& a.stderr_lines == b.stderr_lines
    &&& a.expected_stdout == b.expected_stdout
    &&& a.expected_stderr == b.expected_stderr
    &&& a.expected_exit == b.expected_exit
}

/// Two lines that read alike, neither dropped by the rewriter, read in two
/// states outside the output blocks that agree on the block and the
/// arguments: both are read or neither, and the states they give agree
/// again, each with its block lines and expectations unchanged.
proof fn lemma_agree(prefix: Seq<char>, a: Scan, b: Scan, la: Seq<char>, lb: Seq<char>)
    requires
        a.state == State::Idle || a.state == State::InArgs,
        a.state == b.state,
        a.args == b.args,
        alike(prefix, la, lb),
        !dropped(prefix, la),
    ensures
        (scan_line(default_strings(prefix), a, la) is Ok) == (scan_line(
            default_strings(prefix),
            b,
            lb,
        ) is Ok),
        scan_line(default_strings(prefix), a, la) matches Ok(a2) ==> (scan_line(
            default_strings(prefix),
            b,
            lb,
        ) matches Ok(b2) && (a2.state == State::Idle || a2.state == State::InArgs) && a2.state
            == b2.state && a2.args == b2.args && same_output(a2, a) && same_output(b2, b)),
{
    reveal_strlit("args:");
    reveal_strlit(":args");
    reveal_strlit("out:");
    reveal_strlit("err:");
    reveal_strlit("exit:");
    lemma_prefix_self("out:"@);
    lemma_prefix_self("err:"@);
}

/// The line that a kept line, ended by its `'\n'`, reads back as.
pub open spec fn reread(x: Seq<char>) -> Seq<char> {
    strip_cr(x.drop_last())
}

/// The scan of the first `k` kept lines, as they read back.
pub open spec fn kept_scan(p: PatternStrings, kept: Seq<Seq<char>>, k: nat) -> Result<Scan, State>
    decreases k,
{
    if k == 0 {
        Ok(initial_scan())
    } else {
        match kept_scan(p, kept, (k - 1) as nat) {
            Ok(st) => scan_line(p, st, reread(kept[k - 1])),
            Err(s) => Err(s),
        }
    }
}

/// A recorded position within the kept lines, before which they read back
/// to a state outside any block.
pub open spec fn idle_pos(p: PatternStrings, kept: Seq<Seq<char>>, o: Option<int>) -> bool {
    match o {
        Some(q) => 0 <= q <= kept.len() && (kept_scan(p, kept, q as nat) matches Ok(s) && s.state
            == State::Idle),
        None => true,
    }
}

/// A scan state outside the output blocks that holds no block lines and no
/// expectation.
pub open spec fn quiet(st: Scan) -> bool {
    &&& st.state == State::Idle || st.state == State::InArgs
    &&& same_output(st, initial_scan())
}

/// A scan state that agrees with `ks` on the block and the arguments, holds
/// no block lines, and expects `o`, `e` and `x`.
pub open spec fn tracks(st: Scan, ks: Scan, o: Option<Seq<char>>, e: Option<Seq<char>>, x: i32) -> bool {
    &&& st.state == ks.state
    &&& st.args == ks.args
    &&& st.stdout_lines.len() == 0
    &&& st.stderr_lines.len() == 0
    &&& st.expected_stdout == o
    &&& st.expected_stderr == e
    &&& st.expected_exit == x
}

/// Scanning the first `q` kept lines does not look at a line added after
/// them.
proof fn lemma_kept_scan_push(p: PatternStrings, kept: Seq<Seq<char>>, x: Seq<char>, q: nat)
    requires
        q <= kept.len(),
    ensures
        kept_scan(p, kept.push(x), q) == kept_scan(p, kept, q),
    decreases q,
{
    if q > 0 {
        lemma_kept_scan_push(p, kept, x, (q - 1) as nat);
        assert(kept.push(x)[q - 1] == kept[q - 1]);
    }
}

/// A scan of kept lines that reads all of them reads each prefix of them.
proof fn lemma_kept_scan_ok_before(p: PatternStrings, kept: Seq<Seq<char>>, q: nat, k: nat)
    requires
        q <= k,
        kept_scan(p, kept, k) is Ok,
    ensures
        kept_scan(p, kept, q) is Ok,
    decreases k,
{
    if q < k {
        lemma_kept_scan_ok_before(p, kept, q, (k - 1) as nat);
    }
}

/// Kept lines read back outside the output blocks and set no expectation.
proof fn lemma_kept_scan_quiet(prefix: Seq<char>, kept: Seq<Seq<char>>, k: nat)
    requires
        k <= kept.len(),
        forall|i: int| 0 <= i < kept.len() ==> kept_line(prefix, #[trigger] kept[i]),
        kept_scan(default_strings(prefix), kept, k) is Ok,
    ensures
        kept_scan(default_strings(prefix), kept, k) matches Ok(ks) && quiet(ks),
    decreases k,
{
    let p = default_strings(prefix);
    if k > 0 {
        let j = (k - 1) as nat;
        lemma_kept_scan_ok_before(p, kept, j, k);
        lemma_kept_scan_quiet(prefix, kept, j);
        let ks = kept_scan(p, kept, j)->Ok_0;
        let l = reread(kept[j as int]);
        assert(kept_line(prefix, kept[j as int]));
        lemma_agree(prefix, ks, ks, l, l);
    }
}

/// Where no directive is written at `k`, nothing is inserted there.
proof fn lemma_nothing_at(
    prefix: Seq<char>,
    o: Option<Seq<char>>,
    po: int,
    e: Option<Seq<char>>,
    pe: int,
    write: bool,
    code: i32,
    px: int,
    k: int,
)
    requires
        o is Some ==> po != k,
        e is Some ==> pe != k,
        write ==> px != k,
    ensures
        texts_at(entries(prefix, o, po, e, pe, write, code, px), k) == Seq::<char>::empty(),
{
    let a = opt_entry(stream_entry(prefix, "out"@, o, po));
    let b = opt_entry(stream_entry(prefix, "err"@, e, pe));
    let c = opt_entry(exit_entry(prefix, write, code, px));
    lemma_texts_at_concat(a + b, c, k);
    lemma_texts_at_concat(a, b, k);
    lemma_texts_at_one(stream_entry(prefix, "out"@, o, po), k);
    lemma_texts_at_one(stream_entry(prefix, "err"@, e, pe), k);
    lemma_texts_at_one(exit_entry(prefix, write, code, px), k);
    assert(Seq::<char>::empty() + Seq::<char>::empty() =~= Seq::<char>::empty());
}

/// The texts inserted before kept line `k`, read in a state that tracks the
/// kept lines before it: a state that tracks them again, with the
/// directives written at `k` now expected.
proof fn lemma_insert_at(
    prefix: Seq<char>,
    kept: Seq<Seq<char>>,
    st: Scan,
    ks: Scan,
    o: Option<Seq<char>>,
    po: int,
    e: Option<Seq<char>>,
    pe: int,
    write: bool,
    code: i32,
    px: int,
    k: nat,
)
    requires
        one_line(prefix),
        o matches Some(c) ==> writable(c, ":out"@),
        e matches Some(c) ==> writable(c, ":err"@),
        k <= kept.len(),
        kept_scan(default_strings(prefix), kept, k) == Ok::<Scan, State>(ks),
        quiet(ks),
        o is Some ==> idle_pos(default_strings(prefix), kept, Some(po)),
        e is Some ==> idle_pos(default_strings(prefix), kept, Some(pe)),
        write ==> idle_pos(default_strings(prefix), kept, Some(px)),
        tracks(
            st,
            ks,
            written_before(o, po, k as int),
            written_before(e, pe, k as int),
            exit_before(write, code, px, k as int),
        ),
    ensures
        scan_text(
            default_strings(prefix),
            Ok(st),
            texts_at(entries(prefix, o, po, e, pe, write, code, px), k as int),
        ) matches Ok(st1) && tracks(
            st1,
            ks,
            written_before(o, po, k + 1 as int),
            written_before(e, pe, k + 1 as int),
            exit_before(write, code, px, k + 1 as int),
        ),
        ends_line(texts_at(entries(prefix, o, po, e, pe, write, code, px), k as int)),
{
    let p = default_strings(prefix);
    if ks.state == State::Idle {
        lemma_texts_step(prefix, st, o, po, e, pe, write, code, px, k as int);
    } else {
        lemma_nothing_at(prefix, o, po, e, pe, write, code, px, k as int);
        lemma_scan_text_empty(p, Ok(st));
    }
}

/// A kept line read in a state that tracks the kept lines before it: a
/// state that tracks them with it.
proof fn lemma_kept_read(
    prefix: Seq<char>,
    kept: Seq<Seq<char>>,
    st: Scan,
    ks: Scan,
    o: Option<Seq<char>>,
    e: Option<Seq<char>>,
    x: i32,
    k: nat,
)
    requires
        k < kept.len(),
        forall|i: int| 0 <= i < kept.len() ==> kept_line(prefix, #[trigger] kept[i]),
        kept_scan(default_strings(prefix), kept, k) == Ok::<Scan, State>(ks),
        kept_scan(default_strings(prefix), kept, k + 1) is Ok,
        quiet(ks),
        tracks(st, ks, o, e, x),
    ensures
        kept_scan(default_strings(prefix), kept, k + 1) matches Ok(ks2) && quiet(ks2) && (scan_text(
            default_strings(prefix),
            Ok(st),
            kept[k as int],
        ) matches Ok(st2) && tracks(st2, ks2, o, e, x)),
        ends_line(kept[k as int]),
{
    let p = default_strings(prefix);
    let xk = kept[k as int];
    assert(kept_line(prefix, xk));
    let l = xk.drop_last();
    assert(xk =~= l + seq!['\n']);
    lemma_lines_one(l);
    lemma_scan_one(p, st, reread(xk));
    lemma_agree(prefix, ks, st, reread(xk), reread(xk));
}

proof fn lemma_assembled(
    prefix: Seq<char>,
    kept: Seq<Seq<char>>,
    o: Option<Seq<char>>,
    po: int,
    e: Option<Seq<char>>,
    pe: int,
    write: bool,
    code: i32,
    px: int,
    k: nat,
)
    requires
        one_line(prefix),
        o matches Some(c) ==> writable(c, ":out"@),
        e matches Some(c) ==> writable(c, ":err"@),
        k <= kept.len(),
        forall|i: int| 0 <= i < kept.len() ==> kept_line(prefix, #[trigger] kept[i]),
        kept_scan(default_strings(prefix), kept, k) is Ok,
        o is Some ==> idle_pos(default_strings(prefix), kept, Some(po)),
        e is Some ==> idle_pos(default_strings(prefix), kept, Some(pe)),
        write ==> idle_pos(default_strings(prefix), kept, Some(px)),
    ensures
        kept_scan(default_strings(prefix), kept, k) matches Ok(ks) && quiet(ks) && (scan_text(
            default_strings(prefix),
            Ok(initial_scan()),
            assembled(kept, entries(prefix, o, po, e, pe, write, code, px), k),
        ) matches Ok(st) && tracks(
            st,
            ks,
            written_before(o, po, k as int),
            written_before(e, pe, k as int),
            exit_before(write, code, px, k as int),
        )),
        ends_line(assembled(kept, entries(prefix, o, po, e, pe, write, code, px), k)),
    decreases k,
{
    let p = default_strings(prefix);
    let ins = entries(prefix, o, po, e, pe, write, code, px);
    lemma_kept_scan_quiet(prefix, kept, k);
    if k == 0 {
        lemma_scan_text_empty(p, Ok(initial_scan()));
    } else {
        let j = (k - 1) as nat;
        lemma_kept_scan_ok_before(p, kept, j, k);
        lemma_assembled(prefix, kept, o, po, e, pe, write, code, px, j);
        let ks = kept_scan(p, kept, j)->Ok_0;
        let a = assembled(kept, ins, j);
        let st = scan_text(p, Ok(initial_scan()), a)->Ok_0;
        let t = texts_at(ins, j as int);
        lemma_insert_at(prefix, kept, st, ks, o, po, e, pe, write, code, px, j);
        let st1 = scan_text(p, Ok(st), t)->Ok_0;
        let x = kept[j as int];
        lemma_kept_read(
            prefix,
            kept,
            st1,
            ks,
            written_before(o, po, k as int),
            written_before(e, pe, k as int),
            exit_before(write, code, px, k as int),
            j,
        );
        lemma_scan_text_concat(p, Ok(initial_scan()), a, t);
        lemma_ends_line_concat(a, t);
        lemma_scan_text_concat(p, Ok(initial_scan()), a + t, x);
        lemma_ends_line_concat(a + t, x);
    }
}

/// Whether the parser reads line `i` of `ls` inside an `args:` block.
pub open spec fn reads_in_args(p: PatternStrings, ls: Seq<Seq<char>>, i: int) -> bool {
    scan_lines(p, ls.take(i)) matches Ok(s) && s.state == State::InArgs
}

/// What the rewriter's first pass `rw` has made of the lines that the parser
/// read to `s`: each kept line reads back as a line the rewriter keeps, the
/// rewriter stands in the same output block as the parser, the kept lines
/// read back to the same arguments and the same `args:` block, and each
/// recorded position stands where they read back outside any block.
pub open spec fn follows(prefix: Seq<char>, rw: Rewrite, s: Scan) -> bool {
    let p = default_strings(prefix);
    &&& forall|q: int| 0 <= q < rw.kept.len() ==> kept_line(prefix, #[trigger] rw.kept[q])
    &&& rw.in_stdout == (s.state == State::InStdout)
    &&& rw.in_stderr == (s.state == State::InStderr)
    &&& kept_scan(p, rw.kept, rw.kept.len()) matches Ok(ks) && quiet(ks) && ks.args == s.args && (
    ks.state == State::InArgs) == (s.state == State::InArgs)
    &&& idle_pos(p, rw.kept, rw.stdout_at)
    &&& idle_pos(p, rw.kept, rw.stderr_at)
    &&& idle_pos(p, rw.kept, rw.exit_at)
    &&& idle_pos(p, rw.kept, rw.first_source)
}

/// Positions recorded before a line is kept stay where they were.
proof fn lemma_idle_pos_push(p: PatternStrings, kept: Seq<Seq<char>>, x: Seq<char>, o: Option<int>)
    requires
        idle_pos(p, kept, o),
    ensures
        idle_pos(p, kept.push(x), o),
{
    if let Some(q) = o {
        lemma_kept_scan_push(p, kept, x, q as nat);
    }
}

/// A line the rewriter drops, read by the parser outside any block, leaves
/// the arguments as they are, and opens the output block that the rewriter
/// opens.
proof fn lemma_dropped_read(prefix: Seq<char>, s: Scan, l: Seq<char>)
    requires
        s.state == State::Idle,
        dropped(prefix, l),
    ensures
        scan_line(default_strings(prefix), s, l) matches Ok(s2) && s2.args == s.args && (s2.state
            == State::InStdout) == (trim(strip_prefix(l, prefix)->Some_0) == "out:"@) && (s2.state
            == State::InStderr) == (trim(strip_prefix(l, prefix)->Some_0) == "err:"@) && (s2.state
            == State::InArgs) == false,
{
    reveal_strlit("args:");
    reveal_strlit(":out");
    reveal_strlit(":err");
    reveal_strlit("out:");
    reveal_strlit("err:");
    reveal_strlit("exit:");
    let t = trim(strip_prefix(l, prefix)->Some_0);
    assert(!"args:"@.is_prefix_of(t)) by {
        if "args:"@.is_prefix_of(t) {
            assert(t.subrange(0, 5)[0] == t[0]);
            if "out:"@.is_prefix_of(t) {
                assert(t.subrange(0, 4)[0] == t[0]);
            }
            if "err:"@.is_prefix_of(t) {
                assert(t.subrange(0, 4)[0] == t[0]);
            }
            if "exit:"@.is_prefix_of(t) {
                assert(t.subrange(0, 5)[0] == t[0]);
            }
        }
    }
    assert(t != "args:"@) by {
        if t == "args:"@ {
            lemma_prefix_self("args:"@);
        }
    }
    assert(t == "err:"@ ==> t != "out:"@) by {
        if t == "err:"@ {
            assert(t[0] != "out:"@[0]);
        }
    }
}

/// One more line read by the parser and by the rewriter keeps the rewriter
/// following the parser.
proof fn lemma_follows_step(prefix: Seq<char>, rw: Rewrite, s: Scan, l: Seq<char>)
    requires
        one_line(prefix),
        follows(prefix, rw, s),
        !l.contains('\n'),
        scan_line(default_strings(prefix), s, l) is Ok,
        s.state == State::InArgs ==> !dropped(prefix, l),
    ensures
        follows(
            prefix,
            rewrite_step(prefix, rw, l),
            scan_line(default_strings(prefix), s, l)->Ok_0,
        ),
{
    reveal_strlit("out:");
    reveal_strlit("err:");
    let p = default_strings(prefix);
    let n = rw.kept.len();
    let ks = kept_scan(p, rw.kept, n)->Ok_0;
    let s2 = scan_line(p, s, l)->Ok_0;
    let rw2 = rewrite_step(prefix, rw, l);
    let x = l + seq!['\n'];
    assert(x.drop_last() =~= l);
    assert(reread(x) == strip_cr(l));
    lemma_strip_cr_directive(prefix, l);
    lemma_prefix_self("out:"@);
    lemma_prefix_self("err:"@);
    if strip_prefix(l, prefix) is None {
        // A source line: kept, and read outside any block.
        assert(s.state == State::Idle);
        assert(ks.state == State::Idle);
        assert(rw2.kept == rw.kept.push(x));
        lemma_kept_scan_push(p, rw.kept, x, n);
        assert(rw2.kept[n as int] == x);
        assert(kept_scan(p, rw2.kept, n + 1) == scan_line(p, ks, strip_cr(l)));
        assert forall|q: int| 0 <= q < rw2.kept.len() implies kept_line(
            prefix,
            #[trigger] rw2.kept[q],
        ) by {
            if q < n {
                assert(rw2.kept[q] == rw.kept[q]);
            }
        }
        lemma_idle_pos_push(p, rw.kept, x, rw.stdout_at);
        lemma_idle_pos_push(p, rw.kept, x, rw.stderr_at);
        lemma_idle_pos_push(p, rw.kept, x, rw.exit_at);
        lemma_idle_pos_push(p, rw.kept, x, rw.first_source);
    } else if rw.in_stdout || rw.in_stderr {
        // Inside an output block: both read on, or both close it.
        assert(rw2.kept == rw.kept);
    } else if dropped(prefix, l) {
        // A directive the rewriter drops, read outside any block.
        assert(s.state == State::Idle);
        assert(ks.state == State::Idle);
        lemma_dropped_read(prefix, s, l);
        assert(rw2.kept == rw.kept);
    } else {
        // A directive line the rewriter keeps.
        assert(rw2.kept == rw.kept.push(x));
        lemma_kept_scan_push(p, rw.kept, x, n);
        assert(rw2.kept[n as int] == x);
        assert(kept_scan(p, rw2.kept, n + 1) == scan_line(p, ks, strip_cr(l)));
        lemma_agree(prefix, s, ks, l, strip_cr(l));
        assert forall|q: int| 0 <= q < rw2.kept.len() implies kept_line(
            prefix,
            #[trigger] rw2.kept[q],
        ) by {
            if q < n {
                assert(rw2.kept[q] == rw.kept[q]);
            }
        }
        lemma_idle_pos_push(p, rw.kept, x, rw.stdout_at);
        lemma_idle_pos_push(p, rw.kept, x, rw.stderr_at);
        lemma_idle_pos_push(p, rw.kept, x, rw.exit_at);
        lemma_idle_pos_push(p, rw.kept, x, rw.first_source);
    }
}

/// The rewriter's first pass over lines that the parser reads follows the
/// parser, where no line that the parser reads inside an `args:` block is
/// one that the rewriter drops.
proof fn lemma_follows(prefix: Seq<char>, ls: Seq<Seq<char>>)
    requires
        one_line(prefix),
        forall|i: int| 0 <= i < ls.len() ==> !(#[trigger] ls[i]).contains('\n'),
        scan_lines(default_strings(prefix), ls) is Ok,
        forall|i: int|
            0 <= i < ls.len() && #[trigger] reads_in_args(default_strings(prefix), ls, i)
                ==> !dropped(prefix, ls[i]),
    ensures
        follows(prefix, rewrite_scan(prefix, ls), scan_lines(default_strings(prefix), ls)->Ok_0),
    decreases ls.len(),
{
    let p = default_strings(prefix);
    if ls.len() == 0 {
        assert(kept_scan(p, Seq::<Seq<char>>::empty(), 0) == Ok::<Scan, State>(initial_scan()));
    } else {
        let d = ls.drop_last();
        let n = d.len() as int;
        assert forall|i: int| 0 <= i < d.len() implies !(#[trigger] d[i]).contains('\n') by {
            assert(d[i] == ls[i]);
        }
        assert forall|i: int| 0 <= i < d.len() && #[trigger] reads_in_args(p, d, i) implies !dropped(
            prefix,
            d[i],
        ) by {
            assert(d.take(i) == ls.take(i));
            assert(reads_in_args(p, ls, i));
            assert(d[i] == ls[i]);
        }
        lemma_follows(prefix, d);
        assert(ls.take(n) == d);
        assert(reads_in_args(p, ls, n) == (scan_lines(p, d)->Ok_0.state == State::InArgs));
        assert(ls[n] == ls.last());
        lemma_follows_step(prefix, rewrite_scan(prefix, d), scan_lines(p, d)->Ok_0, ls.last());
    }
}

/// Whether every line of `content` that the parser reads inside an `args:`
/// block is one that the rewriter keeps: no `out:`, `err:` or `exit:`
/// directive, and no closing tag of an output block, stands as an argument.
pub open spec fn args_blocks_kept(prefix: Seq<char>, content: Seq<char>) -> bool {
    forall|i: int|
        0 <= i < lines(content).len() && #[trigger] reads_in_args(
            default_strings(prefix),
            lines(content),
            i,
        ) ==> !dropped(prefix, lines(content)[i])
}

/// Scanning the rewritten text of a file that the parser reads: it sets
/// exactly the written expectations, and keeps the arguments of the file.
proof fn lemma_rewritten_scan(
    prefix: Seq<char>,
    content: Seq<char>,
    o: Option<Seq<char>>,
    e: Option<Seq<char>>,
    code: i32,
    write: bool,
)
    requires
        one_line(prefix),
        scan_lines(default_strings(prefix), lines(content)) matches Ok(s) && s.state
            != State::InArgs,
        args_blocks_kept(prefix, content),
        o matches Some(c) ==> writable(c, ":out"@),
        e matches Some(c) ==> writable(c, ":err"@),
    ensures
        scan_text(
            default_strings(prefix),
            Ok(initial_scan()),
            rewritten(content, prefix, o, e, code, write),
        ) matches Ok(st) && settled(
            st,
            o,
            e,
            if write {
                code
            } else {
                0
            },
        ) && st.args == scan_lines(default_strings(prefix), lines(content))->Ok_0.args,
        ends_line(rewritten(content, prefix, o, e, code, write)),
{
    let p = default_strings(prefix);
    let ls = lines(content);
    lemma_lines_no_newline(content);
    lemma_follows(prefix, ls);
    let s0 = scan_lines(p, ls)->Ok_0;
    let rw = rewrite_scan(prefix, ls);
    let n = rw.kept.len();
    let ks = kept_scan(p, rw.kept, n)->Ok_0;
    assert(ks.state == State::Idle);
    let fallback = match rw.first_source {
        Some(f) => f,
        None => n as int,
    };
    assert(idle_pos(p, rw.kept, Some(fallback)));
    let po = match rw.stdout_at {
        Some(x) => x,
        None => fallback,
    };
    let pe = match rw.stderr_at {
        Some(x) => x,
        None => fallback,
    };
    let px = match rw.exit_at {
        Some(x) => x,
        None => fallback,
    };
    assert(idle_pos(p, rw.kept, Some(po)));
    assert(idle_pos(p, rw.kept, Some(pe)));
    assert(idle_pos(p, rw.kept, Some(px)));
    let ins = entries(prefix, o, po, e, pe, write, code, px);
    assert(insertions(prefix, rw, o, e, code, write) == ins);
    lemma_assembled(prefix, rw.kept, o, po, e, pe, write, code, px, n);
    let a = assembled(rw.kept, ins, n);
    let st = scan_text(p, Ok(initial_scan()), a)->Ok_0;
    lemma_insert_at(prefix, rw.kept, st, ks, o, po, e, pe, write, code, px, n);
    let t = texts_at(ins, n as int);
    lemma_scan_text_concat(p, Ok(initial_scan()), a, t);
    lemma_ends_line_concat(a, t);
    assert(rewritten(content, prefix, o, e, code, write) == a + t);
}

/// An empty line read outside any block changes nothing.
proof fn lemma_empty_line(prefix: Seq<char>, st: Scan)
    requires
        st.state == State::Idle,
    ensures
        scan_line(default_strings(prefix), st, Seq::<char>::empty()) == Ok::<Scan, State>(st),
{
    reveal_strlit("args:");
    reveal_strlit("out:");
    reveal_strlit("err:");
    reveal_strlit("exit:");
    let l = Seq::<char>::empty();
    if let Some(rest) = strip_prefix(l, prefix) {
        assert(rest.len() == 0);
        assert(trim(rest) =~= Seq::<char>::empty());
    }
}

/// Updating a test file to a run and reading it again gives back that run:
/// the updated file parses, expects exactly what the update wrote, keeps the
/// arguments it had, and the same output passes it.
///
/// This holds of the test files that parse, where the comment prefix fits
/// on one line (see `one_line`), no `out:`, `err:` or `exit:` directive stands as
/// an argument inside an `args:` block (see `args_blocks_kept`), and each
/// stream that is written holds text that a directive gives back unchanged
/// (see `writable`).
pub proof fn updated_test_passes(
    tc: TestCase,
    content: Seq<char>,
    stdout: Seq<u8>,
    stderr: Seq<u8>,
    status: Option<i32>,
)
    requires
        one_line(tc.prefix@),
        scan_file(default_strings(tc.prefix@), content) is Ok,
        args_blocks_kept(tc.prefix@, content),
        updated_stdout(tc, stdout) matches Some(c) ==> writable(c, ":out"@),
        updated_stderr(tc, stderr) matches Some(c) ==> writable(c, ":err"@),
    ensures
        scan_file(default_strings(tc.prefix@), updated_text(tc, content, stdout, stderr, status))
            matches Ok(st) && st.args == scan_file(default_strings(tc.prefix@), content)->Ok_0.args
            && st.expected_stdout == updated_stdout(tc, stdout) && st.expected_stderr
            == updated_stderr(tc, stderr) && st.expected_exit == exit_code(status) && run_passes(
            st,
            stdout,
            stderr,
            status,
        ),
{
    let prefix = tc.prefix@;
    let p = default_strings(prefix);
    let o = updated_stdout(tc, stdout);
    let e = updated_stderr(tc, stderr);
    let code = exit_code(status);
    let write = writes_exit(tc, status);
    let x = if write {
        code
    } else {
        0
    };
    lemma_trim_newlines_facts(lossy_utf8(stdout));
    lemma_trim_newlines_facts(lossy_utf8(stderr));
    lemma_rewritten_scan(prefix, content, o, e, code, write);
    let text = rewritten(content, prefix, o, e, code, write);
    assert(updated_text(tc, content, stdout, stderr, status) == with_final_newline(text));
    let st1 = scan_text(p, Ok(initial_scan()), text)->Ok_0;
    let full = with_final_newline(text);
    if text.len() > 0 && text.last() == '\n' {
        assert(full == text);
        lemma_scan_lines_from(p, lines(full));
    } else {
        assert(text.len() == 0);
        assert(full =~= Seq::<char>::empty() + seq!['\n']);
        lemma_lines_single(Seq::<char>::empty());
        lemma_scan_text_empty(p, Ok(initial_scan()));
        assert(st1 == initial_scan());
        lemma_scan_one(p, st1, Seq::<char>::empty());
        lemma_empty_line(prefix, st1);
        lemma_scan_lines_from(p, lines(full));
    }
}

/// The rewriter's first pass over `ls`, on from `rw`.
pub open spec fn rewrite_from(prefix: Seq<char>, rw: Rewrite, ls: Seq<Seq<char>>) -> Rewrite
    decreases ls.len(),
{
    if ls.len() == 0 {
        rw
    } else {
        rewrite_step(prefix, rewrite_from(prefix, rw, ls.drop_last()), ls.last())
    }
}

proof fn lemma_rewrite_from_concat(prefix: Seq<char>, rw: Rewrite, a: Seq<Seq<char>>, b: Seq<Seq<char>>)
    ensures
        rewrite_from(prefix, rw, a + b) == rewrite_from(prefix, rewrite_from(prefix, rw, a), b),
    decreases b.len(),
{
    if b.len() == 0 {
        assert(a + b == a);
    } else {
        lemma_rewrite_from_concat(prefix, rw, a, b.drop_last());
        assert((a + b).drop_last() == a + b.drop_last());
        assert((a + b).last() == b.last());
    }
}

proof fn lemma_rewrite_scan_from(prefix: Seq<char>, ls: Seq<Seq<char>>)
    ensures
        rewrite_scan(prefix, ls) == rewrite_from(prefix, initial_rewrite(), ls),
    decreases ls.len(),
{
    if ls.len() > 0 {
        lemma_rewrite_scan_from(prefix, ls.drop_last());
    }
}

/// The rewriter's first pass over the lines of `text`, on from `rw`.
pub open spec fn rewrite_text(prefix: Seq<char>, rw: Rewrite, text: Seq<char>) -> Rewrite {
    rewrite_from(prefix, rw, lines(text))
}

proof fn lemma_rewrite_text_concat(prefix: Seq<char>, rw: Rewrite, a: Seq<char>, b: Seq<char>)
    requires
        ends_line(a),
    ensures
        rewrite_text(prefix, rw, a + b) == rewrite_text(prefix, rewrite_text(prefix, rw, a), b),
{
    lemma_lines_concat(a, b);
    lemma_rewrite_from_concat(prefix, rw, lines(a), lines(b));
}

proof fn lemma_rewrite_text_empty(prefix: Seq<char>, rw: Rewrite)
    ensures
        rewrite_text(prefix, rw, Seq::<char>::empty()) == rw,
{
    assert(lines(Seq::<char>::empty()) =~= Seq::<Seq<char>>::empty()) by {
        assert(split_newlines(Seq::<char>::empty()) == seq![Seq::<char>::empty()]);
    }
}

proof fn lemma_rewrite_text_line(prefix: Seq<char>, rw: Rewrite, l: Seq<char>)
    requires
        one_line(l),
    ensures
        rewrite_text(prefix, rw, l + seq!['\n']) == rewrite_step(prefix, rw, l),
{
    lemma_line_reads_back(l);
    assert(seq![l].drop_last() =~= Seq::<Seq<char>>::empty());
    assert(rewrite_from(prefix, rw, seq![l].drop_last()) == rw);
    assert(seq![l].last() == l);
}

/// The position of the first source line among the first `k` kept lines.
pub open spec fn first_source_in(prefix: Seq<char>, kept: Seq<Seq<char>>, k: nat) -> Option<int>
    decreases k,
{
    if k == 0 {
        None
    } else {
        match first_source_in(prefix, kept, (k - 1) as nat) {
            Some(f) => Some(f),
            None => if strip_prefix(kept[k - 1].drop_last(), prefix) is None {
                Some(k - 1)
            } else {
                None
            },
        }
    }
}

proof fn lemma_first_source_push(prefix: Seq<char>, kept: Seq<Seq<char>>, x: Seq<char>, q: nat)
    requires
        q <= kept.len(),
    ensures
        first_source_in(prefix, kept.push(x), q) == first_source_in(prefix, kept, q),
        first_source_in(prefix, kept, q) matches Some(f) ==> 0 <= f < q,
    decreases q,
{
    if q > 0 {
        lemma_first_source_push(prefix, kept, x, (q - 1) as nat);
        assert(kept.push(x)[q - 1] == kept[q - 1]);
    }
}

/// A position recorded by the rewriter's first pass, at most `n`.
pub open spec fn at_most(o: Option<int>, n: int) -> bool {
    match o {
        Some(q) => 0 <= q <= n,
        None => true,
    }
}

/// What the rewriter's first pass keeps: each line it keeps is one that it
/// keeps again (a source line or a directive it does not drop), with its
/// newline, and without a carriage return at its end where the lines read
/// have none; its first source line is the first of the kept lines; and
/// the positions it records lie within the kept lines.
proof fn lemma_first_pass(prefix: Seq<char>, ls: Seq<Seq<char>>)
    requires
        one_line(prefix),
        forall|i: int| 0 <= i < ls.len() ==> one_line(#[trigger] ls[i]),
    ensures
        forall|q: int|
            0 <= q < rewrite_scan(prefix, ls).kept.len() ==> {
                let x = #[trigger] rewrite_scan(prefix, ls).kept[q];
                &&& x.len() > 0
                &&& x.last() == '\n'
                &&& one_line(x.drop_last())
                &&& !dropped(prefix, x.drop_last())
            },
        rewrite_scan(prefix, ls).first_source == first_source_in(
            prefix,
            rewrite_scan(prefix, ls).kept,
            rewrite_scan(prefix, ls).kept.len(),
        ),
        at_most(rewrite_scan(prefix, ls).stdout_at, rewrite_scan(prefix, ls).kept.len() as int),
        at_most(rewrite_scan(prefix, ls).stderr_at, rewrite_scan(prefix, ls).kept.len() as int),
        at_most(rewrite_scan(prefix, ls).exit_at, rewrite_scan(prefix, ls).kept.len() as int),
    decreases ls.len(),
{
    if ls.len() > 0 {
        let d = ls.drop_last();
        assert forall|i: int| 0 <= i < d.len() implies one_line(#[trigger] d[i]) by {
            assert(d[i] == ls[i]);
        }
        lemma_first_pass(prefix, d);
        let rw = rewrite_scan(prefix, d);
        let l = ls.last();
        assert(one_line(l)) by {
            assert(l == ls[ls.len() - 1]);
        }
        let x = l + seq!['\n'];
        assert(x.drop_last() =~= l);
        lemma_prefix_self("out:"@);
        lemma_prefix_self("err:"@);
        let rw2 = rewrite_scan(prefix, ls);
        let n = rw.kept.len();
        lemma_first_source_push(prefix, rw.kept, x, n);
        if rw2.kept.len() > n {
            assert(rw2.kept == rw.kept.push(x));
            assert(rw2.kept[n as int] == x);
        } else {
            assert(rw2.kept == rw.kept);
        }
        assert forall|q: int| 0 <= q < rw2.kept.len() implies {
            let y = #[trigger] rw2.kept[q];
            &&& y.len() > 0
            &&& y.last() == '\n'
            &&& one_line(y.drop_last())
            &&& !dropped(prefix, y.drop_last())
        } by {
            if q < n {
                assert(rw2.kept[q] == rw.kept[q]);
            }
        }
    }
}

/// Lines of an `out:` block, behind the prefix, read by the rewriter inside
/// that block: passed over.
proof fn lemma_pass_out_block(prefix: Seq<char>, rw: Rewrite, ls: Seq<Seq<char>>)
    requires
        one_line(prefix),
        rw.in_stdout,
        forall|i: int| 0 <= i < ls.len() ==> trim(#[trigger] ls[i]) != ":out"@,
    ensures
        rewrite_from(prefix, rw, ls.map_values(|l: Seq<char>| strip_cr(prefix + l))) == rw,
    decreases ls.len(),
{
    let m = ls.map_values(|l: Seq<char>| strip_cr(prefix + l));
    if ls.len() > 0 {
        lemma_pass_out_block(prefix, rw, ls.drop_last());
        assert(m.drop_last() =~= ls.drop_last().map_values(|l: Seq<char>| strip_cr(prefix + l)));
        assert(m.last() == strip_cr(prefix + ls.last()));
        lemma_strip_prefix_concat(prefix, ls.last());
        lemma_strip_cr_directive(prefix, prefix + ls.last());
        assert(trim(ls[ls.len() - 1]) != ":out"@);
    }
}

/// An `out` directive written inline, read by the rewriter outside any block.
proof fn lemma_pass_out_inline(prefix: Seq<char>, rw: Rewrite, c: Seq<char>)
    requires
        one_line(prefix),
        !rw.in_stdout,
        !rw.in_stderr,
        inline_form(c),
    ensures
        rewrite_text(prefix, rw, directive_text(prefix, "out"@, c)) == (Rewrite {
            stdout_at: first_of(rw.stdout_at, rw.kept.len() as int),
            ..rw
        }),
        ends_line(directive_text(prefix, "out"@, c)),
{
    reveal_strlit("out");
    reveal_strlit(":out");
    reveal_strlit("out:");
    reveal_strlit("err:");
    let text = directive_text(prefix, "out"@, c);
    let r = "out"@ + seq![':', ' '] + c;
    let l = prefix + r;
    lemma_plain_concat("out"@, seq![':', ' ']);
    lemma_no_newline_concat("out"@ + seq![':', ' '], c);
    lemma_no_newline_concat(prefix, r);
    assert(text =~= l + seq!['\n']);
    assert(l.last() == c.last());
    lemma_rewrite_text_line(prefix, rw, l);
    lemma_strip_prefix_concat(prefix, r);
    assert(r[0] == 'o');
    assert(r.last() == c.last());
    lemma_trim_unchanged(r);
    assert(r.subrange(0, 4) =~= "out:"@);
    assert(r.len() != 4);
    assert(r != "err:"@) by {
        assert(r[0] != "err:"@[0]);
    }
}

/// An `out` directive written as a block, read by the rewriter outside any
/// block.
proof fn lemma_pass_out_block_form(prefix: Seq<char>, rw: Rewrite, c: Seq<char>)
    requires
        one_line(prefix),
        !rw.in_stdout,
        !rw.in_stderr,
        rewritable(c, ":out"@),
        !inline_form(c),
    ensures
        rewrite_text(prefix, rw, directive_text(prefix, "out"@, c)) == (Rewrite {
            stdout_at: first_of(rw.stdout_at, rw.kept.len() as int),
            ..rw
        }),
        ends_line(directive_text(prefix, "out"@, c)),
{
    reveal_strlit("out");
    reveal_strlit(":out");
    reveal_strlit("out:");
    reveal_strlit("err:");
    let text = directive_text(prefix, "out"@, c);
    let a0 = prefix + ("out"@ + seq![':']);
    let a = a0 + seq!['\n'];
    let b = block_body(prefix, lines(c));
    let c0 = prefix + (seq![':'] + "out"@);
    let cc = c0 + seq!['\n'];
    assert(text =~= a + (b + cc));
    lemma_plain_concat("out"@, seq![':']);
    lemma_plain_concat(seq![':'], "out"@);
    lemma_no_newline_concat(prefix, "out"@ + seq![':']);
    lemma_no_newline_concat(prefix, seq![':'] + "out"@);
    assert(a0.last() == ':');
    assert(c0.last() == c0[c0.len() - 1]);
    lemma_lines_no_newline(c);
    assert forall|i: int| 0 <= i < lines(c).len() implies !(prefix + #[trigger] lines(
        c,
    )[i]).contains('\n') by {
        lemma_no_newline_concat(prefix, lines(c)[i]);
    }
    lemma_block_body_lines_cr(prefix, lines(c));
    lemma_rewrite_text_concat(prefix, rw, a, b + cc);
    lemma_ends_line_concat(a, b + cc);
    lemma_ends_line_concat(b, cc);
    // The opening line.
    lemma_rewrite_text_line(prefix, rw, a0);
    lemma_strip_prefix_concat(prefix, "out"@ + seq![':']);
    let t0 = "out"@ + seq![':'];
    assert(t0 =~= "out:"@);
    lemma_trim_unchanged(t0);
    let rw1 = Rewrite {
        stdout_at: first_of(rw.stdout_at, rw.kept.len() as int),
        in_stdout: true,
        ..rw
    };
    assert(rewrite_step(prefix, rw, a0) == rw1);
    // The block's lines.
    lemma_rewrite_text_concat(prefix, rw1, b, cc);
    lemma_pass_out_block(prefix, rw1, lines(c));
    assert(rewrite_text(prefix, rw1, b) == rw1);
    // The closing line.
    lemma_rewrite_text_line(prefix, rw1, c0);
    lemma_strip_prefix_concat(prefix, seq![':'] + "out"@);
    let t1 = seq![':'] + "out"@;
    assert(t1 =~= ":out"@);
    lemma_trim_unchanged(t1);
}

/// An `out` directive that the rewriter passes over, read by it outside any
/// block: it records the stdout position and keeps nothing.
proof fn lemma_pass_out_directive(prefix: Seq<char>, rw: Rewrite, c: Seq<char>)
    requires
        one_line(prefix),
        !rw.in_stdout,
        !rw.in_stderr,
        rewritable(c, ":out"@),
    ensures
        rewrite_text(prefix, rw, directive_text(prefix, "out"@, c)) == (Rewrite {
            stdout_at: first_of(rw.stdout_at, rw.kept.len() as int),
            ..rw
        }),
        ends_line(directive_text(prefix, "out"@, c)),
{
    if inline_form(c) {
        lemma_pass_out_inline(prefix, rw, c);
    } else {
        lemma_pass_out_block_form(prefix, rw, c);
    }
}

/// Lines of an `err:` block, behind the prefix, read by the rewriter inside
/// that block: passed over.
proof fn lemma_pass_err_block(prefix: Seq<char>, rw: Rewrite, ls: Seq<Seq<char>>)
    requires
        one_line(prefix),
        rw.in_stderr,
        !rw.in_stdout,
        forall|i: int| 0 <= i < ls.len() ==> trim(#[trigger] ls[i]) != ":err"@,
    ensures
        rewrite_from(prefix, rw, ls.map_values(|l: Seq<char>| strip_cr(prefix + l))) == rw,
    decreases ls.len(),
{
    let m = ls.map_values(|l: Seq<char>| strip_cr(prefix + l));
    if ls.len() > 0 {
        lemma_pass_err_block(prefix, rw, ls.drop_last());
        assert(m.drop_last() =~= ls.drop_last().map_values(|l: Seq<char>| strip_cr(prefix + l)));
        assert(m.last() == strip_cr(prefix + ls.last()));
        lemma_strip_prefix_concat(prefix, ls.last());
        lemma_strip_cr_directive(prefix, prefix + ls.last());
        assert(trim(ls[ls.len() - 1]) != ":err"@);
    }
}

/// An `err` directive written inline, read by the rewriter outside any block.
proof fn lemma_pass_err_inline(prefix: Seq<char>, rw: Rewrite, c: Seq<char>)
    requires
        one_line(prefix),
        !rw.in_stdout,
        !rw.in_stderr,
        inline_form(c),
    ensures
        rewrite_text(prefix, rw, directive_text(prefix, "err"@, c)) == (Rewrite {
            stderr_at: first_of(rw.stderr_at, rw.kept.len() as int),
            ..rw
        }),
        ends_line(directive_text(prefix, "err"@, c)),
{
    reveal_strlit("err");
    reveal_strlit(":err");
    reveal_strlit("err:");
    reveal_strlit("out:");
    reveal_strlit(":out");
    let text = directive_text(prefix, "err"@, c);
    let r = "err"@ + seq![':', ' '] + c;
    let l = prefix + r;
    lemma_plain_concat("err"@, seq![':', ' ']);
    lemma_no_newline_concat("err"@ + seq![':', ' '], c);
    lemma_no_newline_concat(prefix, r);
    assert(text =~= l + seq!['\n']);
    assert(l.last() == c.last());
    lemma_rewrite_text_line(prefix, rw, l);
    lemma_strip_prefix_concat(prefix, r);
    assert(r[0] == 'e');
    assert(r.last() == c.last());
    lemma_trim_unchanged(r);
    assert(r.subrange(0, 4) =~= "err:"@);
    assert(r.len() != 4);
    assert(r != "out:"@) by {
        assert(r[0] != "out:"@[0]);
    }
    assert(!"out:"@.is_prefix_of(r)) by {
        if "out:"@.is_prefix_of(r) {
            assert(r.subrange(0, 4)[0] == r[0]);
        }
    }
}

/// An `err` directive written as a block, read by the rewriter outside any
/// block.
proof fn lemma_pass_err_block_form(prefix: Seq<char>, rw: Rewrite, c: Seq<char>)
    requires
        one_line(prefix),
        !rw.in_stdout,
        !rw.in_stderr,
        rewritable(c, ":err"@),
        !inline_form(c),
    ensures
        rewrite_text(prefix, rw, directive_text(prefix, "err"@, c)) == (Rewrite {
            stderr_at: first_of(rw.stderr_at, rw.kept.len() as int),
            ..rw
        }),
        ends_line(directive_text(prefix, "err"@, c)),
{
    reveal_strlit("err");
    reveal_strlit(":err");
    reveal_strlit("err:");
    reveal_strlit("out:");
    reveal_strlit(":out");
    let text = directive_text(prefix, "err"@, c);
    let a0 = prefix + ("err"@ + seq![':']);
    let a = a0 + seq!['\n'];
    let b = block_body(prefix, lines(c));
    let c0 = prefix + (seq![':'] + "err"@);
    let cc = c0 + seq!['\n'];
    assert(text =~= a + (b + cc));
    lemma_plain_concat("err"@, seq![':']);
    lemma_plain_concat(seq![':'], "err"@);
    lemma_no_newline_concat(prefix, "err"@ + seq![':']);
    lemma_no_newline_concat(prefix, seq![':'] + "err"@);
    assert(a0.last() == ':');
    assert(c0.last() == c0[c0.len() - 1]);
    lemma_lines_no_newline(c);
    assert forall|i: int| 0 <= i < lines(c).len() implies !(prefix + #[trigger] lines(
        c,
    )[i]).contains('\n') by {
        lemma_no_newline_concat(prefix, lines(c)[i]);
    }
    lemma_block_body_lines_cr(prefix, lines(c));
    lemma_rewrite_text_concat(prefix, rw, a, b + cc);
    lemma_ends_line_concat(a, b + cc);
    lemma_ends_line_concat(b, cc);
    // The opening line.
    lemma_rewrite_text_line(prefix, rw, a0);
    lemma_strip_prefix_concat(prefix, "err"@ + seq![':']);
    let t0 = "err"@ + seq![':'];
    assert(t0 =~= "err:"@);
    lemma_trim_unchanged(t0);
    let rw1 = Rewrite {
        stderr_at: first_of(rw.stderr_at, rw.kept.len() as int),
        in_stderr: true,
        ..rw
    };
    assert(rewrite_step(prefix, rw, a0) == rw1);
    // The block's lines.
    lemma_rewrite_text_concat(prefix, rw1, b, cc);
    lemma_pass_err_block(prefix, rw1, lines(c));
    assert(rewrite_text(prefix, rw1, b) == rw1);
    // The closing line.
    lemma_rewrite_text_line(prefix, rw1, c0);
    lemma_strip_prefix_concat(prefix, seq![':'] + "err"@);
    let t1 = seq![':'] + "err"@;
    assert(t1 =~= ":err"@);
    lemma_trim_unchanged(t1);
}

/// An `err` directive that the rewriter passes over, read by it outside any
/// block: it records the stderr position and keeps nothing.
proof fn lemma_pass_err_directive(prefix: Seq<char>, rw: Rewrite, c: Seq<char>)
    requires
        one_line(prefix),
        !rw.in_stdout,
        !rw.in_stderr,
        rewritable(c, ":err"@),
    ensures
        rewrite_text(prefix, rw, directive_text(prefix, "err"@, c)) == (Rewrite {
            stderr_at: first_of(rw.stderr_at, rw.kept.len() as int),
            ..rw
        }),
        ends_line(directive_text(prefix, "err"@, c)),
{
    if inline_form(c) {
        lemma_pass_err_inline(prefix, rw, c);
    } else {
        lemma_pass_err_block_form(prefix, rw, c);
    }
}

/// An `exit:` directive read by the rewriter outside any block: it records
/// the exit position and keeps nothing.
proof fn lemma_pass_exit_directive(prefix: Seq<char>, rw: Rewrite, n: i32)
    requires
        one_line(prefix),
        !rw.in_stdout,
        !rw.in_stderr,
    ensures
        rewrite_text(prefix, rw, exit_text(prefix, n)) == (Rewrite {
            exit_at: first_of(rw.exit_at, rw.kept.len() as int),
            ..rw
        }),
        ends_line(exit_text(prefix, n)),
{
    reveal_strlit("exit: ");
    reveal_strlit("exit:");
    reveal_strlit("out:");
    reveal_strlit(":out");
    reveal_strlit("err:");
    reveal_strlit(":err");
    let d = int_to_decimal(n as int);
    lemma_decimal_text(n);
    let r = "exit: "@ + d;
    let l = prefix + r;
    lemma_plain_concat("exit: "@, d);
    lemma_no_newline_concat(prefix, r);
    assert(exit_text(prefix, n) =~= l + seq!['\n']);
    assert(l.last() == d.last());
    lemma_rewrite_text_line(prefix, rw, l);
    lemma_strip_prefix_concat(prefix, r);
    assert(r[0] == 'e');
    assert(r.last() == d.last());
    lemma_trim_unchanged(r);
    assert(!"out:"@.is_prefix_of(r)) by {
        if "out:"@.is_prefix_of(r) {
            assert(r.subrange(0, 4)[0] == r[0]);
        }
    }
    assert(!"err:"@.is_prefix_of(r)) by {
        if "err:"@.is_prefix_of(r) {
            assert(r.subrange(0, 4)[1] == r[1]);
        }
    }
    assert(r != ":out"@ && r != ":err"@) by {
        assert(r[0] != ':');
    }
    assert(r.subrange(0, 5) =~= "exit:"@);
}

/// The rewriter's state in its second pass over a rewritten text, after
/// the first `j` kept lines and the directives inserted before position `b`.
pub open spec fn second_pass(
    prefix: Seq<char>,
    kept: Seq<Seq<char>>,
    o: bool,
    po: int,
    e: bool,
    pe: int,
    write: bool,
    px: int,
    j: nat,
    b: int,
) -> Rewrite {
    Rewrite {
        kept: kept.take(j as int),
        in_stdout: false,
        in_stderr: false,
        stdout_at: if o && po < b {
            Some(po)
        } else {
            None
        },
        stderr_at: if e && pe < b {
            Some(pe)
        } else {
            None
        },
        exit_at: if write && px < b {
            Some(px)
        } else {
            None
        },
        first_source: first_source_in(prefix, kept, j),
    }
}

/// The directives inserted at `k`, read in the second pass.
proof fn lemma_pass_inserted(
    prefix: Seq<char>,
    kept: Seq<Seq<char>>,
    o: Option<Seq<char>>,
    po: int,
    e: Option<Seq<char>>,
    pe: int,
    write: bool,
    code: i32,
    px: int,
    k: nat,
)
    requires
        one_line(prefix),
        k <= kept.len(),
        o matches Some(c) ==> rewritable(c, ":out"@),
        e matches Some(c) ==> rewritable(c, ":err"@),
    ensures
        rewrite_text(
            prefix,
            second_pass(prefix, kept, o is Some, po, e is Some, pe, write, px, k, k as int),
            texts_at(entries(prefix, o, po, e, pe, write, code, px), k as int),
        ) == second_pass(prefix, kept, o is Some, po, e is Some, pe, write, px, k, (k + 1) as int),
        ends_line(texts_at(entries(prefix, o, po, e, pe, write, code, px), k as int)),
{
    let w0 = second_pass(prefix, kept, o is Some, po, e is Some, pe, write, px, k, k as int);
    let a = opt_entry(stream_entry(prefix, "out"@, o, po));
    let b = opt_entry(stream_entry(prefix, "err"@, e, pe));
    let c = opt_entry(exit_entry(prefix, write, code, px));
    lemma_texts_at_concat(a + b, c, k as int);
    lemma_texts_at_concat(a, b, k as int);
    lemma_texts_at_one(stream_entry(prefix, "out"@, o, po), k as int);
    lemma_texts_at_one(stream_entry(prefix, "err"@, e, pe), k as int);
    lemma_texts_at_one(exit_entry(prefix, write, code, px), k as int);
    let ta = texts_at(a, k as int);
    let tb = texts_at(b, k as int);
    let tc = texts_at(c, k as int);
    let w1 = Rewrite {
        stdout_at: if o is Some && po < k + 1 {
            Some(po)
        } else {
            None
        },
        ..w0
    };
    let w2 = Rewrite {
        stderr_at: if e is Some && pe < k + 1 {
            Some(pe)
        } else {
            None
        },
        ..w1
    };
    let w3 = Rewrite {
        exit_at: if write && px < k + 1 {
            Some(px)
        } else {
            None
        },
        ..w2
    };
    assert(w0.kept.len() == k);
    if o is Some && po == k {
        lemma_pass_out_directive(prefix, w0, o->Some_0);
    } else {
        lemma_rewrite_text_empty(prefix, w0);
    }
    assert(rewrite_text(prefix, w0, ta) == w1);
    if e is Some && pe == k {
        lemma_pass_err_directive(prefix, w1, e->Some_0);
    } else {
        lemma_rewrite_text_empty(prefix, w1);
    }
    assert(rewrite_text(prefix, w1, tb) == w2);
    if write && px == k {
        lemma_pass_exit_directive(prefix, w2, code);
    } else {
        lemma_rewrite_text_empty(prefix, w2);
    }
    assert(rewrite_text(prefix, w2, tc) == w3);
    lemma_rewrite_text_concat(prefix, w0, ta, tb);
    lemma_ends_line_concat(ta, tb);
    lemma_rewrite_text_concat(prefix, w0, ta + tb, tc);
    lemma_ends_line_concat(ta + tb, tc);
}

/// A kept line read in the second pass: kept again, as it was.
proof fn lemma_pass_kept(
    prefix: Seq<char>,
    kept: Seq<Seq<char>>,
    o: bool,
    po: int,
    e: bool,
    pe: int,
    write: bool,
    px: int,
    k: nat,
)
    requires
        one_line(prefix),
        k < kept.len(),
        kept[k as int].len() > 0,
        kept[k as int].last() == '\n',
        one_line(kept[k as int].drop_last()),
        !dropped(prefix, kept[k as int].drop_last()),
    ensures
        rewrite_text(
            prefix,
            second_pass(prefix, kept, o, po, e, pe, write, px, k, (k + 1) as int),
            kept[k as int],
        ) == second_pass(prefix, kept, o, po, e, pe, write, px, k + 1, (k + 1) as int),
        ends_line(kept[k as int]),
{
    reveal_strlit("out:");
    reveal_strlit("err:");
    let w = second_pass(prefix, kept, o, po, e, pe, write, px, k, (k + 1) as int);
    let x = kept[k as int];
    let l = x.drop_last();
    assert(x =~= l + seq!['\n']);
    lemma_rewrite_text_line(prefix, w, l);
    lemma_prefix_self("out:"@);
    lemma_prefix_self("err:"@);
    assert(kept.take(k as int).push(x) =~= kept.take((k + 1) as int));
    lemma_first_source_push(prefix, kept.take(k as int), x, k);
    assert(kept[k as int] == x);
}

/// Reading the first `k` kept lines of a rewritten text, with what is
/// inserted before them, in the second pass.
proof fn lemma_pass_assembled(
    prefix: Seq<char>,
    kept: Seq<Seq<char>>,
    o: Option<Seq<char>>,
    po: int,
    e: Option<Seq<char>>,
    pe: int,
    write: bool,
    code: i32,
    px: int,
    k: nat,
)
    requires
        one_line(prefix),
        k <= kept.len(),
        0 <= po && 0 <= pe && 0 <= px,
        o matches Some(c) ==> rewritable(c, ":out"@),
        e matches Some(c) ==> rewritable(c, ":err"@),
        forall|q: int|
            0 <= q < kept.len() ==> {
                let x = #[trigger] kept[q];
                &&& x.len() > 0
                &&& x.last() == '\n'
                &&& one_line(x.drop_last())
                &&& !dropped(prefix, x.drop_last())
            },
    ensures
        rewrite_text(
            prefix,
            initial_rewrite(),
            assembled(kept, entries(prefix, o, po, e, pe, write, code, px), k),
        ) == second_pass(prefix, kept, o is Some, po, e is Some, pe, write, px, k, k as int),
        ends_line(assembled(kept, entries(prefix, o, po, e, pe, write, code, px), k)),
    decreases k,
{
    let ins = entries(prefix, o, po, e, pe, write, code, px);
    if k == 0 {
        lemma_rewrite_text_empty(prefix, initial_rewrite());
        assert(kept.take(0) =~= Seq::<Seq<char>>::empty());
    } else {
        let j = (k - 1) as nat;
        lemma_pass_assembled(prefix, kept, o, po, e, pe, write, code, px, j);
        let a = assembled(kept, ins, j);
        let t = texts_at(ins, j as int);
        let x = kept[j as int];
        lemma_pass_inserted(prefix, kept, o, po, e, pe, write, code, px, j);
        assert(x == kept[j as int]);
        lemma_pass_kept(prefix, kept, o is Some, po, e is Some, pe, write, px, j);
        lemma_rewrite_text_concat(prefix, initial_rewrite(), a, t);
        lemma_ends_line_concat(a, t);
        lemma_rewrite_text_concat(prefix, initial_rewrite(), a + t, x);
        lemma_ends_line_concat(a + t, x);
    }
}

/// Rewriting twice gives the text that rewriting once gives: a rewritten
/// file already holds, at the places where the rewriter puts them, exactly
/// the directives it writes.
///
/// This holds where the comment prefix fits on one line, no line of the
/// file ends with a carriage return, and no value written as a block has a
/// line that reads as its closing tag (see `rewritable`).
pub proof fn rewrite_idempotent(
    content: Seq<char>,
    prefix: Seq<char>,
    new_stdout: Option<Seq<char>>,
    new_stderr: Option<Seq<char>>,
    new_exit: i32,
    write_exit: bool,
)
    requires
        one_line(prefix),
        forall|i: int| 0 <= i < lines(content).len() ==> !ends_cr(#[trigger] lines(content)[i]),
        new_stdout matches Some(c) ==> rewritable(c, ":out"@),
        new_stderr matches Some(c) ==> rewritable(c, ":err"@),
    ensures
        rewritten(
            rewritten(content, prefix, new_stdout, new_stderr, new_exit, write_exit),
            prefix,
            new_stdout,
            new_stderr,
            new_exit,
            write_exit,
        ) == rewritten(content, prefix, new_stdout, new_stderr, new_exit, write_exit),
{
    let o = new_stdout;
    let e = new_stderr;
    let ls = lines(content);
    lemma_lines_no_newline(content);
    assert forall|i: int| 0 <= i < ls.len() implies one_line(#[trigger] ls[i]) by {}
    lemma_first_pass(prefix, ls);
    let rw = rewrite_scan(prefix, ls);
    let kept = rw.kept;
    let n = kept.len();
    lemma_first_source_push(prefix, kept, Seq::<char>::empty(), n);
    let fallback = match rw.first_source {
        Some(f) => f,
        None => n as int,
    };
    let po = match rw.stdout_at {
        Some(x) => x,
        None => fallback,
    };
    let pe = match rw.stderr_at {
        Some(x) => x,
        None => fallback,
    };
    let px = match rw.exit_at {
        Some(x) => x,
        None => fallback,
    };
    let ins = entries(prefix, o, po, e, pe, write_exit, new_exit, px);
    assert(insertions(prefix, rw, o, e, new_exit, write_exit) == ins);
    let text = rewritten(content, prefix, o, e, new_exit, write_exit);
    let a = assembled(kept, ins, n);
    let t = texts_at(ins, n as int);
    assert(text == a + t);
    lemma_pass_assembled(prefix, kept, o, po, e, pe, write_exit, new_exit, px, n);
    lemma_pass_inserted(prefix, kept, o, po, e, pe, write_exit, new_exit, px, n);
    lemma_rewrite_text_concat(prefix, initial_rewrite(), a, t);
    lemma_rewrite_scan_from(prefix, lines(text));
    let rw2 = rewrite_scan(prefix, lines(text));
    assert(rw2 == second_pass(prefix, kept, o is Some, po, e is Some, pe, write_exit, px, n, (n + 1) as int));
    assert(kept.take(n as int) =~= kept);
    assert(rw2.kept == kept);
    assert(rw2.first_source == rw.first_source);
    assert(insertions(prefix, rw2, o, e, new_exit, write_exit) == ins);
}

/// Reading a rewrite back: a test file that parses, with its `out:`,
/// `err:` and `exit:` directives rewritten to `new_stdout`, `new_stderr` and
/// (where `write_exit`) `new_exit`, parses again, expects exactly those
/// values (the exit code `0` where none is written), and keeps its
/// arguments.
///
/// This holds where the comment prefix fits on one line, no `out:`, `err:`
/// or `exit:` directive stands as an argument inside an `args:` block (see
/// `args_blocks_kept`), and each value written is text that a directive
/// gives back unchanged (see `writable`).
pub proof fn rewrite_reads_back(
    content: Seq<char>,
    prefix: Seq<char>,
    new_stdout: Option<Seq<char>>,
    new_stderr: Option<Seq<char>>,
    new_exit: i32,
    write_exit: bool,
)
    requires
        one_line(prefix),
        scan_file(default_strings(prefix), content) is Ok,
        args_blocks_kept(prefix, content),
        new_stdout matches Some(c) ==> writable(c, ":out"@),
        new_stderr matches Some(c) ==> writable(c, ":err"@),
    ensures
        scan_file(
            default_strings(prefix),
            rewritten(content, prefix, new_stdout, new_stderr, new_exit, write_exit),
        ) matches Ok(st) && st.args == scan_file(default_strings(prefix), content)->Ok_0.args
            && st.expected_stdout == new_stdout && st.expected_stderr == new_stderr
            && st.expected_exit == if write_exit {
            new_exit
        } else {
            0
        },
{
    lemma_rewritten_scan(prefix, content, new_stdout, new_stderr, new_exit, write_exit);
    lemma_scan_lines_from(
        default_strings(prefix),
        lines(rewritten(content, prefix, new_stdout, new_stderr, new_exit, write_exit)),
    );
}


/// What an update records: after a run, the updated file expects on each
/// stream exactly the output of the run (less its final newlines) wherever
/// that output is not empty or the file checked that stream before, and
/// leaves a stream unchecked only where the file did not check it and the
/// run printed nothing on it; it expects the exit code the process reported
/// (`-1` where it reported none).
///
/// This holds on the files of `updated_test_passes`.
pub proof fn update_records_output(
    tc: TestCase,
    content: Seq<char>,
    stdout: Seq<u8>,
    stderr: Seq<u8>,
    status: Option<i32>,
)
    requires
        one_line(tc.prefix@),
        scan_file(default_strings(tc.prefix@), content) is Ok,
        args_blocks_kept(tc.prefix@, content),
        tc.expected_stdout is Some || trim_newlines(lossy_utf8(stdout)).len() > 0 ==> writable(
            trim_newlines(lossy_utf8(stdout)),
            ":out"@,
        ),
        tc.expected_stderr is Some || trim_newlines(lossy_utf8(stderr)).len() > 0 ==> writable(
            trim_newlines(lossy_utf8(stderr)),
            ":err"@,
        ),
    ensures
        scan_file(default_strings(tc.prefix@), updated_text(tc, content, stdout, stderr, status))
            matches Ok(st) && ({
            let out = trim_newlines(lossy_utf8(stdout));
            let err = trim_newlines(lossy_utf8(stderr));
            &&& (out.len() > 0 || tc.expected_stdout is Some) ==> st.expected_stdout == Some(out)
            &&& (out.len() == 0 && tc.expected_stdout is None) ==> st.expected_stdout is None
            &&& (err.len() > 0 || tc.expected_stderr is Some) ==> st.expected_stderr == Some(err)
            &&& (err.len() == 0 && tc.expected_stderr is None) ==> st.expected_stderr is None
            &&& st.expected_exit == match status {
                Some(c) => c,
                None => -1i32,
            }
        }),
{
    updated_test_passes(tc, content, stdout, stderr, status);
}

} // verus!
