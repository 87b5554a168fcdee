//! What is reported of a suite: the report of each test and the summary.

use vstd::prelude::*;

use crate::diff::{diff_pieces, line_diff_groups, pieces_view, rendered, Piece, Style};
use crate::runner::{Diff, TestOutcome};
use crate::text::{
    chars_of, decimal, decimal_chars, i32_to_decimal, int_to_decimal, push_all, string_from_chars,
};

verus! {

/// The summary line of a suite with `passed` and `failed` tests.
pub open spec fn summary_text(passed: nat, failed: nat) -> Seq<char> {
    if failed == 0 {
        "test result: ok. "@ + decimal(passed) + " passed; 0 failed"@
    } else {
        "test result: FAILED. "@ + decimal(passed) + " passed; "@ + decimal(failed) + " failed"@
    }
}

/// The summary line of a suite with `passed` and `failed` tests.
pub fn summary_line(passed: usize, failed: usize) -> (r: String)
    ensures
        r@ == summary_text(passed as nat, failed as nat),
{
    let mut r: Vec<char> = Vec::new();
    if failed == 0 {
        push_all(&mut r, chars_of("test result: ok. ").as_slice());
        push_all(&mut r, decimal_chars(passed as u64).as_slice());
        push_all(&mut r, chars_of(" passed; 0 failed").as_slice());
    } else {
        push_all(&mut r, chars_of("test result: FAILED. ").as_slice());
        push_all(&mut r, decimal_chars(passed as u64).as_slice());
        push_all(&mut r, chars_of(" passed; ").as_slice());
        push_all(&mut r, decimal_chars(failed as u64).as_slice());
        push_all(&mut r, chars_of(" failed").as_slice());
    }
    string_from_chars(r.as_slice())
}


/// A piece of plain text.
pub open spec fn plain_piece(text: Seq<char>, newline: bool) -> (Style, Seq<char>, bool) {
    (Style::Plain, text, newline)
}

/// The report of a stream that did not match: a header naming the stream,
/// the diff of the expected and actual output with two lines of context,
/// and a blank line.
pub open spec fn stream_report(stream: Seq<char>, expected: Seq<char>, actual: Seq<char>) -> Seq<
    (Style, Seq<char>, bool),
> {
    seq![plain_piece("  "@ + stream + ":"@, true)] + rendered(line_diff_groups(expected, actual, 2))
        + seq![plain_piece(Seq::empty(), true)]
}

/// The report of an exit code that did not match: the expected code in
/// red, the actual one in green, and a blank line.
pub open spec fn exit_report(expected: i32, actual: i32) -> Seq<(Style, Seq<char>, bool)> {
    seq![
        plain_piece("  exit code: "@, false),
        (Style::Red, int_to_decimal(expected as int), false),
        plain_piece(" \u{2192} "@, false),
        (Style::Green, int_to_decimal(actual as int), true),
        plain_piece(Seq::empty(), true),
    ]
}

/// The reports of the streams in `ds`, in their order.
pub open spec fn diffs_report(ds: Seq<Diff>) -> Seq<(Style, Seq<char>, bool)>
    decreases ds.len(),
{
    if ds.len() == 0 {
        Seq::empty()
    } else {
        diffs_report(ds.drop_last()) + stream_report(
            ds.last().stream@,
            ds.last().expected@,
            ds.last().actual@,
        )
    }
}

/// The report of the outcome of the test at `path`: nothing for a pass, a
/// line for an update, and for a failure a `FAIL` header followed by the
/// report of each stream and of the exit code that did not match.
pub open spec fn outcome_report(path: Seq<char>, o: TestOutcome) -> Seq<(Style, Seq<char>, bool)> {
    match o {
        TestOutcome::Pass => Seq::empty(),
        TestOutcome::Updated => seq![plain_piece("updated "@ + path, true)],
        TestOutcome::Fail { diffs, exit_mismatch, .. } => seq![
            plain_piece(Seq::empty(), true),
            (Style::Alert, "FAIL"@, false),
            plain_piece(" "@ + path, true),
            plain_piece(Seq::empty(), true),
        ] + diffs_report(diffs@) + match exit_mismatch {
            Some((e, a)) => exit_report(e, a),
            None => Seq::empty(),
        },
    }
}

fn piece(style: Style, text: String, newline: bool) -> (r: Piece)
    ensures
        r.style == style,
        r.text@ == text@,
        r.newline == newline,
{
    Piece { style, text, newline }
}

/// Appends the pieces of `more` to `r`.
fn append_pieces(r: &mut Vec<Piece>, more: Vec<Piece>)
    ensures
        pieces_view(final(r)@) == pieces_view(old(r)@) + pieces_view(more@),
{
    let mut more = more;
    let ghost a = old(r)@;
    let ghost b = more@;
    r.append(&mut more);
    assert(pieces_view(r@) =~= pieces_view(a) + pieces_view(b));
}

/// The report of a stream whose expected output was `expected` and actual
/// output `actual`.
pub fn stream_report_pieces(stream: &str, expected: &str, actual: &str) -> (r: Vec<Piece>)
    ensures
        pieces_view(r@) == stream_report(stream@, expected@, actual@),
{
    let mut r: Vec<Piece> = Vec::new();
    r.push(piece(Style::Plain, String::from_str("  ").concat(stream).concat(":"), true));
    assert(pieces_view(r@) =~= seq![plain_piece("  "@ + stream@ + ":"@, true)]);
    append_pieces(&mut r, diff_pieces(expected, actual));
    let ghost mid = pieces_view(r@);
    r.push(piece(Style::Plain, String::new(), true));
    assert(pieces_view(r@) =~= mid.push(plain_piece(Seq::empty(), true)));
    assert(pieces_view(r@) =~= stream_report(stream@, expected@, actual@));
    r
}

/// The report of an exit code `actual` where `expected` was expected.
pub fn exit_report_pieces(expected: i32, actual: i32) -> (r: Vec<Piece>)
    ensures
        pieces_view(r@) == exit_report(expected, actual),
{
    let mut r: Vec<Piece> = Vec::new();
    r.push(piece(Style::Plain, String::from_str("  exit code: "), false));
    r.push(piece(Style::Red, string_from_chars(i32_to_decimal(expected).as_slice()), false));
    r.push(piece(Style::Plain, String::from_str(" \u{2192} "), false));
    r.push(piece(Style::Green, string_from_chars(i32_to_decimal(actual).as_slice()), true));
    r.push(piece(Style::Plain, String::new(), true));
    assert(pieces_view(r@) =~= exit_report(expected, actual));
    r
}

/// The report of the outcome of the test at `path`.
pub fn outcome_pieces(path: &str, outcome: &TestOutcome) -> (r: Vec<Piece>)
    ensures
        pieces_view(r@) == outcome_report(path@, *outcome),
{
    let mut r: Vec<Piece> = Vec::new();
    match outcome {
        TestOutcome::Pass => {},
        TestOutcome::Updated => {
            r.push(piece(Style::Plain, String::from_str("updated ").concat(path), true));
        },
        TestOutcome::Fail { diffs, exit_mismatch, .. } => {
            r.push(piece(Style::Plain, String::new(), true));
            r.push(piece(Style::Alert, String::from_str("FAIL"), false));
            r.push(piece(Style::Plain, String::from_str(" ").concat(path), true));
            r.push(piece(Style::Plain, String::new(), true));
            let ghost head = pieces_view(r@);
            let mut i: usize = 0;
            while i < diffs.len()
                invariant
                    0 <= i <= diffs@.len(),
                    pieces_view(r@) == head + diffs_report(diffs@.take(i as int)),
                decreases diffs@.len() - i,
            {
                let d = &diffs[i];
                assert(diffs@.take(i + 1).drop_last() =~= diffs@.take(i as int));
                assert(diffs@.take(i + 1).last() == *d);
                append_pieces(
                    &mut r,
                    stream_report_pieces(d.stream, d.expected.as_str(), d.actual.as_str()),
                );
                i += 1;
            }
            assert(diffs@.take(diffs@.len() as int) =~= diffs@);
            match exit_mismatch {
                Some((e, a)) => append_pieces(&mut r, exit_report_pieces(*e, *a)),
                None => {},
            }
        },
    }
    assert(pieces_view(r@) =~= outcome_report(path@, *outcome));
    r
}


/// The header line that opens the report of a stream.
pub open spec fn stream_header(stream: Seq<char>) -> (Style, Seq<char>, bool) {
    plain_piece("  "@ + stream + ":"@, true)
}

/// The reports of several diffs are the reports of each, in order: the
/// report of two lists of diffs is the report of the first followed by that
/// of the second, and the report of one diff is its stream report.
pub proof fn diffs_reported_in_order(a: Seq<Diff>, b: Seq<Diff>, d: Diff)
    ensures
        diffs_report(a + b) == diffs_report(a) + diffs_report(b),
        diffs_report(seq![d]) == stream_report(d.stream@, d.expected@, d.actual@),
    decreases b.len(),
{
    assert(seq![d].drop_last() =~= Seq::<Diff>::empty());
    assert(seq![d].last() == d);
    assert(diffs_report(Seq::<Diff>::empty()) == Seq::<(Style, Seq<char>, bool)>::empty());
    assert(Seq::<(Style, Seq<char>, bool)>::empty() + stream_report(d.stream@, d.expected@, d.actual@)
        =~= stream_report(d.stream@, d.expected@, d.actual@));
    if b.len() == 0 {
        assert(a + b =~= a);
        assert(diffs_report(a) + Seq::<(Style, Seq<char>, bool)>::empty() =~= diffs_report(a));
    } else {
        diffs_reported_in_order(a, b.drop_last(), d);
        assert((a + b).drop_last() =~= a + b.drop_last());
        assert((a + b).last() == b.last());
        assert(diffs_report(a) + diffs_report(b.drop_last()) + stream_report(
            b.last().stream@,
            b.last().expected@,
            b.last().actual@,
        ) =~= diffs_report(a) + (diffs_report(b.drop_last()) + stream_report(
            b.last().stream@,
            b.last().expected@,
            b.last().actual@,
        )));
    }
}

/// The report of a failure names every stream that did not match: for
/// each diff it holds, in order, the header of that diff's stream, after
/// the `FAIL` line.
pub proof fn failure_reports_every_diff(
    path: Seq<char>,
    p: String,
    diffs: Vec<Diff>,
    em: Option<(i32, i32)>,
    i: int,
)
    requires
        0 <= i < diffs@.len(),
    ensures
        ({
            let r = outcome_report(path, TestOutcome::Fail { path: p, diffs, exit_mismatch: em });
            let k = 4 + diffs_report(diffs@.take(i)).len() as int;
            &&& r[1] == (Style::Alert, "FAIL"@, false)
            &&& k < r.len()
            &&& r[k] == stream_header(diffs@[i].stream@)
            &&& forall|j: int| 0 <= j < i ==> diffs_report(diffs@.take(j)).len() < diffs_report(
                diffs@.take(i),
            ).len()
        }),
{
    let ds = diffs@;
    let d = ds[i];
    diffs_reported_in_order(ds.take(i), seq![d], d);
    diffs_reported_in_order(ds.take(i) + seq![d], ds.skip(i + 1), d);
    assert(ds.take(i) + seq![d] + ds.skip(i + 1) =~= ds);
    assert forall|j: int| 0 <= j < i implies diffs_report(ds.take(j)).len() < diffs_report(
        ds.take(i),
    ).len() by {
        diffs_reported_in_order(ds.take(j), ds.subrange(j, i), d);
        assert(ds.take(j) + ds.subrange(j, i) =~= ds.take(i));
        let dj = ds[j];
        diffs_reported_in_order(seq![dj], ds.subrange(j + 1, i), dj);
        assert(seq![dj] + ds.subrange(j + 1, i) =~= ds.subrange(j, i));
    }
}

} // verus!
