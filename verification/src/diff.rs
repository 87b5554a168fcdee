//! The lines of a unified diff between expected and actual output.

use vstd::prelude::*;

use crate::text::chars_of;

verus! {

/// What a line of a diff is.
#[derive(Debug, Clone, Copy, PartialEq, Eq, Structural)]
pub enum LineChange {
    Delete,
    Insert,
    Equal,
}

/// How a piece of report output is shown.
#[derive(Debug, Clone, Copy, PartialEq, Eq, Structural)]
pub enum Style {
    Plain,
    Alert,
    Dimmed,
    Red,
    Green,
}

/// A piece of report output: its text, how it is shown, and whether a line
/// break follows it.
#[derive(Debug)]
pub struct Piece {
    pub style: Style,
    pub text: String,
    pub newline: bool,
}

/// What `similar::TextDiff::from_lines(old, new).grouped_ops(context)` gives,
/// each group flattened into its line changes (with their line endings).
pub uninterp spec fn line_diff_groups(old: Seq<char>, new: Seq<char>, context: usize) -> Seq<
    Seq<(LineChange, Seq<char>)>,
>;

pub open spec fn group_view(g: Seq<(LineChange, String)>) -> Seq<(LineChange, Seq<char>)> {
    g.map_values(|c: (LineChange, String)| (c.0, c.1@))
}

pub open spec fn groups_view(v: Seq<Vec<(LineChange, String)>>) -> Seq<Seq<(LineChange, Seq<char>)>> {
    v.map_values(|g: Vec<(LineChange, String)>| group_view(g@))
}

/// The line diff of `old` and `new` by `similar::TextDiff::from_lines` (Myers
/// algorithm, no deadline), cut into groups of changes with `context`
/// unchanged lines around them by `grouped_ops`, which doubles `context`
/// (so it must not overflow). The result is named by `line_diff_groups`.
#[verifier::external_body]
fn grouped_line_changes(old: &str, new: &str, context: usize) -> (r: Vec<Vec<(LineChange, String)>>)
    requires
        context <= usize::MAX / 2,
    ensures
        groups_view(r@) == line_diff_groups(old@, new@, context),
{
    let diff = similar::TextDiff::from_lines(old, new);
    diff.grouped_ops(context).iter().map(|group| {
        group.iter().flat_map(|op| diff.iter_changes(op)).map(|c| (match c.tag() {
            similar::ChangeTag::Delete => LineChange::Delete,
            similar::ChangeTag::Insert => LineChange::Insert,
            similar::ChangeTag::Equal => LineChange::Equal,
        }, c.value().to_string())).collect()
    }).collect()
}

/// Whether `s` ends with a line break.
pub open spec fn ends_newline(s: Seq<char>) -> bool {
    s.len() > 0 && s.last() == '\n'
}

/// How one changed line is shown: marked by its kind, on a line of its own
/// (a line break follows it where its text does not end with one).
pub open spec fn change_piece(c: (LineChange, Seq<char>)) -> (Style, Seq<char>, bool) {
    match c.0 {
        LineChange::Delete => (Style::Red, "    - "@ + c.1, !ends_newline(c.1)),
        LineChange::Insert => (Style::Green, "    + "@ + c.1, !ends_newline(c.1)),
        LineChange::Equal => (Style::Dimmed, "      "@ + c.1, !ends_newline(c.1)),
    }
}

/// The diff output of `groups`: their changed lines, with a dimmed `...`
/// line between two groups.
pub open spec fn rendered(groups: Seq<Seq<(LineChange, Seq<char>)>>) -> Seq<(Style, Seq<char>, bool)>
    decreases groups.len(),
{
    if groups.len() == 0 {
        Seq::empty()
    } else {
        rendered(groups.drop_last()) + (if groups.len() > 1 {
            seq![(Style::Dimmed, "      ..."@, true)]
        } else {
            Seq::empty()
        }) + groups.last().map_values(|c: (LineChange, Seq<char>)| change_piece(c))
    }
}

pub open spec fn piece_view(p: Piece) -> (Style, Seq<char>, bool) {
    (p.style, p.text@, p.newline)
}

pub open spec fn pieces_view(v: Seq<Piece>) -> Seq<(Style, Seq<char>, bool)> {
    v.map_values(|p: Piece| piece_view(p))
}

fn render_change(c: &(LineChange, String)) -> (r: Piece)
    ensures
        piece_view(r) == change_piece((c.0, c.1@)),
{
    let cs = chars_of(c.1.as_str());
    let newline = !(cs.len() > 0 && cs[cs.len() - 1] == '\n');
    proof {
        if cs.len() > 0 {
            assert(cs@[cs.len() - 1] == cs@.last());
        }
    }
    match c.0 {
        LineChange::Delete => Piece {
            style: Style::Red,
            text: String::from_str("    - ").concat(c.1.as_str()),
            newline,
        },
        LineChange::Insert => Piece {
            style: Style::Green,
            text: String::from_str("    + ").concat(c.1.as_str()),
            newline,
        },
        LineChange::Equal => Piece {
            style: Style::Dimmed,
            text: String::from_str("      ").concat(c.1.as_str()),
            newline,
        },
    }
}

/// The diff output of `groups` of line changes.
pub fn render_diff(groups: &Vec<Vec<(LineChange, String)>>) -> (r: Vec<Piece>)
    ensures
        pieces_view(r@) == rendered(groups_view(groups@)),
{
    let mut r: Vec<Piece> = Vec::new();
    let mut i: usize = 0;
    while i < groups.len()
        invariant
            0 <= i <= groups@.len(),
            pieces_view(r@) == rendered(groups_view(groups@).take(i as int)),
        decreases groups@.len() - i,
    {
        let ghost before = pieces_view(r@);
        let ghost gv = groups_view(groups@);
        assert(gv.take(i + 1).drop_last() =~= gv.take(i as int));
        assert(gv.take(i + 1).last() == group_view(groups@[i as int]@));
        if i > 0 {
            r.push(Piece { style: Style::Dimmed, text: String::from_str("      ..."), newline: true });
        }
        let ghost mid = pieces_view(r@);
        assert(mid == before + if i > 0 {
            seq![(Style::Dimmed, "      ..."@, true)]
        } else {
            Seq::empty()
        });
        let g = &groups[i];
        let mut j: usize = 0;
        while j < g.len()
            invariant
                0 <= j <= g@.len(),
                g == groups@[i as int],
                pieces_view(r@) == mid + group_view(g@).take(j as int).map_values(
                    |c: (LineChange, Seq<char>)| change_piece(c),
                ),
            decreases g@.len() - j,
        {
            let p = render_change(&g[j]);
            let ghost pr = pieces_view(r@);
            r.push(p);
            assert(pieces_view(r@) =~= pr.push(piece_view(p)));
            j += 1;
            assert(group_view(g@).take(j as int).map_values(
                |c: (LineChange, Seq<char>)| change_piece(c),
            ) =~= group_view(g@).take(j - 1).map_values(
                |c: (LineChange, Seq<char>)| change_piece(c),
            ).push(change_piece((g@[j - 1].0, g@[j - 1].1@))));
        }
        assert(group_view(g@).take(g@.len() as int) =~= group_view(g@));
        i += 1;
        assert(pieces_view(r@) =~= rendered(groups_view(groups@).take(i as int)));
    }
    assert(groups_view(groups@).take(groups@.len() as int) =~= groups_view(groups@));
    r
}

/// The diff output between `expected` and `actual` output, with two lines
/// of context around each change.
pub fn diff_pieces(expected: &str, actual: &str) -> (r: Vec<Piece>)
    ensures
        pieces_view(r@) == rendered(line_diff_groups(expected@, actual@, 2)),
{
    let groups = grouped_line_changes(expected, actual, 2);
    render_diff(&groups)
}

} // verus!
