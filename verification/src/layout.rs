//! Composing panels: one below the other, or packed into a grid that fits the
//! terminal's width.

use vstd::prelude::*;
use crate::histogram::{lines_view, max_len};

verus! {

/// The texts of a vector of panels.
pub open spec fn panels_view(panels: Seq<Vec<String>>) -> Seq<Seq<Seq<char>>> {
    Seq::new(panels.len(), |i: int| lines_view(panels[i]@))
}

/// The length of the longest line of all panels.
pub open spec fn longest_line(panels: Seq<Seq<Seq<char>>>) -> nat
    decreases panels.len(),
{
    if panels.len() == 0 {
        0
    } else {
        let rest = longest_line(panels.drop_last());
        if max_len(panels.last()) > rest {
            max_len(panels.last())
        } else {
            rest
        }
    }
}

/// The number of lines of the tallest panel.
pub open spec fn tallest(panels: Seq<Seq<Seq<char>>>) -> nat
    decreases panels.len(),
{
    if panels.len() == 0 {
        0
    } else {
        let rest = tallest(panels.drop_last());
        if panels.last().len() > rest {
            panels.last().len()
        } else {
            rest
        }
    }
}

/// `line`, filled with blanks on the right up to `width` characters.
pub open spec fn padded(line: Seq<char>, width: nat) -> Seq<char> {
    if line.len() < width {
        line + Seq::new((width - line.len()) as nat, |i: int| ' ')
    } else {
        line
    }
}

/// Panel `index` has a line `line`.
pub open spec fn cell_present(panels: Seq<Seq<Seq<char>>>, index: int, line: int) -> bool {
    0 <= index < panels.len() && 0 <= line < panels[index].len()
}

/// One cell of the grid: the padded line, nothing where it is absent.
pub open spec fn cell_text(panels: Seq<Seq<Seq<char>>>, longest: nat, index: int, line: int) -> Seq<
    char,
> {
    if cell_present(panels, index, line) {
        padded(panels[index][line], longest)
    } else {
        Seq::empty()
    }
}

/// Line `line` of the first `upto` panels from panel `first` on, side by side.
pub open spec fn strip_cells(
    panels: Seq<Seq<Seq<char>>>,
    longest: nat,
    first: int,
    line: int,
    upto: nat,
) -> Seq<char>
    decreases upto,
{
    if upto == 0 {
        Seq::empty()
    } else {
        strip_cells(panels, longest, first, line, (upto - 1) as nat) + cell_text(
            panels,
            longest,
            first + upto - 1,
            line,
        )
    }
}

/// One of the first `upto` panels from panel `first` on has a line `line`.
pub open spec fn strip_present(panels: Seq<Seq<Seq<char>>>, first: int, line: int, upto: nat) -> bool
    decreases upto,
{
    upto > 0 && (strip_present(panels, first, line, (upto - 1) as nat) || cell_present(
        panels,
        first + upto - 1,
        line,
    ))
}

/// One printed line of a grid row; nothing, not even a line feed, where every
/// cell is absent.
pub open spec fn strip_text(
    panels: Seq<Seq<Seq<char>>>,
    longest: nat,
    first: int,
    line: int,
    cols: nat,
) -> Seq<char> {
    if strip_present(panels, first, line, cols) {
        strip_cells(panels, longest, first, line, cols) + seq!['\n']
    } else {
        Seq::empty()
    }
}

/// The first `upto` lines of the grid row that starts at panel `first`.
pub open spec fn band_text(
    panels: Seq<Seq<Seq<char>>>,
    longest: nat,
    first: int,
    cols: nat,
    upto: nat,
) -> Seq<char>
    decreases upto,
{
    if upto == 0 {
        Seq::empty()
    } else {
        band_text(panels, longest, first, cols, (upto - 1) as nat) + strip_text(
            panels,
            longest,
            first,
            upto - 1,
            cols,
        )
    }
}

/// The first `upto` grid rows, `cols` panels to a row, row-major.
pub open spec fn bands_text(
    panels: Seq<Seq<Seq<char>>>,
    longest: nat,
    cols: nat,
    upto: nat,
) -> Seq<char>
    decreases upto,
{
    if upto == 0 {
        Seq::empty()
    } else {
        bands_text(panels, longest, cols, (upto - 1) as nat) + band_text(
            panels,
            longest,
            (upto - 1) * cols,
            cols,
            tallest(panels),
        )
    }
}

/// The first `upto` lines of a panel, each closed by a line feed.
pub open spec fn lines_text(lines: Seq<Seq<char>>, upto: nat) -> Seq<char>
    decreases upto,
{
    if upto == 0 {
        Seq::empty()
    } else {
        lines_text(lines, (upto - 1) as nat) + lines[upto - 1] + seq!['\n']
    }
}

/// The first `upto` panels one below the other.
pub open spec fn stacked_text(panels: Seq<Seq<Seq<char>>>, upto: nat) -> Seq<char>
    decreases upto,
{
    if upto == 0 {
        Seq::empty()
    } else {
        stacked_text(panels, (upto - 1) as nat) + lines_text(
            panels[upto - 1],
            panels[upto - 1].len(),
        )
    }
}

/// The panels do not fit side by side: the longest line takes more than half
/// of the width (or there is nothing to measure).
pub open spec fn falls_back(longest: nat, width: nat) -> bool {
    longest == 0 || longest > width / 2
}

/// How many panels stand side by side.
pub open spec fn grid_columns(longest: nat, width: nat) -> nat
    recommends
        longest > 0,
{
    width / longest
}

/// How many grid rows `count` panels take, `cols` to a row.
pub open spec fn grid_rows(count: nat, cols: nat) -> nat
    recommends
        cols > 0,
{
    if count % cols == 0 {
        count / cols
    } else {
        count / cols + 1
    }
}

/// The grid layout of `panels` on a terminal of `width` characters.
pub open spec fn grid_text(panels: Seq<Seq<Seq<char>>>, width: nat) -> Seq<char> {
    let longest = longest_line(panels);
    if falls_back(longest, width) {
        stacked_text(panels, panels.len())
    } else {
        bands_text(
            panels,
            longest,
            grid_columns(longest, width),
            grid_rows(panels.len(), grid_columns(longest, width)),
        )
    }
}

/// Where no cell is present the cells side by side are empty.
pub proof fn lemma_absent_strip(
    panels: Seq<Seq<Seq<char>>>,
    longest: nat,
    first: int,
    line: int,
    upto: nat,
)
    requires
        !strip_present(panels, first, line, upto),
    ensures
        strip_cells(panels, longest, first, line, upto) == Seq::<char>::empty(),
    decreases upto,
{
    if upto > 0 {
        lemma_absent_strip(panels, longest, first, line, (upto - 1) as nat);
    }
}

/// The length of the longest of `lines`.
fn longest_of_lines(lines: &Vec<String>) -> (longest: usize)
    ensures
        longest == max_len(lines_view(lines@)),
{
    let ghost view = lines_view(lines@);
    let mut longest: usize = 0;
    let mut i: usize = 0;
    while i < lines.len()
        invariant
            i <= lines@.len(),
            view == lines_view(lines@),
            longest == max_len(view.take(i as int)),
        decreases lines@.len() - i,
    {
        let chars = lines[i].as_str().unicode_len();
        proof {
            assert(view.take(i + 1).drop_last() =~= view.take(i as int));
        }
        if chars > longest {
            longest = chars;
        }
        i += 1;
    }
    proof {
        assert(view.take(i as int) =~= view);
    }
    longest
}

/// The length of the longest line of all panels.
pub fn longest_of(panels: &Vec<Vec<String>>) -> (longest: usize)
    ensures
        longest == longest_line(panels_view(panels@)),
{
    let ghost view = panels_view(panels@);
    let mut longest: usize = 0;
    let mut i: usize = 0;
    while i < panels.len()
        invariant
            i <= panels@.len(),
            view == panels_view(panels@),
            longest == longest_line(view.take(i as int)),
        decreases panels@.len() - i,
    {
        let here = longest_of_lines(&panels[i]);
        proof {
            assert(view.take(i + 1).drop_last() =~= view.take(i as int));
        }
        if here > longest {
            longest = here;
        }
        i += 1;
    }
    proof {
        assert(view.take(i as int) =~= view);
    }
    longest
}

/// The number of lines of the tallest panel.
pub fn tallest_of(panels: &Vec<Vec<String>>) -> (lines: usize)
    ensures
        lines == tallest(panels_view(panels@)),
{
    let ghost view = panels_view(panels@);
    let mut lines: usize = 0;
    let mut i: usize = 0;
    while i < panels.len()
        invariant
            i <= panels@.len(),
            view == panels_view(panels@),
            lines == tallest(view.take(i as int)),
        decreases panels@.len() - i,
    {
        let here = panels[i].len();
        proof {
            assert(view.take(i + 1).drop_last() =~= view.take(i as int));
        }
        if here > lines {
            lines = here;
        }
        i += 1;
    }
    proof {
        assert(view.take(i as int) =~= view);
    }
    lines
}

/// Appends `line` and then blanks up to `width` characters.
fn push_padded(out: &mut String, line: &str, width: usize)
    ensures
        final(out)@ == old(out)@ + padded(line@, width as nat),
{
    out.append(line);
    let chars = line.unicode_len();
    if chars < width {
        let fill: usize = width - chars;
        let mut i: usize = 0;
        while i < fill
            invariant
                i <= fill,
                out@ == old(out)@ + line@ + Seq::new(i as nat, |k: int| ' '),
            decreases fill - i,
        {
            out.push(' ');
            i += 1;
            assert(out@ =~= old(out)@ + line@ + Seq::new(i as nat, |k: int| ' '));
        }
        assert(out@ =~= old(out)@ + padded(line@, width as nat));
    }
}

/// The panels one below the other, every line closed by a line feed.
pub fn stacked(panels: &Vec<Vec<String>>) -> (text: String)
    ensures
        text@ == stacked_text(panels_view(panels@), panels@.len() as nat),
{
    let ghost view = panels_view(panels@);
    let mut text = String::new();
    let mut i: usize = 0;
    while i < panels.len()
        invariant
            i <= panels@.len(),
            view == panels_view(panels@),
            text@ == stacked_text(view, i as nat),
        decreases panels@.len() - i,
    {
        let lines = &panels[i];
        let ghost done = text@;
        let mut k: usize = 0;
        while k < lines.len()
            invariant
                k <= lines@.len(),
                i < panels@.len(),
                view == panels_view(panels@),
                *lines == panels@[i as int],
                text@ == done + lines_text(view[i as int], k as nat),
            decreases lines@.len() - k,
        {
            text.append(lines[k].as_str());
            text.push('\n');
            k += 1;
            assert(text@ =~= done + lines_text(view[i as int], k as nat));
        }
        i += 1;
    }
    text
}

/// Packs the panels into a grid: as many columns as the longest line allows,
/// row-major, every cell padded to the longest line. Falls back to stacking
/// where the longest line takes more than half of the width.
pub fn grid(panels: &Vec<Vec<String>>, width: usize) -> (text: String)
    ensures
        text@ == grid_text(panels_view(panels@), width as nat),
{
    let ghost view = panels_view(panels@);
    let longest = longest_of(panels);
    if longest == 0 || longest > width / 2 {
        return stacked(panels);
    }
    assert(width / longest >= 1) by (nonlinear_arith)
        requires
            longest > 0,
            longest <= width / 2,
    ;
    let cols: usize = width / longest;
    let count = panels.len();
    let whole: usize = count / cols;
    let rows: usize = if count % cols == 0 {
        whole
    } else {
        assert(whole < count) by (nonlinear_arith)
            requires
                whole == count / cols,
                count % cols != 0,
                cols > 0,
        ;
        whole + 1
    };
    let tall = tallest_of(panels);
    let mut text = String::new();
    let mut row: usize = 0;
    while row < rows
        invariant
            row <= rows,
            cols > 0,
            count == panels@.len(),
            view == panels_view(panels@),
            tall == tallest(view),
            text@ == bands_text(view, longest as nat, cols as nat, row as nat),
        decreases rows - row,
    {
        let ghost above = text@;
        assert((row as int) * (cols as int) <= 0xffff_ffff_ffff_ffff * 0xffff_ffff_ffff_ffff)
            by (nonlinear_arith)
            requires
                0 <= row as int <= 0xffff_ffff_ffff_ffff,
                0 <= cols as int <= 0xffff_ffff_ffff_ffff,
        ;
        let first: u128 = (row as u128) * (cols as u128);
        let mut line: usize = 0;
        while line < tall
            invariant
                line <= tall,
                cols > 0,
                count == panels@.len(),
                view == panels_view(panels@),
                first == row * cols,
                first <= 0xffff_ffff_ffff_ffff * 0xffff_ffff_ffff_ffff,
                text@ == above + band_text(
                    view,
                    longest as nat,
                    first as int,
                    cols as nat,
                    line as nat,
                ),
            decreases tall - line,
        {
            let ghost before = text@;
            let mut present = false;
            let mut col: usize = 0;
            while col < cols
                invariant
                    col <= cols,
                    count == panels@.len(),
                    view == panels_view(panels@),
                    first <= 0xffff_ffff_ffff_ffff * 0xffff_ffff_ffff_ffff,
                    present == strip_present(view, first as int, line as int, col as nat),
                    text@ == before + strip_cells(
                        view,
                        longest as nat,
                        first as int,
                        line as int,
                        col as nat,
                    ),
                decreases cols - col,
            {
                let index: u128 = first + (col as u128);
                if index < count as u128 {
                    let lines = &panels[index as usize];
                    if line < lines.len() {
                        push_padded(&mut text, lines[line].as_str(), longest);
                        present = true;
                    }
                }
                col += 1;
                proof {
                    assert(first + col - 1 == index);
                    assert(text@ =~= before + strip_cells(
                        view,
                        longest as nat,
                        first as int,
                        line as int,
                        col as nat,
                    ));
                }
            }
            if present {
                text.push('\n');
            }
            line += 1;
            proof {
                if !present {
                    lemma_absent_strip(
                        view,
                        longest as nat,
                        first as int,
                        line - 1,
                        cols as nat,
                    );
                }
                assert(text@ =~= above + band_text(
                    view,
                    longest as nat,
                    first as int,
                    cols as nat,
                    line as nat,
                ));
            }
        }
        row += 1;
    }
    text
}

} // verus!
