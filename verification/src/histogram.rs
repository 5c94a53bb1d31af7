//! One entry as text: the stacked histogram and the panel of lines that the
//! layouts compose.

use vstd::prelude::*;
use crate::bars::{row_line, format_term_count};
use crate::entry_data::{rows_view, TermCount};

verus! {

/// The texts of a vector of lines.
pub open spec fn lines_view(lines: Seq<String>) -> Seq<Seq<char>> {
    Seq::new(lines.len(), |i: int| lines[i]@)
}

/// The length of the longest of `lines`, zero where there is none.
pub open spec fn max_len(lines: Seq<Seq<char>>) -> nat
    decreases lines.len(),
{
    if lines.len() == 0 {
        0
    } else {
        let rest = max_len(lines.drop_last());
        if lines.last().len() > rest {
            lines.last().len()
        } else {
            rest
        }
    }
}

/// The histogram rows of `rows`, each bar measured against the count of the
/// first row.
pub open spec fn row_lines(rows: Seq<(Seq<char>, nat)>) -> Seq<Seq<char>> {
    Seq::new(rows.len(), |i: int| row_line(rows[0].1, rows[i].0, rows[i].1))
}

/// A panel's header: the path and one blank. Where the panel has rows and
/// the path is longer than the longest of them, only the end of the path is
/// kept, as long as that row; a panel without rows keeps the whole path.
pub open spec fn header_line(path: Seq<char>, longest: nat) -> Seq<char> {
    (if 0 < longest < path.len() {
        path.skip(path.len() - longest)
    } else {
        path
    }).push(' ')
}

/// A panel: the header and one line for each row.
pub open spec fn panel_lines(path: Seq<char>, rows: Seq<(Seq<char>, nat)>) -> Seq<Seq<char>> {
    seq![header_line(path, max_len(row_lines(rows)))] + row_lines(rows)
}

/// The first `upto` histogram rows, each closed by a line feed.
pub open spec fn rows_block(rows: Seq<(Seq<char>, nat)>, upto: nat) -> Seq<char>
    decreases upto,
{
    if upto == 0 {
        Seq::empty()
    } else {
        rows_block(rows, (upto - 1) as nat) + row_line(
            rows[0].1,
            rows[upto - 1].0,
            rows[upto - 1].1,
        ) + seq!['\n']
    }
}

/// The stacked histogram of at most `height` lines: the path with a colon,
/// then the rows.
pub open spec fn histogram_text(path: Seq<char>, rows: Seq<(Seq<char>, nat)>, height: nat) -> Seq<
    char,
> {
    if height == 0 {
        Seq::empty()
    } else {
        path + seq![':', '\n'] + rows_block(
            rows,
            if height - 1 < rows.len() {
                (height - 1) as nat
            } else {
                rows.len()
            },
        )
    }
}

/// The panel of `path` with the first `limit` of the rows `terms`.
pub fn lineformat_entry(path: &str, terms: &Vec<TermCount>, limit: usize) -> (lines: Vec<String>)
    requires
        terms@.len() > 0 ==> terms@[0].count > 0,
    ensures
        lines_view(lines@) == panel_lines(
            path@,
            rows_view(terms@).take(
                if limit < terms@.len() {
                    limit as int
                } else {
                    terms@.len() as int
                },
            ),
        ),
{
    let shown: usize = if limit < terms.len() {
        limit
    } else {
        terms.len()
    };
    let ghost rows = rows_view(terms@).take(shown as int);
    let mut lines: Vec<String> = Vec::new();
    lines.push(String::new());
    let mut longest: usize = 0;
    let mut i: usize = 0;
    while i < shown
        invariant
            i <= shown <= terms@.len(),
            terms@.len() > 0 ==> terms@[0].count > 0,
            rows == rows_view(terms@).take(shown as int),
            lines@.len() == i + 1,
            forall|k: int| 0 <= k < i ==> (#[trigger] lines@[k + 1])@ == row_lines(rows)[k],
            longest == max_len(row_lines(rows).take(i as int)),
        decreases shown - i,
    {
        let row = &terms[i];
        let line = format_term_count(terms[0].count, row.text(), row.count);
        let chars = line.as_str().unicode_len();
        proof {
            let done = row_lines(rows).take(i + 1);
            assert(done.drop_last() =~= row_lines(rows).take(i as int));
            assert(done.last() == line@);
        }
        if chars > longest {
            longest = chars;
        }
        lines.push(line);
        i += 1;
    }
    proof {
        assert(row_lines(rows).take(shown as int) =~= row_lines(rows));
    }
    let chars = path.unicode_len();
    let from: usize = if 0 < longest && longest < chars {
        chars - longest
    } else {
        0
    };
    let mut header = String::from_str(path.substring_char(from, chars));
    header.push(' ');
    proof {
        assert(path@.subrange(from as int, chars as int) =~= path@.skip(from as int));
        assert(path@.skip(0) =~= path@);
    }
    let ghost body = lines@;
    lines.set(0, header);
    proof {
        let want = panel_lines(path@, rows);
        assert(header@ =~= header_line(path@, longest as nat));
        assert(lines_view(lines@).len() == want.len());
        assert forall|j: int| 0 <= j < want.len() implies lines_view(lines@)[j] == want[j] by {
            if j > 0 {
                assert(lines@[j] == body[(j - 1) + 1]);
            }
        }
        assert(lines_view(lines@) =~= want);
    }
    lines
}

/// The stacked histogram of `path` with the rows `terms`, cut to `height`
/// lines.
pub fn display_histogram(path: &str, terms: &Vec<TermCount>, height: usize) -> (text: String)
    requires
        terms@.len() > 0 ==> terms@[0].count > 0,
    ensures
        text@ == histogram_text(path@, rows_view(terms@), height as nat),
{
    let mut text = String::new();
    if height == 0 {
        return text;
    }
    text.append(path);
    text.push(':');
    text.push('\n');
    let shown: usize = if height - 1 < terms.len() {
        height - 1
    } else {
        terms.len()
    };
    let ghost rows = rows_view(terms@);
    let ghost head = path@ + seq![':', '\n'];
    assert(text@ =~= head + rows_block(rows, 0));
    let mut i: usize = 0;
    while i < shown
        invariant
            i <= shown <= terms@.len(),
            terms@.len() > 0 ==> terms@[0].count > 0,
            rows == rows_view(terms@),
            text@ == head + rows_block(rows, i as nat),
        decreases shown - i,
    {
        let row = &terms[i];
        let line = format_term_count(terms[0].count, row.text(), row.count);
        text.append(line.as_str());
        text.push('\n');
        i += 1;
        assert(text@ =~= head + rows_block(rows, i as nat));
    }
    text
}

} // verus!
