//! The report: the tables of the configured roots as stacked histograms, as
//! one bordered table row, or as a grid of panels.

use vstd::prelude::*;
use prettytable::format::{FormatBuilder, LinePosition, LineSeparator};
use prettytable::{Cell, Row, Table};
use crate::entry_data::{holds_index, ranking_of, EntryData, EntryView, TermCount};
use crate::histogram::{histogram_text, lines_view, lineformat_entry, panel_lines};
use crate::layout::{grid, grid_text, panels_view};
use crate::plain::{is_plain, plain};
use crate::session_data::{borrowed_view, root_tables, SessionData};
use crate::sorted::lemma_sorted_unique;

verus! {

/// The text of a table of one row with the given cells, as `prettytable`
/// prints it: `side` on both sides, `left` and `right` blanks of padding in
/// every cell, and a line above the row, below the titles and below the row,
/// each drawn with its four characters (line, junction, left end, right end).
pub uninterp spec fn table_text(
    cells: Seq<Seq<char>>,
    side: char,
    left: usize,
    right: usize,
    top: Seq<char>,
    title: Seq<char>,
    bottom: Seq<char>,
) -> Seq<char>;

/// None of the cells holds an escape character.
pub open spec fn all_plain(cells: Seq<Seq<char>>) -> bool {
    forall|i: int| 0 <= i < cells.len() ==> is_plain(#[trigger] cells[i])
}

/// `prettytable::Table`: one row of `cells` under a format built from the
/// arguments, written out with `to_string`. Trusted: the text is the named
/// one, a function of the cells and the format alone. Cells with an escape
/// character are left out, because the crate's measuring of a line's width
/// can fail on what follows one; the paddings are kept small, because the
/// crate adds them to a column's width unchecked.
#[verifier::external_body]
pub(crate) fn prettytable(
    cells: &Vec<String>,
    side: char,
    left: usize,
    right: usize,
    top: &[char; 4],
    title: &[char; 4],
    bottom: &[char; 4],
) -> (text: String)
    requires
        all_plain(lines_view(cells@)),
        left <= 0xffff,
        right <= 0xffff,
    ensures
        text@ == table_text(lines_view(cells@), side, left, right, top@, title@, bottom@),
{
    let format = FormatBuilder::new()
        .borders(side)
        .padding(left, right)
        .separators(&[LinePosition::Title], LineSeparator::new(title[0], title[1], title[2], title[3]))
        .separators(&[LinePosition::Top], LineSeparator::new(top[0], top[1], top[2], top[3]))
        .separators(&[LinePosition::Bottom], LineSeparator::new(bottom[0], bottom[1], bottom[2], bottom[3]))
        .build();
    let mut table = Table::new();
    table.set_format(format);
    table.add_row(Row::new(cells.iter().map(|cell| Cell::new(cell)).collect()));
    table.to_string()
}

/// The tabular layout of `cells`: light box drawing, one blank of padding.
pub open spec fn framed_text(cells: Seq<Seq<char>>) -> Seq<char> {
    table_text(
        cells,
        '\u{2502}',
        1,
        1,
        seq!['\u{2500}', '\u{2500}', '\u{250C}', '\u{2510}'],
        seq!['\u{2500}', '\u{2500}', '\u{251C}', '\u{2524}'],
        seq!['\u{2500}', '\u{2500}', '\u{2514}', '\u{2518}'],
    )
}

/// The cells as the columns of one table row, framed in light box drawing
/// with one blank of padding. The cells hold no escape character.
pub fn framed(cells: &Vec<String>) -> (text: String)
    requires
        all_plain(lines_view(cells@)),
    ensures
        text@ == framed_text(lines_view(cells@)),
{
    let top: [char; 4] = ['\u{2500}', '\u{2500}', '\u{250C}', '\u{2510}'];
    let title: [char; 4] = ['\u{2500}', '\u{2500}', '\u{251C}', '\u{2524}'];
    let bottom: [char; 4] = ['\u{2500}', '\u{2500}', '\u{2514}', '\u{2518}'];
    assert(top@ =~= seq!['\u{2500}', '\u{2500}', '\u{250C}', '\u{2510}']);
    assert(title@ =~= seq!['\u{2500}', '\u{2500}', '\u{251C}', '\u{2524}']);
    assert(bottom@ =~= seq!['\u{2500}', '\u{2500}', '\u{2514}', '\u{2518}']);
    prettytable(cells, '\u{2502}', 1, 1, &top, &title, &bottom)
}

/// How the report is laid out.
#[derive(Debug)]
pub enum DisplayStyle {
    /// One histogram below the other.
    Vert,
    /// The histograms side by side as the columns of one table.
    Hori,
    /// Panels packed into a grid.
    Grid,
}

/// The settings of a report: an optional cap on the rows and the layout.
#[derive(Debug)]
pub struct FormatSession {
    pub count: Option<usize>,
    pub style: DisplayStyle,
}

/// Panel `a` is shown before panel `b`: the one with more terms first, and
/// of two with as many the one that came first.
pub open spec fn shown_before(sizes: Seq<usize>, a: usize, b: usize) -> bool {
    sizes[a as int] > sizes[b as int] || (sizes[a as int] == sizes[b as int] && a < b)
}

/// `order` lists every panel once, denser panels first.
pub open spec fn is_panel_order(order: Seq<usize>, sizes: Seq<usize>) -> bool {
    &&& order.len() == sizes.len()
    &&& forall|p: int| 0 <= p < order.len() ==> #[trigger] order[p] < sizes.len()
    &&& forall|x: int| 0 <= x < sizes.len() ==> #[trigger] holds_index(order, x)
    &&& forall|p: int, q: int|
        0 <= p < q < order.len() ==> shown_before(sizes, #[trigger] order[p], #[trigger] order[q])
}

/// The order in which panels of the given sizes are shown.
pub open spec fn layout_order(sizes: Seq<usize>) -> Seq<usize> {
    choose|order: Seq<usize>| is_panel_order(order, sizes)
}

/// Panels of given sizes have at most one order.
pub proof fn lemma_panel_order_unique(a: Seq<usize>, b: Seq<usize>, sizes: Seq<usize>)
    requires
        is_panel_order(a, sizes),
        is_panel_order(b, sizes),
    ensures
        a == b,
        a == layout_order(sizes),
{
    let before = |x: usize, y: usize| shown_before(sizes, x, y);
    assert forall|x: usize, y: usize| !(#[trigger] before(x, y) && before(y, x)) by {}
    lemma_panel_order_within(a, b, sizes);
    lemma_panel_order_within(b, a, sizes);
    lemma_sorted_unique(a, b, before);
    let c = layout_order(sizes);
    lemma_panel_order_within(a, c, sizes);
    lemma_panel_order_within(c, a, sizes);
    lemma_sorted_unique(a, c, before);
}

/// Every index of one order of the panels occurs in any other.
pub proof fn lemma_panel_order_within(a: Seq<usize>, b: Seq<usize>, sizes: Seq<usize>)
    requires
        is_panel_order(a, sizes),
        is_panel_order(b, sizes),
    ensures
        crate::sorted::within(a, b),
{
    assert forall|i: int| 0 <= i < a.len() implies b.contains(#[trigger] a[i]) by {
        assert(holds_index(b, a[i] as int));
        let p = choose|p: int| 0 <= p < b.len() && #[trigger] b[p] == a[i] as int;
        assert(b[p] == a[i]);
    }
}

/// The rows that a panel shows: the ranking, cut to the cap where there is
/// one.
pub open spec fn shown_rows(counts: Map<Seq<char>, nat>, limit: Option<usize>) -> Seq<
    (Seq<char>, nat),
> {
    let ranked = ranking_of(counts);
    match limit {
        Some(c) => ranked.take(
            if c < ranked.len() {
                c as int
            } else {
                ranked.len() as int
            },
        ),
        None => ranked,
    }
}

/// The number of distinct terms of each entry.
pub open spec fn sizes_of(entries: Seq<EntryView>) -> Seq<usize> {
    Seq::new(entries.len(), |i: int| entries[i].counts.dom().len() as usize)
}

/// The order of the panels in the grid: as given under a cap, denser panels
/// first without one.
pub open spec fn grid_order(entries: Seq<EntryView>, limit: Option<usize>) -> Seq<usize> {
    match limit {
        Some(_) => Seq::new(entries.len(), |i: int| i as usize),
        None => layout_order(sizes_of(entries)),
    }
}

/// The panels of the grid in the order in which they are shown.
pub open spec fn grid_panels(entries: Seq<EntryView>, limit: Option<usize>) -> Seq<
    Seq<Seq<char>>,
> {
    let order = grid_order(entries, limit);
    Seq::new(
        order.len(),
        |p: int|
            panel_lines(
                entries[order[p] as int].path,
                shown_rows(entries[order[p] as int].counts, limit),
            ),
    )
}

/// The first `upto` cells one below the other, each followed by a line
/// feed.
pub open spec fn stacked_cells(cells: Seq<Seq<char>>, upto: nat) -> Seq<char>
    decreases upto,
{
    if upto == 0 {
        Seq::empty()
    } else {
        stacked_cells(cells, (upto - 1) as nat) + cells[upto - 1] + seq!['\n']
    }
}

/// The histogram of each entry, as the cells of one table row.
pub open spec fn histogram_cells(entries: Seq<EntryView>, height: nat) -> Seq<Seq<char>> {
    Seq::new(
        entries.len(),
        |i: int| histogram_text(entries[i].path, ranking_of(entries[i].counts), height),
    )
}

/// The report on the tables `entries` for a terminal of `width` by `height`
/// characters. The tabular layout is for histograms without an escape
/// character; where one holds such a character, the histograms are stacked.
pub open spec fn report_text(
    format: FormatSession,
    entries: Seq<EntryView>,
    width: nat,
    height: nat,
) -> Seq<char> {
    let lines = match format.count {
        Some(c) => c as nat,
        None => height,
    };
    let cells = histogram_cells(entries, lines);
    match format.style {
        DisplayStyle::Vert => stacked_cells(cells, cells.len()),
        DisplayStyle::Hori => if all_plain(cells) {
            framed_text(cells)
        } else {
            stacked_cells(cells, cells.len())
        },
        DisplayStyle::Grid => grid_text(grid_panels(entries, format.count), width),
    }
}

/// The order in which panels of the given sizes are shown: the one with more
/// terms first, and panels with as many in the order in which they came.
pub fn panel_order(sizes: &Vec<usize>) -> (order: Vec<usize>)
    ensures
        is_panel_order(order@, sizes@),
        order@ == layout_order(sizes@),
{
    let n = sizes.len();
    let mut order: Vec<usize> = Vec::new();
    let mut i: usize = 0;
    while i < n
        invariant
            n == sizes@.len(),
            i <= n,
            order@.len() == i,
            forall|p: int| 0 <= p < i ==> order@[p] == p,
        decreases n - i,
    {
        order.push(i);
        i += 1;
    }
    assert forall|x: int| 0 <= x < n implies #[trigger] holds_index(order@, x) by {
        assert(order@[x] == x);
    }
    i = 0;
    while i < n
        invariant
            n == sizes@.len(),
            i <= n,
            order@.len() == n,
            forall|p: int| 0 <= p < n ==> #[trigger] order@[p] < n,
            forall|x: int| 0 <= x < n ==> #[trigger] holds_index(order@, x),
            forall|p: int, q: int|
                0 <= p < i && p < q < n ==> shown_before(
                    sizes@,
                    #[trigger] order@[p],
                    #[trigger] order@[q],
                ),
            forall|p: int, q: int| 0 <= p < q < n ==> #[trigger] order@[p] != #[trigger] order@[q],
        decreases n - i,
    {
        let mut best: usize = i;
        let mut j: usize = i + 1;
        while j < n
            invariant
                n == sizes@.len(),
                i < n,
                i <= best < j <= n,
                order@.len() == n,
                forall|p: int| 0 <= p < n ==> #[trigger] order@[p] < n,
                forall|p: int, q: int|
                    0 <= p < q < n ==> #[trigger] order@[p] != #[trigger] order@[q],
                forall|q: int|
                    i <= q < j && q != best ==> shown_before(
                        sizes@,
                        order@[best as int],
                        #[trigger] order@[q],
                    ),
            decreases n - j,
        {
            let a = order[j];
            let b = order[best];
            assert(order@[j as int] != order@[best as int]);
            if sizes[a] > sizes[b] || (sizes[a] == sizes[b] && a < b) {
                best = j;
            }
            j += 1;
        }
        let ghost before = order@;
        let at_i = order[i];
        let at_best = order[best];
        order.set(i, at_best);
        order.set(best, at_i);
        proof {
            let after = order@;
            assert forall|x: int| 0 <= x < n implies #[trigger] holds_index(after, x) by {
                assert(holds_index(before, x));
                let p = choose|p: int| 0 <= p < n && #[trigger] before[p] == x;
                if p == i {
                    assert(after[best as int] == x);
                } else if p == best {
                    assert(after[i as int] == x);
                } else {
                    assert(after[p] == x);
                }
            }
            assert forall|p: int, q: int| 0 <= p < q < n implies #[trigger] after[p]
                != #[trigger] after[q] by {
                let pp = if p == i { best as int } else if p == best { i as int } else { p };
                let qq = if q == i { best as int } else if q == best { i as int } else { q };
                assert(after[p] == before[pp] && after[q] == before[qq]);
                if pp < qq {
                    assert(before[pp] != before[qq]);
                } else {
                    assert(before[qq] != before[pp]);
                }
            }
            assert forall|p: int, q: int| 0 <= p < i + 1 && p < q < n implies shown_before(
                sizes@,
                #[trigger] after[p],
                #[trigger] after[q],
            ) by {
                let qq = if q == i { best as int } else if q == best { i as int } else { q };
                assert(after[q] == before[qq]);
                if p < i {
                    assert(after[p] == before[p]);
                    assert(shown_before(sizes@, before[p], before[qq]));
                } else {
                    assert(after[p] == before[best as int]);
                    assert(qq != best);
                }
            }
        }
        i += 1;
    }
    proof {
        lemma_panel_order_unique(order@, order@, sizes@);
    }
    order
}

impl FormatSession {
    /// The stacked histogram of one entry, cut to `height` lines.
    pub fn display_histogram(&self, data: &EntryData, height: usize) -> (text: String)
        requires
            data.wf(),
        ensures
            text@ == histogram_text(data@.path, ranking_of(data@.counts), height as nat),
    {
        data.display_histogram(height)
    }

    /// The grid of the panels of `entries` for a terminal of `width`
    /// characters. Under a cap every panel shows at most that many rows and
    /// the panels keep their order; without one every panel shows all its
    /// rows and the panels with more terms come first.
    pub fn print_grid(&self, entries: &Vec<&EntryData>, width: usize) -> (text: String)
        requires
            forall|i: int| 0 <= i < entries@.len() ==> (#[trigger] entries@[i]).wf(),
        ensures
            text@ == grid_text(grid_panels(borrowed_view(entries@), self.count), width as nat),
    {
        let ghost views = borrowed_view(entries@);
        let n = entries.len();
        let mut ranked: Vec<Vec<TermCount>> = Vec::new();
        let mut sizes: Vec<usize> = Vec::new();
        let mut i: usize = 0;
        while i < n
            invariant
                n == entries@.len(),
                i <= n,
                views == borrowed_view(entries@),
                forall|k: int| 0 <= k < entries@.len() ==> (#[trigger] entries@[k]).wf(),
                ranked@.len() == i,
                sizes@.len() == i,
                forall|k: int|
                    0 <= k < i ==> crate::entry_data::rows_view((#[trigger] ranked@[k])@)
                        == ranking_of(views[k].counts),
                forall|k: int|
                    0 <= k < i ==> (#[trigger] ranked@[k])@.len() > 0 ==> ranked@[k]@[0].count > 0,
                forall|k: int| 0 <= k < i ==> #[trigger] sizes@[k] == sizes_of(views)[k],
            decreases n - i,
        {
            let rows = entries[i].sorted_term_counts();
            sizes.push(rows.len());
            ranked.push(rows);
            i += 1;
        }
        assert(sizes@ =~= sizes_of(views));
        let order = match self.count {
            Some(_) => {
                let mut plain: Vec<usize> = Vec::new();
                let mut k: usize = 0;
                while k < n
                    invariant
                        k <= n,
                        plain@.len() == k,
                        forall|p: int| 0 <= p < k ==> plain@[p] == p,
                    decreases n - k,
                {
                    plain.push(k);
                    k += 1;
                }
                plain
            },
            None => panel_order(&sizes),
        };
        assert(order@ =~= grid_order(views, self.count));
        let limit: usize = match self.count {
            Some(c) => c,
            None => usize::MAX,
        };
        let ghost want = grid_panels(views, self.count);
        let mut panels: Vec<Vec<String>> = Vec::new();
        i = 0;
        while i < n
            invariant
                n == entries@.len(),
                n == ranked@.len(),
                n == order@.len(),
                i <= n,
                views == borrowed_view(entries@),
                want == grid_panels(views, self.count),
                order@ == grid_order(views, self.count),
                limit == (match self.count {
                    Some(c) => c,
                    None => usize::MAX,
                }),
                forall|p: int| 0 <= p < n ==> #[trigger] order@[p] < n,
                forall|k: int|
                    0 <= k < n ==> crate::entry_data::rows_view((#[trigger] ranked@[k])@)
                        == ranking_of(views[k].counts),
                forall|k: int|
                    0 <= k < n ==> (#[trigger] ranked@[k])@.len() > 0 ==> ranked@[k]@[0].count > 0,
                panels@.len() == i,
                forall|p: int| 0 <= p < i ==> lines_view((#[trigger] panels@[p])@) == want[p],
            decreases n - i,
        {
            let at = order[i];
            let rows = &ranked[at];
            let lines = lineformat_entry(entries[at].path(), rows, limit);
            proof {
                let all = ranking_of(views[at as int].counts);
                assert(all.take(all.len() as int) =~= all);
                assert(lines_view(lines@) == want[i as int]);
            }
            panels.push(lines);
            i += 1;
        }
        assert(panels_view(panels@) =~= want);
        grid(&panels, width)
    }

    /// The histogram of each entry, cut to `height` lines.
    pub fn histograms(&self, entries: &Vec<&EntryData>, height: usize) -> (cells: Vec<String>)
        requires
            forall|i: int| 0 <= i < entries@.len() ==> (#[trigger] entries@[i]).wf(),
        ensures
            lines_view(cells@) == histogram_cells(borrowed_view(entries@), height as nat),
    {
        let ghost views = borrowed_view(entries@);
        let mut cells: Vec<String> = Vec::new();
        let mut i: usize = 0;
        while i < entries.len()
            invariant
                i <= entries@.len(),
                views == borrowed_view(entries@),
                forall|k: int| 0 <= k < entries@.len() ==> (#[trigger] entries@[k]).wf(),
                cells@.len() == i,
                forall|k: int|
                    0 <= k < i ==> (#[trigger] cells@[k])@ == histogram_cells(
                        views,
                        height as nat,
                    )[k],
            decreases entries@.len() - i,
        {
            cells.push(self.display_histogram(entries[i], height));
            i += 1;
        }
        assert(lines_view(cells@) =~= histogram_cells(views, height as nat));
        cells
    }

    /// The report on the tables of the configured roots, for a terminal of
    /// `size` characters, width first. A cap on the rows takes the place of
    /// the terminal's height. The tabular layout gives way to the stacked one
    /// where a histogram holds an escape character.
    pub fn render(&self, data: &SessionData, size: (usize, usize)) -> (text: String)
        requires
            data.wf(),
        ensures
            text@ == report_text(
                *self,
                root_tables(data@, data@.roots.len()),
                size.0 as nat,
                size.1 as nat,
            ),
    {
        let height: usize = match self.count {
            Some(c) => c,
            None => size.1,
        };
        let entries = data.root_entries();
        match self.style {
            DisplayStyle::Vert => {
                let cells = self.histograms(&entries, height);
                stack_cells(&cells)
            },
            DisplayStyle::Hori => {
                let cells = self.histograms(&entries, height);
                if cells_plain(&cells) {
                    framed(&cells)
                } else {
                    stack_cells(&cells)
                }
            },
            DisplayStyle::Grid => self.print_grid(&entries, size.0),
        }
    }
}

/// The size of the terminal in characters, width first: the detected one,
/// and 80 by 40 where none was detected.
pub fn terminal_size(detected: Option<(usize, usize)>) -> (size: (usize, usize))
    ensures
        size == (match detected {
            Some(found) => found,
            None => (80usize, 40usize),
        }),
{
    match detected {
        Some(found) => found,
        None => (80, 40),
    }
}

/// Whether none of the cells holds an escape character.
pub fn cells_plain(cells: &Vec<String>) -> (plain: bool)
    ensures
        plain == all_plain(lines_view(cells@)),
{
    let mut i: usize = 0;
    while i < cells.len()
        invariant
            i <= cells@.len(),
            forall|k: int| 0 <= k < i ==> is_plain(#[trigger] lines_view(cells@)[k]),
        decreases cells@.len() - i,
    {
        if !plain(cells[i].as_str()) {
            assert(!is_plain(lines_view(cells@)[i as int]));
            return false;
        }
        i += 1;
    }
    true
}

/// The cells one below the other, each followed by a line feed.
pub fn stack_cells(cells: &Vec<String>) -> (text: String)
    ensures
        text@ == stacked_cells(lines_view(cells@), cells@.len() as nat),
{
    let mut text = String::new();
    let mut i: usize = 0;
    while i < cells.len()
        invariant
            i <= cells@.len(),
            text@ == stacked_cells(lines_view(cells@), i as nat),
        decreases cells@.len() - i,
    {
        text.append(cells[i].as_str());
        text.push('\n');
        i += 1;
        assert(text@ =~= stacked_cells(lines_view(cells@), i as nat));
    }
    text
}

} // verus!
