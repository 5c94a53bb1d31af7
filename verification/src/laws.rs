//! What holds of the library as a whole: merging, rollup, bars, rendering and
//! the walk to the root.

use vstd::prelude::*;
use crate::bars::{bar_text, cell_level, glyph, rounded_eighths};
use crate::entry_data::{merged, ranking_of, table_count, EntryView};
use crate::histogram::{histogram_text, max_len, panel_lines};
use crate::layout::{
    cell_present, cell_text, falls_back, grid_columns, grid_rows, longest_line, padded, strip_cells,
};
use crate::paths::{lemma_walk_shrinks, level_above, trimmed, walk, walk_from};
use crate::session_data::{
    distinct_keys, fits, lemma_rolled_elsewhere, rolled, rollup_of, table_at,
};

verus! {

/// Merging two tables gives the same table in either order.
pub proof fn lemma_merge_commutative(a: Map<Seq<char>, nat>, b: Map<Seq<char>, nat>)
    ensures
        merged(a, b) == merged(b, a),
{
    assert(merged(a, b) =~= merged(b, a));
}

/// Merging three tables gives the same table in either grouping.
pub proof fn lemma_merge_associative(
    a: Map<Seq<char>, nat>,
    b: Map<Seq<char>, nat>,
    c: Map<Seq<char>, nat>,
)
    ensures
        merged(merged(a, b), c) == merged(a, merged(b, c)),
{
    assert forall|t: Seq<char>| #[trigger]
        table_count(merged(a, b), t) == table_count(a, t) + table_count(b, t) by {}
    assert forall|t: Seq<char>| #[trigger]
        table_count(merged(b, c), t) == table_count(b, t) + table_count(c, t) by {}
    assert(merged(merged(a, b), c) =~= merged(a, merged(b, c)));
}

/// Merging counts every term of both tables, and nothing else.
pub proof fn lemma_merge_counts(a: Map<Seq<char>, nat>, b: Map<Seq<char>, nat>, t: Seq<char>)
    ensures
        table_count(merged(a, b), t) == table_count(a, t) + table_count(b, t),
{
}

/// A rollup along keys that are all different adds the counts exactly once
/// to the table of each key, and leaves every other table as it was.
pub proof fn lemma_rollup_adds_once(
    dirs: Map<Seq<char>, Map<Seq<char>, nat>>,
    keys: Seq<Seq<char>>,
    counts: Map<Seq<char>, nat>,
    key: Seq<char>,
)
    requires
        distinct_keys(keys),
    ensures
        keys.contains(key) ==> table_at(rolled(dirs, keys, counts), key) == merged(
            table_at(dirs, key),
            counts,
        ),
        !keys.contains(key) ==> table_at(rolled(dirs, keys, counts), key) == table_at(dirs, key),
    decreases keys.len(),
{
    if !keys.contains(key) {
        lemma_rolled_elsewhere(dirs, keys, counts, key);
    } else {
        let front = keys.drop_last();
        let at = choose|i: int| 0 <= i < keys.len() && keys[i] == key;
        assert forall|i: int, j: int| 0 <= i < j < front.len() implies #[trigger] front[i]
            != #[trigger] front[j] by {
            assert(front[i] == keys[i] && front[j] == keys[j]);
        }
        if keys.last() == key {
            assert forall|i: int| 0 <= i < front.len() implies front[i] != key by {
                assert(front[i] == keys[i]);
                assert(keys[i] != keys[keys.len() - 1]);
            }
            lemma_rolled_elsewhere(dirs, front, counts, key);
        } else {
            assert(front[at] == key);
            lemma_rollup_adds_once(dirs, front, counts, key);
        }
    }
}

/// A rollup has a table for every key that it touched and for every key that
/// had one before, and for no other.
pub proof fn lemma_rollup_keys(
    dirs: Map<Seq<char>, Map<Seq<char>, nat>>,
    keys: Seq<Seq<char>>,
    counts: Map<Seq<char>, nat>,
    key: Seq<char>,
)
    ensures
        rolled(dirs, keys, counts).contains_key(key) == (dirs.contains_key(key) || keys.contains(
            key,
        )),
    decreases keys.len(),
{
    if keys.len() > 0 {
        let front = keys.drop_last();
        lemma_rollup_keys(dirs, front, counts, key);
        if front.contains(key) {
            let i = choose|i: int| 0 <= i < front.len() && front[i] == key;
            assert(keys[i] == key);
        }
        if keys.contains(key) && keys.last() != key {
            let i = choose|i: int| 0 <= i < keys.len() && keys[i] == key;
            assert(front[i] == key);
        }
        if keys.last() == key {
            assert(keys[keys.len() - 1] == key);
        }
    }
}

/// Two rollups give the same tables in either order: it does not matter
/// which of two files is finished first.
pub proof fn lemma_rollup_commutes(
    dirs: Map<Seq<char>, Map<Seq<char>, nat>>,
    keys_a: Seq<Seq<char>>,
    counts_a: Map<Seq<char>, nat>,
    keys_b: Seq<Seq<char>>,
    counts_b: Map<Seq<char>, nat>,
)
    requires
        distinct_keys(keys_a),
        distinct_keys(keys_b),
    ensures
        rolled(rolled(dirs, keys_a, counts_a), keys_b, counts_b) == rolled(
            rolled(dirs, keys_b, counts_b),
            keys_a,
            counts_a,
        ),
{
    let first_a = rolled(dirs, keys_a, counts_a);
    let first_b = rolled(dirs, keys_b, counts_b);
    let left = rolled(first_a, keys_b, counts_b);
    let right = rolled(first_b, keys_a, counts_a);
    assert forall|key: Seq<char>| left.contains_key(key) == right.contains_key(key) by {
        lemma_rollup_keys(dirs, keys_a, counts_a, key);
        lemma_rollup_keys(dirs, keys_b, counts_b, key);
        lemma_rollup_keys(first_a, keys_b, counts_b, key);
        lemma_rollup_keys(first_b, keys_a, counts_a, key);
    }
    assert forall|key: Seq<char>| table_at(left, key) == table_at(right, key) by {
        lemma_rollup_adds_once(dirs, keys_a, counts_a, key);
        lemma_rollup_adds_once(dirs, keys_b, counts_b, key);
        lemma_rollup_adds_once(first_a, keys_b, counts_b, key);
        lemma_rollup_adds_once(first_b, keys_a, counts_a, key);
        let before = table_at(dirs, key);
        lemma_merge_associative(before, counts_a, counts_b);
        lemma_merge_associative(before, counts_b, counts_a);
        lemma_merge_commutative(counts_a, counts_b);
    }
    assert forall|key: Seq<char>| left.contains_key(key) implies left[key] == right[key] by {
        assert(table_at(left, key) == table_at(right, key));
    }
    assert(left =~= right);
}

/// Where two rollups stay within `u64` one after the other, they do so in the
/// other order too: whether two files can be recorded does not depend on
/// which of them is finished first.
pub proof fn lemma_fits_either_order(
    dirs: Map<Seq<char>, Map<Seq<char>, nat>>,
    keys_a: Seq<Seq<char>>,
    counts_a: Map<Seq<char>, nat>,
    keys_b: Seq<Seq<char>>,
    counts_b: Map<Seq<char>, nat>,
)
    requires
        distinct_keys(keys_a),
        distinct_keys(keys_b),
        fits(dirs, keys_a, counts_a),
        fits(rolled(dirs, keys_a, counts_a), keys_b, counts_b),
    ensures
        fits(dirs, keys_b, counts_b),
        fits(rolled(dirs, keys_b, counts_b), keys_a, counts_a),
{
    let after_a = rolled(dirs, keys_a, counts_a);
    let after_b = rolled(dirs, keys_b, counts_b);
    assert forall|i: int, t: Seq<char>| 0 <= i < keys_b.len() implies #[trigger] table_count(
        table_at(dirs, keys_b[i]),
        t,
    ) + table_count(counts_b, t) <= u64::MAX by {
        lemma_rollup_adds_once(dirs, keys_a, counts_a, keys_b[i]);
        assert(table_count(table_at(after_a, keys_b[i]), t) + table_count(counts_b, t)
            <= u64::MAX);
    }
    assert forall|j: int, t: Seq<char>| 0 <= j < keys_a.len() implies #[trigger] table_count(
        table_at(after_b, keys_a[j]),
        t,
    ) + table_count(counts_a, t) <= u64::MAX by {
        let key = keys_a[j];
        lemma_rollup_adds_once(dirs, keys_b, counts_b, key);
        lemma_rollup_adds_once(dirs, keys_a, counts_a, key);
        assert(table_count(table_at(dirs, key), t) + table_count(counts_a, t) <= u64::MAX);
        if keys_b.contains(key) {
            let i = choose|i: int| 0 <= i < keys_b.len() && keys_b[i] == key;
            assert(table_count(table_at(after_a, keys_b[i]), t) + table_count(counts_b, t)
                <= u64::MAX);
        }
    }
}

/// Two entries that can be recorded one after the other can be recorded in
/// the other order too, and the tables are the same either way.
pub proof fn lemma_records_in_either_order(
    dirs: Map<Seq<char>, Map<Seq<char>, nat>>,
    roots: Seq<Seq<char>>,
    a: EntryView,
    b: EntryView,
)
    requires
        fits(dirs, walk(roots, a.path), a.counts),
        fits(rolled(dirs, walk(roots, a.path), a.counts), walk(roots, b.path), b.counts),
    ensures
        fits(dirs, walk(roots, b.path), b.counts),
        fits(rolled(dirs, walk(roots, b.path), b.counts), walk(roots, a.path), a.counts),
        rolled(rolled(dirs, walk(roots, a.path), a.counts), walk(roots, b.path), b.counts)
            == rolled(
            rolled(dirs, walk(roots, b.path), b.counts),
            walk(roots, a.path),
            a.counts,
        ),
{
    lemma_walk_distinct(roots, a.path);
    lemma_walk_distinct(roots, b.path);
    lemma_fits_either_order(dirs, walk(roots, a.path), a.counts, walk(roots, b.path), b.counts);
    lemma_rollup_commutes(dirs, walk(roots, a.path), a.counts, walk(roots, b.path), b.counts);
}

/// The tables of a store do not depend on which of the last two entries was
/// finished first.
pub proof fn lemma_record_order(
    roots: Seq<Seq<char>>,
    entries: Seq<EntryView>,
    a: EntryView,
    b: EntryView,
)
    ensures
        rollup_of(roots, entries.push(a).push(b)) == rollup_of(roots, entries.push(b).push(a)),
        entries.push(a).push(b).to_multiset() == entries.push(b).push(a).to_multiset(),
{
    vstd::seq_lib::to_multiset_build(entries, a);
    vstd::seq_lib::to_multiset_build(entries, b);
    vstd::seq_lib::to_multiset_build(entries.push(a), b);
    vstd::seq_lib::to_multiset_build(entries.push(b), a);
    assert(entries.push(a).push(b).to_multiset() =~= entries.push(b).push(a).to_multiset());
    let base = rollup_of(roots, entries);
    assert(entries.push(a).push(b).drop_last() =~= entries.push(a));
    assert(entries.push(b).push(a).drop_last() =~= entries.push(b));
    assert(entries.push(a).drop_last() =~= entries);
    assert(entries.push(b).drop_last() =~= entries);
    assert(rollup_of(roots, entries.push(a)) == rolled(base, walk(roots, a.path), a.counts));
    assert(rollup_of(roots, entries.push(b)) == rolled(base, walk(roots, b.path), b.counts));
    assert(rollup_of(roots, entries.push(a).push(b)) == rolled(
        rollup_of(roots, entries.push(a)),
        walk(roots, b.path),
        b.counts,
    ));
    assert(rollup_of(roots, entries.push(b).push(a)) == rolled(
        rollup_of(roots, entries.push(b)),
        walk(roots, a.path),
        a.counts,
    ));
    lemma_walk_distinct(roots, a.path);
    lemma_walk_distinct(roots, b.path);
    lemma_rollup_commutes(base, walk(roots, a.path), a.counts, walk(roots, b.path), b.counts);
}

/// The sum of the counts of `term` over the entries whose walk passes
/// through `dir`: the finished files at or below it, as far as `dir` is not
/// above their root.
pub open spec fn summed(
    roots: Seq<Seq<char>>,
    entries: Seq<EntryView>,
    dir: Seq<char>,
    term: Seq<char>,
) -> nat
    decreases entries.len(),
{
    if entries.len() == 0 {
        0
    } else {
        summed(roots, entries.drop_last(), dir, term) + (if walk(
            roots,
            entries.last().path,
        ).contains(dir) {
            table_count(entries.last().counts, term)
        } else {
            0
        })
    }
}

/// The table of a directory holds for every term the sum of its counts over
/// the finished files below the directory: each file counted once.
pub proof fn lemma_rollup_is_sum(
    roots: Seq<Seq<char>>,
    entries: Seq<EntryView>,
    dir: Seq<char>,
    term: Seq<char>,
)
    ensures
        table_count(table_at(rollup_of(roots, entries), dir), term) == summed(
            roots,
            entries,
            dir,
            term,
        ),
    decreases entries.len(),
{
    if entries.len() > 0 {
        let last = entries.last();
        lemma_rollup_is_sum(roots, entries.drop_last(), dir, term);
        lemma_walk_distinct(roots, last.path);
        lemma_rollup_adds_once(
            rollup_of(roots, entries.drop_last()),
            walk(roots, last.path),
            last.counts,
            dir,
        );
    }
}

/// Recording an entry adds its counts once to the table of its own path and
/// of each ancestor on its walk, creates those tables where they are missing,
/// and leaves every other key as it was: no table above the root is made or
/// changed.
pub proof fn lemma_record_touches_its_walk(
    dirs: Map<Seq<char>, Map<Seq<char>, nat>>,
    roots: Seq<Seq<char>>,
    path: Seq<char>,
    counts: Map<Seq<char>, nat>,
    key: Seq<char>,
)
    ensures
        walk(roots, path).contains(key) ==> rolled(dirs, walk(roots, path), counts).contains_key(
            key,
        ) && rolled(dirs, walk(roots, path), counts)[key] == merged(table_at(dirs, key), counts),
        !walk(roots, path).contains(key) ==> rolled(
            dirs,
            walk(roots, path),
            counts,
        ).contains_key(key) == dirs.contains_key(key) && table_at(
            rolled(dirs, walk(roots, path), counts),
            key,
        ) == table_at(dirs, key),
{
    lemma_walk_distinct(roots, path);
    lemma_rollup_adds_once(dirs, walk(roots, path), counts, key);
    lemma_rollup_keys(dirs, walk(roots, path), counts, key);
}

/// The keys of a walk are all different, so that one record adds an entry
/// once to each directory above it.
pub proof fn lemma_walk_distinct(roots: Seq<Seq<char>>, path: Seq<char>)
    ensures
        distinct_keys(walk(roots, path)),
{
    lemma_walk_shrinks(roots, trimmed(path));
}

/// The bar of nothing is empty: `width` blank cells.
pub proof fn lemma_bar_empty(denom: nat, width: nat)
    requires
        denom > 0,
    ensures
        bar_text(0, denom, width) == Seq::new(width, |i: int| ' '),
{
    assert(rounded_eighths(0, denom, width) == 0) by (nonlinear_arith)
        requires
            denom > 0,
    ;
    assert(bar_text(0, denom, width) =~= Seq::new(width, |i: int| ' '));
}

/// The bar of the whole is full: `width` filled cells.
pub proof fn lemma_bar_full(denom: nat, width: nat)
    requires
        denom > 0,
    ensures
        bar_text(denom, denom, width) == Seq::new(width, |i: int| '\u{2588}'),
{
    assert(rounded_eighths(denom, denom, width) == 8 * width) by (nonlinear_arith)
        requires
            denom > 0,
    ;
    assert(bar_text(denom, denom, width) =~= Seq::new(width, |i: int| '\u{2588}'));
}

/// A bar is full cells, then at most one partly filled cell, then empty
/// cells: a cell that is not full has only empty cells to its right, and the
/// fills add up to the rounded total, as far as the cells hold it.
pub proof fn lemma_bar_shape(total: nat, i: nat, j: nat)
    requires
        i < j,
    ensures
        cell_level(total, i) <= 8,
        cell_level(total, i) < 8 ==> cell_level(total, j) == 0,
        cell_level(total, j) > 0 ==> cell_level(total, i) == 8,
{
}

/// The eighths that the first `upto` cells of a bar hold together.
pub open spec fn fill_sum(total: nat, upto: nat) -> nat
    decreases upto,
{
    if upto == 0 {
        0
    } else {
        fill_sum(total, (upto - 1) as nat) + cell_level(total, (upto - 1) as nat)
    }
}

/// The cells of a bar hold the rounded total between them, or are all full
/// where the total is more than they can hold.
pub proof fn lemma_bar_fill(total: nat, width: nat)
    ensures
        fill_sum(total, width) == (if total <= 8 * width {
            total
        } else {
            8 * width
        }),
    decreases width,
{
    if width > 0 {
        lemma_bar_fill(total, (width - 1) as nat);
    }
}

/// The fill level that a glyph stands for.
pub open spec fn level_of(c: char) -> nat {
    if c == glyph(8) {
        8
    } else if c == glyph(7) {
        7
    } else if c == glyph(6) {
        6
    } else if c == glyph(5) {
        5
    } else if c == glyph(4) {
        4
    } else if c == glyph(3) {
        3
    } else if c == glyph(2) {
        2
    } else if c == glyph(1) {
        1
    } else {
        0
    }
}

/// The first `upto` characters of a bar stand for this many eighths.
pub open spec fn levels_sum(bar: Seq<char>, upto: nat) -> nat
    decreases upto,
{
    if upto == 0 {
        0
    } else {
        levels_sum(bar, (upto - 1) as nat) + level_of(bar[upto - 1])
    }
}

/// Every cell of a bar shows the level that falls to it, and the levels of a
/// bar add up to the fraction in eighths, rounded, or to the whole bar where
/// the fraction is more than one.
pub proof fn lemma_bar_levels(numer: nat, denom: nat, width: nat)
    requires
        denom > 0,
    ensures
        bar_text(numer, denom, width).len() == width,
        forall|i: int|
            0 <= i < width ==> level_of(#[trigger] bar_text(numer, denom, width)[i]) == cell_level(
                rounded_eighths(numer, denom, width),
                i as nat,
            ),
        levels_sum(bar_text(numer, denom, width), width) == (if rounded_eighths(
            numer,
            denom,
            width,
        ) <= 8 * width {
            rounded_eighths(numer, denom, width)
        } else {
            8 * width
        }),
{
    let total = rounded_eighths(numer, denom, width);
    let bar = bar_text(numer, denom, width);
    assert forall|i: int| 0 <= i < width implies level_of(#[trigger] bar[i]) == cell_level(
        total,
        i as nat,
    ) by {
        assert(bar[i] == glyph(cell_level(total, i as nat)));
    }
    lemma_levels_are_fills(bar, total, width, width);
    lemma_bar_fill(total, width);
}

/// Where every character shows the level of its cell, the levels add up as
/// the fills do.
proof fn lemma_levels_are_fills(bar: Seq<char>, total: nat, width: nat, upto: nat)
    requires
        upto <= width,
        bar.len() == width,
        forall|i: int| 0 <= i < width ==> level_of(#[trigger] bar[i]) == cell_level(total, i as nat),
    ensures
        levels_sum(bar, upto) == fill_sum(total, upto),
    decreases upto,
{
    if upto > 0 {
        lemma_levels_are_fills(bar, total, width, (upto - 1) as nat);
    }
}

/// A panel without rows is its header alone, and the header holds the whole
/// path.
pub proof fn lemma_panel_without_rows(path: Seq<char>)
    ensures
        panel_lines(path, Seq::empty()) == seq![path.push(' ')],
{
    let rows = Seq::<(Seq<char>, nat)>::empty();
    assert(crate::histogram::row_lines(rows) =~= Seq::<Seq<char>>::empty());
    assert(panel_lines(path, rows) =~= seq![path.push(' ')]);
}

/// No line of a panel is longer than the longest line of all panels.
pub proof fn lemma_line_within(panels: Seq<Seq<Seq<char>>>, index: int, line: int)
    requires
        cell_present(panels, index, line),
    ensures
        panels[index][line].len() <= longest_line(panels),
    decreases panels.len(),
{
    if index == panels.len() - 1 {
        lemma_max_len_bounds(panels[index], line);
    } else {
        lemma_line_within(panels.drop_last(), index, line);
    }
}

/// No line is longer than the longest of its lines.
proof fn lemma_max_len_bounds(lines: Seq<Seq<char>>, line: int)
    requires
        0 <= line < lines.len(),
    ensures
        lines[line].len() <= max_len(lines),
    decreases lines.len(),
{
    if line < lines.len() - 1 {
        lemma_max_len_bounds(lines.drop_last(), line);
    }
}

/// Panel `index` stands in grid row `index / cols` at column `index % cols`,
/// and each cell that is present there is exactly as wide as the longest
/// line: the line itself, then blanks.
pub proof fn lemma_grid_cell(panels: Seq<Seq<Seq<char>>>, cols: nat, index: int, line: int)
    requires
        cols > 0,
        cell_present(panels, index, line),
    ensures
        0 <= index % (cols as int) < cols,
        (index / (cols as int)) * cols + index % (cols as int) == index,
        cell_text(panels, longest_line(panels), index, line).len() == longest_line(panels),
        cell_text(panels, longest_line(panels), index, line).take(
            panels[index][line].len() as int,
        ) == panels[index][line],
{
    vstd::arithmetic::div_mod::lemma_fundamental_div_mod(index, cols as int);
    assert((index / (cols as int)) * cols == cols * (index / (cols as int))) by (nonlinear_arith);
    lemma_line_within(panels, index, line);
    let cell = cell_text(panels, longest_line(panels), index, line);
    assert(cell == padded(panels[index][line], longest_line(panels)));
    assert(cell.take(panels[index][line].len() as int) =~= panels[index][line]);
}

/// A printed line of the grid is never wider than its cells together: at
/// most `cols` times the longest line, which fits the terminal.
pub proof fn lemma_strip_width(panels: Seq<Seq<Seq<char>>>, first: int, line: int, upto: nat)
    ensures
        strip_cells(panels, longest_line(panels), first, line, upto).len() <= upto * longest_line(
            panels,
        ),
    decreases upto,
{
    let longest = longest_line(panels);
    if upto > 0 {
        lemma_strip_width(panels, first, line, (upto - 1) as nat);
        if cell_present(panels, first + upto - 1, line) {
            lemma_line_within(panels, first + upto - 1, line);
        }
        assert(upto * longest == (upto - 1) * longest + longest) by (nonlinear_arith);
    } else {
        assert(0 * longest == 0) by (nonlinear_arith);
    }
}

/// Where the panels are packed into a grid, at least two stand side by side,
/// a row of them fits the width, and the rows are just enough to hold every
/// panel.
pub proof fn lemma_grid_fits(longest: nat, width: nat, count: nat)
    requires
        !falls_back(longest, width),
    ensures
        grid_columns(longest, width) >= 2,
        grid_columns(longest, width) * longest <= width,
        grid_rows(count, grid_columns(longest, width)) * grid_columns(longest, width) >= count,
        count > 0 ==> (grid_rows(count, grid_columns(longest, width)) - 1) * grid_columns(
            longest,
            width,
        ) < count,
{
    let cols = grid_columns(longest, width);
    assert(cols >= 2 && cols * longest <= width) by (nonlinear_arith)
        requires
            longest > 0,
            longest <= width / 2,
            cols == width / longest,
    ;
    let rows = grid_rows(count, cols);
    assert(rows * cols >= count && (count > 0 ==> (rows - 1) * cols < count)) by (nonlinear_arith)
        requires
            cols >= 2,
            rows == (if count % cols == 0 {
                count / cols
            } else {
                count / cols + 1
            }),
    ;
}

/// Two entries with the same path and the same table give the same
/// histogram, whatever order their terms were counted in.
pub proof fn lemma_histogram_repeatable(a: EntryView, b: EntryView, height: nat)
    requires
        a.path == b.path,
        a.counts == b.counts,
    ensures
        histogram_text(a.path, ranking_of(a.counts), height) == histogram_text(
            b.path,
            ranking_of(b.counts),
            height,
        ),
{
}

/// The path `steps` levels above the trimmed path `current`, where there is
/// one.
pub open spec fn climb(current: Seq<char>, steps: nat) -> Option<Seq<char>>
    decreases steps,
{
    if steps == 0 {
        Some(current)
    } else {
        match level_above(current) {
            Some(next) => climb(next, (steps - 1) as nat),
            None => None,
        }
    }
}

/// From a path that lies `depth` levels below a configured root the walk
/// visits the path itself and at most `depth` ancestors, each of them one of
/// the levels from the path up to that root: it never goes above the root.
pub proof fn lemma_walk_bounded(roots: Seq<Seq<char>>, current: Seq<char>, depth: nat)
    requires
        climb(current, depth) is Some,
        roots.contains(climb(current, depth)->0),
    ensures
        1 <= walk_from(roots, current).len() <= depth + 1,
        forall|i: int|
            0 <= i < walk_from(roots, current).len() ==> climb(current, i as nat) == Some(
                #[trigger] walk_from(roots, current)[i],
            ),
    decreases depth,
{
    if !roots.contains(current) {
        let next = level_above(current)->0;
        let rest = walk_from(roots, next);
        lemma_walk_bounded(roots, next, (depth - 1) as nat);
        let keys = walk_from(roots, current);
        assert forall|i: int| 0 <= i < keys.len() implies climb(current, i as nat) == Some(
            #[trigger] keys[i],
        ) by {
            if i > 0 {
                assert(keys[i] == rest[i - 1]);
                assert(climb(current, i as nat) == climb(next, (i - 1) as nat));
            }
        }
    }
}

/// From a path that lies exactly `depth` levels below its nearest configured
/// root the walk visits the path and its `depth` ancestors up to that root,
/// and nothing else.
pub proof fn lemma_walk_exact(roots: Seq<Seq<char>>, current: Seq<char>, depth: nat)
    requires
        climb(current, depth) is Some,
        roots.contains(climb(current, depth)->0),
        forall|i: nat| i < depth ==> !roots.contains((#[trigger] climb(current, i))->0),
    ensures
        walk_from(roots, current).len() == depth + 1,
        forall|i: int|
            0 <= i <= depth ==> climb(current, i as nat) == Some(
                #[trigger] walk_from(roots, current)[i],
            ),
    decreases depth,
{
    lemma_walk_bounded(roots, current, depth);
    if depth > 0 {
        assert(climb(current, 0) == Some(current));
        assert(!roots.contains(climb(current, 0)->0));
        let next = level_above(current)->0;
        assert forall|i: nat| i < depth - 1 implies !roots.contains(
            (#[trigger] climb(next, i))->0,
        ) by {
            assert(climb(current, i + 1) == climb(next, i));
        }
        lemma_walk_exact(roots, next, (depth - 1) as nat);
    }
}

} // verus!
