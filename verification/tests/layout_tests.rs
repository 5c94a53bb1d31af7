use totup::entry_data::EntryData;
use totup::histogram::{display_histogram, lineformat_entry};
use totup::layout::{grid, longest_of, stacked, tallest_of};

fn lines(texts: &[&str]) -> Vec<String> {
    texts.iter().map(|t| t.to_string()).collect()
}

fn table(path: &str, terms: &[(&str, u64)]) -> EntryData {
    let mut entry = EntryData::new(path);
    for (term, count) in terms {
        for _ in 0..*count {
            entry.inc_term(term);
        }
    }
    entry
}

#[test]
fn panel_has_a_header_and_one_line_for_each_row() {
    let entry = table("dir/file.txt", &[("cat", 2), ("bird", 1)]);
    let rows = entry.sorted_term_counts();
    let panel = lineformat_entry("dir/file.txt", &rows, 10);
    assert_eq!(
        panel,
        lines(&["dir/file.txt ", "██████████ 2 cat", "█████      1 bird"])
    );
}

#[test]
fn panel_header_keeps_the_end_of_a_long_path() {
    let entry = table("p", &[("cat", 2)]);
    let rows = entry.sorted_term_counts();
    let panel = lineformat_entry("a/very/long/path/to/some/file.txt", &rows, 10);
    assert_eq!(panel[1], "██████████ 2 cat");
    assert_eq!(panel[0], "to/some/file.txt ");
    assert_eq!(panel[0].chars().count(), panel[1].chars().count() + 1);
}

#[test]
fn panel_is_cut_to_the_limit() {
    let entry = table("p", &[("cat", 3), ("dog", 2), ("bird", 1)]);
    let rows = entry.sorted_term_counts();
    assert_eq!(lineformat_entry("p", &rows, 0), lines(&["p "]));
    assert_eq!(lineformat_entry("p", &rows, 1), lines(&["p ", "██████████ 3 cat"]));
    assert_eq!(lineformat_entry("p", &rows, 2).len(), 3);
    assert_eq!(lineformat_entry("p", &rows, 7).len(), 4);
}

#[test]
fn panel_of_no_rows_is_the_header_with_the_whole_path() {
    let rows = Vec::new();
    assert_eq!(lineformat_entry("p", &rows, 5), lines(&["p "]));
    assert_eq!(lineformat_entry("some/path", &rows, 5), lines(&["some/path "]));
    assert_eq!(
        lineformat_entry("a/very/long/path/to/some/file.txt", &rows, 5),
        lines(&["a/very/long/path/to/some/file.txt "])
    );
    let entry = table("q", &[("cat", 1)]);
    let ranked = entry.sorted_term_counts();
    assert_eq!(
        lineformat_entry("a/very/long/path/to/some/file.txt", &ranked, 0),
        lines(&["a/very/long/path/to/some/file.txt "])
    );
}

#[test]
fn histogram_of_given_rows() {
    let entry = table("p", &[("cat", 4), ("dog", 1)]);
    let rows = entry.sorted_term_counts();
    assert_eq!(
        display_histogram("x/y", &rows, 40),
        "x/y:\n██████████ 4 cat\n██▌        1 dog\n"
    );
    assert_eq!(display_histogram("x/y", &rows, 2), "x/y:\n██████████ 4 cat\n");
    assert_eq!(display_histogram("x/y", &rows, 0), "");
}

#[test]
fn longest_and_tallest_measure_the_panels() {
    let panels = vec![lines(&["ab", "abcd"]), lines(&["█████", "", "x"]), Vec::new()];
    assert_eq!(longest_of(&panels), 5);
    assert_eq!(tallest_of(&panels), 3);
    assert_eq!(longest_of(&Vec::new()), 0);
    assert_eq!(tallest_of(&Vec::new()), 0);
}

#[test]
fn stacked_prints_every_line_of_every_panel() {
    let panels = vec![lines(&["one ", "1"]), lines(&["two "])];
    assert_eq!(stacked(&panels), "one \n1\ntwo \n");
    assert_eq!(stacked(&Vec::new()), "");
}

#[test]
fn four_panels_of_twenty_on_eighty_stand_in_one_row() {
    let wide = "x".repeat(20);
    let panels = vec![
        lines(&["north ", &wide]),
        lines(&["east ", "b"]),
        lines(&["south ", "c"]),
        lines(&["west ", "d"]),
    ];
    let text = grid(&panels, 80);
    let pad = |s: &str| format!("{:20}", s);
    let expected = format!(
        "{}{}{}{}\n{}{}{}{}\n",
        pad("north "),
        pad("east "),
        pad("south "),
        pad("west "),
        wide,
        pad("b"),
        pad("c"),
        pad("d")
    );
    assert_eq!(text, expected);
    assert_eq!(text.lines().count(), 2);
    assert!(text.lines().all(|line| line.chars().count() == 80));
}

#[test]
fn a_line_of_forty_five_on_eighty_falls_back_to_stacked() {
    let wide = "y".repeat(45);
    let panels = vec![lines(&["north ", &wide]), lines(&["east ", "b"])];
    assert_eq!(grid(&panels, 80), format!("north \n{}\neast \nb\n", wide));
    assert_eq!(grid(&panels, 80), stacked(&panels));
}

#[test]
fn a_line_of_exactly_half_the_width_still_makes_a_grid() {
    let half = "z".repeat(40);
    let panels = vec![lines(&[&half]), lines(&["b"])];
    assert_eq!(grid(&panels, 80), format!("{}{:40}\n", half, "b"));
    assert_eq!(grid(&panels, 81), format!("{}{:40}\n", half, "b"));
    assert_eq!(grid(&panels, 79), format!("{}\nb\n", half));
}

#[test]
fn grid_wraps_rows_and_skips_absent_cells() {
    let panels = vec![
        lines(&["aaaa", "1"]),
        lines(&["bbbb", "2", "22"]),
        lines(&["cccc"]),
    ];
    let text = grid(&panels, 9);
    assert_eq!(text, "aaaabbbb\n1   2   \n22  \ncccc\n");
}

#[test]
fn grid_counts_characters_not_bytes() {
    let panels = vec![lines(&["██", "█"]), lines(&["ab"])];
    assert_eq!(grid(&panels, 4), "██ab\n█ \n");
}

#[test]
fn grid_of_nothing_is_empty() {
    assert_eq!(grid(&Vec::new(), 80), "");
    let blank = vec![lines(&["", ""])];
    assert_eq!(grid(&blank, 80), "\n\n");
}

#[test]
fn grid_on_a_terminal_without_width_stacks() {
    let panels = vec![lines(&["a ", "x"])];
    assert_eq!(grid(&panels, 0), "a \nx\n");
    assert_eq!(grid(&panels, 3), "a \nx\n");
    assert_eq!(grid(&panels, 4), "a \nx \n");
}
