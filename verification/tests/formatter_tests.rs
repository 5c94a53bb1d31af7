use totup::entry_data::EntryData;
use totup::formatter::{
    cells_plain, framed, panel_order, stack_cells, terminal_size, DisplayStyle, FormatSession,
};
use totup::plain::plain;
use totup::session_data::SessionData;

fn table(path: &str, terms: &[(&str, u64)]) -> EntryData {
    let mut entry = EntryData::new(path);
    for (term, count) in terms {
        for _ in 0..*count {
            entry.inc_term(term);
        }
    }
    entry
}

fn strings(texts: &[&str]) -> Vec<String> {
    texts.iter().map(|t| t.to_string()).collect()
}

fn session() -> SessionData {
    let mut session = SessionData::new(&strings(&["a", "b"]));
    session.insert_entry_data(table("a/x", &[("cat", 2)]));
    session.insert_entry_data(table("b/y", &[("dog", 4), ("bird", 1), ("ant", 4)]));
    session
}

#[test]
fn panel_order_puts_denser_panels_first_and_keeps_ties_in_place() {
    assert_eq!(panel_order(&vec![1, 3, 2, 3, 0]), vec![1, 3, 2, 0, 4]);
    assert_eq!(panel_order(&vec![2, 2, 2]), vec![0, 1, 2]);
    assert_eq!(panel_order(&vec![0, 1, 2, 3]), vec![3, 2, 1, 0]);
    assert_eq!(panel_order(&Vec::new()), Vec::<usize>::new());
}

#[test]
fn stacked_report_prints_one_histogram_below_the_other() {
    let format = FormatSession { count: None, style: DisplayStyle::Vert };
    let text = format.render(&session(), (80, 40));
    assert_eq!(
        text,
        "a:\n██████████ 2 cat\n\nb:\n██████████ 4 ant\n██████████ 4 dog\n██▌        1 bird\n\n"
    );
}

#[test]
fn stacked_report_is_cut_to_the_terminal_height_or_the_cap() {
    let by_height = FormatSession { count: None, style: DisplayStyle::Vert };
    assert_eq!(
        by_height.render(&session(), (80, 2)),
        "a:\n██████████ 2 cat\n\nb:\n██████████ 4 ant\n\n"
    );
    let capped = FormatSession { count: Some(1), style: DisplayStyle::Vert };
    assert_eq!(capped.render(&session(), (80, 40)), "a:\n\nb:\n\n");
}

#[test]
fn report_of_an_empty_session_has_no_body() {
    let empty = SessionData::new(&strings(&["a"]));
    let stacked = FormatSession { count: None, style: DisplayStyle::Vert };
    assert_eq!(stacked.render(&empty, (80, 40)), "");
    let grid = FormatSession { count: None, style: DisplayStyle::Grid };
    assert_eq!(grid.render(&empty, (80, 40)), "");
}

#[test]
fn grid_report_shows_denser_panels_first_without_a_cap() {
    let format = FormatSession { count: None, style: DisplayStyle::Grid };
    let text = format.render(&session(), (80, 40));
    let expected = format!(
        "{:17}{:17}\n{:17}{:17}\n{:17}\n{:17}\n",
        "b ",
        "a ",
        "██████████ 4 ant",
        "██████████ 2 cat",
        "██████████ 4 dog",
        "██▌        1 bird"
    );
    assert_eq!(text, expected);
}

#[test]
fn grid_report_keeps_the_order_and_cuts_the_rows_under_a_cap() {
    let format = FormatSession { count: Some(1), style: DisplayStyle::Grid };
    let text = format.render(&session(), (80, 40));
    let expected = format!(
        "{:16}{:16}\n{:16}{:16}\n",
        "a ", "b ", "██████████ 2 cat", "██████████ 4 ant"
    );
    assert_eq!(text, expected);
}

#[test]
fn grid_report_stacks_on_a_narrow_terminal() {
    let format = FormatSession { count: Some(1), style: DisplayStyle::Grid };
    let text = format.render(&session(), (31, 40));
    assert_eq!(text, "a \n██████████ 2 cat\nb \n██████████ 4 ant\n");
}

#[test]
fn print_grid_lays_out_the_given_entries() {
    let one = table("one", &[("cat", 1)]);
    let two = table("two", &[("dog", 1), ("emu", 1)]);
    let format = FormatSession { count: None, style: DisplayStyle::Grid };
    let text = format.print_grid(&vec![&one, &two], 40);
    let expected = format!(
        "{:16}{:16}\n{:16}{:16}\n{:16}\n",
        "two ", "one ", "██████████ 1 dog", "██████████ 1 cat", "██████████ 1 emu"
    );
    assert_eq!(text, expected);
}

#[test]
fn histogram_of_one_entry_through_the_format() {
    let format = FormatSession { count: None, style: DisplayStyle::Vert };
    let entry = table("p", &[("cat", 2), ("ant", 1)]);
    assert_eq!(
        format.display_histogram(&entry, 3),
        "p:\n██████████ 2 cat\n█████      1 ant\n"
    );
    assert_eq!(format.display_histogram(&entry, 3), entry.display_histogram(3));
}

#[test]
fn tabular_report_draws_one_bordered_row() {
    let format = FormatSession { count: None, style: DisplayStyle::Hori };
    let text = format.render(&session(), (80, 40));
    let lines: Vec<&str> = text.lines().collect();
    assert_eq!(lines.len(), 6);
    assert!(lines[0].starts_with('┌'));
    assert!(lines[0].ends_with('┐'));
    assert!(lines[5].starts_with('└'));
    assert!(lines[5].ends_with('┘'));
    assert!(lines[1].starts_with("│ a:"));
    assert!(lines[1].contains(" b:"));
    assert!(lines[2].contains("██████████ 2 cat"));
    assert!(lines[2].contains("██████████ 4 ant"));
    assert!(lines[3].contains("██████████ 4 dog"));
    assert!(lines[4].contains("1 bird"));
    assert!(lines.iter().all(|line| line.chars().count() == lines[0].chars().count()));
}

#[test]
fn tabular_report_has_one_column_for_each_root_and_the_height_of_the_tallest() {
    let format = FormatSession { count: None, style: DisplayStyle::Hori };
    let text = format.render(&session(), (80, 40));
    let expected = [
        "┌─────────────────────────────────────┐",
        "│ a:                b:                │",
        "│ ██████████ 2 cat  ██████████ 4 ant  │",
        "│                   ██████████ 4 dog  │",
        "│                   ██▌        1 bird │",
        "└─────────────────────────────────────┘",
        "",
    ];
    assert_eq!(text, expected.join("\n"));
}

#[test]
fn tabular_report_is_cut_to_the_cap() {
    let format = FormatSession { count: Some(2), style: DisplayStyle::Hori };
    let text = format.render(&session(), (80, 40));
    let expected = [
        "┌────────────────────────────────────┐",
        "│ a:                b:               │",
        "│ ██████████ 2 cat  ██████████ 4 ant │",
        "└────────────────────────────────────┘",
        "",
    ];
    assert_eq!(text, expected.join("\n"));
}

#[test]
fn grid_report_of_an_entry_without_terms_shows_its_path() {
    let mut bare = SessionData::new(&strings(&["a"]));
    bare.insert_entry_data(EntryData::new("a/empty"));
    let format = FormatSession { count: None, style: DisplayStyle::Grid };
    assert_eq!(format.render(&bare, (80, 40)), "a \n");
    let capped = FormatSession { count: Some(0), style: DisplayStyle::Grid };
    assert_eq!(capped.render(&session(), (80, 40)), "a b \n");
}

#[test]
fn plain_texts_hold_no_escape_character() {
    assert!(plain(""));
    assert!(plain("word"));
    assert!(plain("gr\u{fc}\u{df}e \u{2588}\n[m"));
    assert!(!plain("\u{1b}"));
    assert!(!plain("a\u{1b}[31mred"));
    assert!(!plain("\u{2588}\u{2588}\u{1b}"));
    assert!(cells_plain(&strings(&["a", "", "b\nc"])));
    assert!(cells_plain(&Vec::new()));
    assert!(!cells_plain(&strings(&["a", "b\u{1b}", "c"])));
}

#[test]
fn cells_are_stacked_with_a_line_feed_after_each() {
    assert_eq!(stack_cells(&strings(&["a:\n", "b:\nrow\n"])), "a:\n\nb:\nrow\n\n");
    assert_eq!(stack_cells(&Vec::new()), "");
}

#[test]
fn plain_cells_are_framed_side_by_side() {
    let expected = [
        "\u{250c}\u{2500}\u{2500}\u{2500}\u{2500}\u{2500}\u{2500}\u{2500}\u{2500}\u{2510}",
        "\u{2502} ab  c  \u{2502}",
        "\u{2502}     de \u{2502}",
        "\u{2514}\u{2500}\u{2500}\u{2500}\u{2500}\u{2500}\u{2500}\u{2500}\u{2500}\u{2518}",
        "",
    ];
    assert_eq!(framed(&strings(&["ab", "c\nde"])), expected.join("\n"));
}

#[test]
fn tabular_report_with_an_escape_character_in_a_term_is_stacked() {
    let term = "\u{1b}[\u{644}\u{627}\u{644}\u{627}";
    let mut store = SessionData::new(&strings(&["a"]));
    store.insert_entry_data(table("a/x", &[(term, 2), ("cat", 1)]));
    let tabular = FormatSession { count: None, style: DisplayStyle::Hori };
    let stacked = FormatSession { count: None, style: DisplayStyle::Vert };
    let text = tabular.render(&store, (80, 40));
    assert_eq!(text, stacked.render(&store, (80, 40)));
    assert_eq!(
        text,
        format!("a:\n\u{2588}\u{2588}\u{2588}\u{2588}\u{2588}\u{2588}\u{2588}\u{2588}\u{2588}\u{2588} 2 {}\n\u{2588}\u{2588}\u{2588}\u{2588}\u{2588}      1 cat\n\n", term)
    );
    let capped = FormatSession { count: Some(1), style: DisplayStyle::Hori };
    let header = capped.render(&store, (80, 40));
    assert!(header.starts_with('\u{250c}'));
}

#[test]
fn tabular_report_with_an_escape_character_in_a_path_is_stacked() {
    let root = "\u{1b}[\u{644}\u{627}\u{644}\u{627}";
    let mut store = SessionData::new(&strings(&[root, "b"]));
    store.insert_entry_data(table(&format!("{}/x", root), &[("cat", 1)]));
    store.insert_entry_data(table("b/y", &[("dog", 1)]));
    let tabular = FormatSession { count: Some(1), style: DisplayStyle::Hori };
    assert_eq!(tabular.render(&store, (80, 40)), format!("{}:\n\nb:\n\n", root));
}

#[test]
fn terminal_size_falls_back_to_eighty_by_forty() {
    assert_eq!(terminal_size(None), (80, 40));
    assert_eq!(terminal_size(Some((120, 50))), (120, 50));
    assert_eq!(terminal_size(Some((0, 0))), (0, 0));
}
