use totup::entry_data::{EntryData, TermCount};
use totup::term::text_less;

fn table(path: &str, terms: &[(&str, u64)]) -> EntryData {
    let mut entry = EntryData::new(path);
    for (term, count) in terms {
        for _ in 0..*count {
            entry.inc_term(term);
        }
    }
    entry
}

fn pairs(rows: &Vec<TermCount>) -> Vec<(String, u64)> {
    rows.iter().map(|row| (row.text().to_string(), row.count)).collect()
}

#[test]
fn equal_texts_are_one_term_and_different_texts_are_not() {
    let mut entry = EntryData::new("f");
    entry.inc_term("word");
    entry.inc_term(&String::from("word"));
    entry.inc_term("words");
    entry.inc_term("Word");
    assert_eq!(entry.len(), 3);
    assert_eq!(entry.count("word"), 2);
    assert_eq!(entry.count("words"), 1);
    assert_eq!(entry.count("Word"), 1);
    assert_eq!(entry.count("wor"), 0);
}

#[test]
fn ranked_rows_keep_the_text_of_their_terms() {
    let entry = table("f", &[("gr\u{fc}\u{df}e", 2), ("word", 1)]);
    let rows = entry.sorted_term_counts();
    assert_eq!(rows[0].text(), "gr\u{fc}\u{df}e");
    assert_eq!(rows[0].count, 2);
    assert_eq!(rows[1].text(), "word");
    let copy = rows[1].clone();
    assert_eq!(copy.text(), "word");
    assert_eq!(copy.count, 1);
}

#[test]
fn ties_rank_in_lexical_order_of_the_terms() {
    let entry = table("f", &[("dog", 1), ("cat", 1), ("ca", 1), ("z", 1), ("\u{e9}", 1), ("Cat", 1), ("", 1)]);
    assert_eq!(
        pairs(&entry.sorted_term_counts()),
        vec![
            ("".to_string(), 1),
            ("Cat".to_string(), 1),
            ("ca".to_string(), 1),
            ("cat".to_string(), 1),
            ("dog".to_string(), 1),
            ("z".to_string(), 1),
            ("\u{e9}".to_string(), 1)
        ]
    );
}

#[test]
fn default_entry_is_empty() {
    let entry = EntryData::default();
    assert_eq!(entry.path(), "");
    assert_eq!(entry.len(), 0);
    assert_eq!(entry.display_histogram(5), ":\n");
}

#[test]
fn cloned_entry_holds_the_same_table() {
    let entry = table("p", &[("cat", 2), ("ant", 1)]);
    let copy = entry.clone();
    assert_eq!(copy.path(), "p");
    assert_eq!(pairs(&copy.sorted_term_counts()), pairs(&entry.sorted_term_counts()));
}

#[test]
fn new_entry_is_empty_and_bound_to_its_path() {
    let entry = EntryData::new("src/main.rs");
    assert_eq!(entry.path(), "src/main.rs");
    assert_eq!(entry.len(), 0);
    assert_eq!(entry.count("anything"), 0);
    assert!(entry.sorted_term_counts().is_empty());
    assert!(entry.is_at(&"src/main.rs".to_string()));
    assert!(!entry.is_at(&"src".to_string()));
}

#[test]
fn inc_term_counts_from_zero() {
    let mut entry = EntryData::new("f");
    entry.inc_term("term");
    assert_eq!(entry.count("term"), 1);
    entry.inc_term("term");
    entry.inc_term("other");
    assert_eq!(entry.count("term"), 2);
    assert_eq!(entry.count("other"), 1);
    assert_eq!(entry.count("absent"), 0);
    assert_eq!(entry.len(), 2);
    assert_eq!(entry.path(), "f");
}

#[test]
fn tot_up_adds_term_by_term() {
    let mut a = table("a", &[("term", 3), ("left", 2)]);
    let b = table("b", &[("term", 2), ("other", 1)]);
    a.tot_up(&b);
    assert_eq!(a.path(), "a");
    assert_eq!(a.count("term"), 5);
    assert_eq!(a.count("left"), 2);
    assert_eq!(a.count("other"), 1);
    assert_eq!(a.len(), 3);
    assert_eq!(b.count("term"), 2);
    assert_eq!(b.len(), 2);
}

#[test]
fn tot_up_with_an_empty_table_changes_nothing() {
    let mut a = table("a", &[("term", 3)]);
    let empty = EntryData::new("e");
    a.tot_up(&empty);
    assert_eq!(pairs(&a.sorted_term_counts()), vec![("term".to_string(), 3)]);
    let mut fresh = EntryData::new("n");
    fresh.tot_up(&a);
    assert_eq!(pairs(&fresh.sorted_term_counts()), vec![("term".to_string(), 3)]);
}

#[test]
fn merge_is_commutative_on_tables() {
    let a = table("a", &[("x", 3), ("y", 1)]);
    let b = table("b", &[("y", 4), ("z", 2)]);
    let mut ab = EntryData::new("sum");
    ab.tot_up(&a);
    ab.tot_up(&b);
    let mut ba = EntryData::new("sum");
    ba.tot_up(&b);
    ba.tot_up(&a);
    assert_eq!(pairs(&ab.sorted_term_counts()), pairs(&ba.sorted_term_counts()));
    assert_eq!(
        pairs(&ab.sorted_term_counts()),
        vec![("y".to_string(), 5), ("x".to_string(), 3), ("z".to_string(), 2)]
    );
}

#[test]
fn merge_is_associative_on_tables() {
    let a = table("a", &[("x", 1)]);
    let b = table("b", &[("x", 2), ("y", 1)]);
    let c = table("c", &[("y", 5), ("z", 1)]);
    let mut left = EntryData::new("sum");
    left.tot_up(&a);
    left.tot_up(&b);
    left.tot_up(&c);
    let mut bc = EntryData::new("bc");
    bc.tot_up(&b);
    bc.tot_up(&c);
    let mut right = EntryData::new("sum");
    right.tot_up(&a);
    right.tot_up(&bc);
    assert_eq!(pairs(&left.sorted_term_counts()), pairs(&right.sorted_term_counts()));
    assert_eq!(left.count("x"), 3);
    assert_eq!(left.count("y"), 6);
    assert_eq!(left.count("z"), 1);
}

#[test]
fn ranked_is_by_descending_count_with_lexical_ties() {
    let entry = table("p", &[("dog", 3), ("bird", 1), ("cat", 3)]);
    assert_eq!(
        pairs(&entry.sorted_term_counts()),
        vec![("cat".to_string(), 3), ("dog".to_string(), 3), ("bird".to_string(), 1)]
    );
}

#[test]
fn ranked_does_not_depend_on_the_order_of_counting() {
    let one = table("p", &[("cat", 3), ("dog", 3), ("bird", 1)]);
    let two = table("p", &[("bird", 1), ("dog", 3), ("cat", 3)]);
    assert_eq!(pairs(&one.sorted_term_counts()), pairs(&two.sorted_term_counts()));
}

#[test]
fn can_tot_up_tells_when_a_sum_would_leave_u64() {
    let mut big = table("big", &[("term", 1)]);
    for _ in 0..63 {
        let mut copy = EntryData::new("copy");
        copy.tot_up(&big);
        assert!(big.can_tot_up(&copy));
        big.tot_up(&copy);
    }
    assert_eq!(big.count("term"), 1u64 << 63);
    let mut copy = EntryData::new("copy");
    copy.tot_up(&big);
    assert!(!big.can_tot_up(&copy));
    let small = table("small", &[("term", u8::MAX as u64), ("other", 7)]);
    assert!(big.can_tot_up(&small));
    assert!(small.can_tot_up(&big));
}

#[test]
fn display_histogram_ranks_and_scales_to_the_highest_count() {
    let entry = table("a", &[("dog", 3), ("bird", 1), ("cat", 3)]);
    let text = entry.display_histogram(10);
    assert_eq!(
        text,
        "a:\n██████████ 3 cat\n██████████ 3 dog\n███▍       1 bird\n"
    );
}

#[test]
fn display_histogram_is_cut_to_the_height() {
    let entry = table("a", &[("dog", 3), ("bird", 1), ("cat", 3)]);
    assert_eq!(entry.display_histogram(0), "");
    assert_eq!(entry.display_histogram(1), "a:\n");
    assert_eq!(entry.display_histogram(2), "a:\n██████████ 3 cat\n");
    assert_eq!(
        entry.display_histogram(3),
        "a:\n██████████ 3 cat\n██████████ 3 dog\n"
    );
}

#[test]
fn display_histogram_of_an_empty_table_is_the_header_alone() {
    let entry = EntryData::new("empty/dir");
    assert_eq!(entry.display_histogram(40), "empty/dir:\n");
}

#[test]
fn rendering_twice_gives_the_same_text() {
    let entry = table("a", &[("dog", 3), ("bird", 1), ("cat", 3), ("ant", 2)]);
    let first = entry.display_histogram(5);
    let second = entry.display_histogram(5);
    assert_eq!(first, second);
}

#[test]
fn text_order_is_lexical_by_character() {
    assert!(text_less("bird", "cat"));
    assert!(text_less("cat", "dog"));
    assert!(!text_less("dog", "cat"));
    assert!(!text_less("cat", "cat"));
    assert!(text_less("ca", "cat"));
    assert!(!text_less("cat", "ca"));
    assert!(text_less("", "a"));
    assert!(!text_less("", ""));
    assert!(!text_less("a", ""));
    assert!(text_less("Cat", "cat"));
    assert!(text_less("z", "\u{e9}"));
    assert!(text_less("\u{e9}", "\u{2588}"));
    assert!(text_less("a\u{e9}b", "a\u{e9}c"));
    for (a, b) in [("abc", "abd"), ("x", "xy"), ("\u{fc}", "\u{fd}"), ("", "")] {
        assert_eq!(text_less(a, b), a < b);
        assert_eq!(text_less(b, a), b < a);
    }
}
