use totup::entry_data::{EntryData, TermCount};
use totup::paths::strip_trailing_separators;
use totup::session_data::SessionData;

fn table(path: &str, terms: &[(&str, u64)]) -> EntryData {
    let mut entry = EntryData::new(path);
    for (term, count) in terms {
        for _ in 0..*count {
            entry.inc_term(term);
        }
    }
    entry
}

fn pairs(rows: &Vec<TermCount>) -> Vec<(String, u64)> {
    rows.iter().map(|row| (row.text().to_string(), row.count)).collect()
}

fn strings(texts: &[&str]) -> Vec<String> {
    texts.iter().map(|t| t.to_string()).collect()
}

fn ranked_at(session: &SessionData, path: &str) -> Vec<(String, u64)> {
    let entry = session.directory(&path.to_string()).expect("a table under the path");
    assert_eq!(entry.path(), path);
    pairs(&entry.sorted_term_counts())
}

#[test]
fn trailing_separators_are_stripped() {
    assert_eq!(strip_trailing_separators("a/b"), "a/b");
    assert_eq!(strip_trailing_separators("a/b/"), "a/b");
    assert_eq!(strip_trailing_separators("a/b//"), "a/b");
    assert_eq!(strip_trailing_separators("a\\b\\"), "a\\b");
    assert_eq!(strip_trailing_separators("a/b/\\/"), "a/b");
    assert_eq!(strip_trailing_separators("/"), "");
    assert_eq!(strip_trailing_separators(""), "");
    assert_eq!(strip_trailing_separators("/a"), "/a");
    assert_eq!(strip_trailing_separators("é/ü/"), "é/ü");
}

#[test]
fn new_session_keeps_the_roots_without_trailing_separators() {
    let session = SessionData::new(&strings(&["a/", "b//", "c"]));
    assert_eq!(session.root_paths(), &strings(&["a", "b", "c"]));
    assert!(session.entries().is_empty());
    assert!(session.directory(&"a".to_string()).is_none());
    assert!(session.root_entries().is_empty());
    assert!(session.is_root(&"a".to_string()));
    assert!(!session.is_root(&"a/".to_string()));
    assert!(!session.is_root(&"d".to_string()));
}

#[test]
fn walk_goes_from_the_file_up_to_its_root() {
    let session = SessionData::new(&strings(&["a"]));
    assert_eq!(session.ancestors("a/b/y"), strings(&["a/b/y", "a/b", "a"]));
    assert_eq!(session.ancestors("a/x"), strings(&["a/x", "a"]));
    assert_eq!(session.ancestors("a"), strings(&["a"]));
    assert_eq!(session.ancestors("a/b/c/"), strings(&["a/b/c", "a/b", "a"]));
}

#[test]
fn walk_stops_at_the_nearest_root() {
    let session = SessionData::new(&strings(&["a", "a/b"]));
    assert_eq!(session.ancestors("a/b/c/y"), strings(&["a/b/c/y", "a/b/c", "a/b"]));
}

#[test]
fn walk_from_n_levels_below_the_root_visits_at_most_n_ancestors() {
    let session = SessionData::new(&strings(&["r"]));
    let mut path = "r".to_string();
    for depth in 0..6usize {
        let keys = session.ancestors(&path);
        assert_eq!(keys.len(), depth + 1);
        assert_eq!(keys[0], path);
        assert_eq!(keys[depth], "r");
        assert!(keys.iter().all(|key| key.starts_with("r")));
        path.push_str("/d");
    }
}

#[test]
fn walk_without_a_root_above_ends_where_no_parent_is_left() {
    let session = SessionData::new(&strings(&["q"]));
    assert_eq!(session.ancestors("/x/y"), strings(&["/x/y", "/x", ""]));
    assert_eq!(session.ancestors("x/y"), strings(&["x/y", "x", ""]));
    let rootless = SessionData::new(&Vec::new());
    assert_eq!(rootless.ancestors("x"), strings(&["x", ""]));
}

#[test]
fn rollup_sums_the_files_below_a_directory() {
    let mut session = SessionData::new(&strings(&["a"]));
    session.insert_entry_data(table("a/x", &[("term", 3)]));
    session.insert_entry_data(table("a/b/y", &[("term", 2), ("other", 1)]));
    assert_eq!(ranked_at(&session, "a"), vec![("term".to_string(), 5), ("other".to_string(), 1)]);
    assert_eq!(ranked_at(&session, "a/b"), vec![("term".to_string(), 2), ("other".to_string(), 1)]);
    assert_eq!(ranked_at(&session, "a/x"), vec![("term".to_string(), 3)]);
    assert_eq!(ranked_at(&session, "a/b/y"), vec![("term".to_string(), 2), ("other".to_string(), 1)]);
    assert!(session.directory(&"".to_string()).is_none());
    assert_eq!(session.entries().len(), 2);
    assert_eq!(session.entries()[0].path(), "a/x");
    assert_eq!(session.entries()[1].path(), "a/b/y");
}

#[test]
fn rollup_does_not_depend_on_the_order_of_completion() {
    let mut session = SessionData::new(&strings(&["a"]));
    session.insert_entry_data(table("a/b/y", &[("term", 2), ("other", 1)]));
    session.insert_entry_data(table("a/x", &[("term", 3)]));
    assert_eq!(ranked_at(&session, "a"), vec![("term".to_string(), 5), ("other".to_string(), 1)]);
    assert_eq!(ranked_at(&session, "a/b"), vec![("term".to_string(), 2), ("other".to_string(), 1)]);
    assert_eq!(ranked_at(&session, "a/x"), vec![("term".to_string(), 3)]);
    assert_eq!(session.entries()[0].path(), "a/b/y");
}

#[test]
fn rollup_never_reaches_above_the_root() {
    let mut session = SessionData::new(&strings(&["top/a"]));
    session.insert_entry_data(table("top/a/x", &[("term", 1)]));
    assert!(session.directory(&"top/a".to_string()).is_some());
    assert!(session.directory(&"top".to_string()).is_none());
    assert!(session.directory(&"".to_string()).is_none());
}

#[test]
fn root_entries_follow_the_order_of_the_roots() {
    let mut session = SessionData::new(&strings(&["b/", "missing", "a"]));
    session.insert_entry_data(table("a/x", &[("one", 1)]));
    session.insert_entry_data(table("b/y", &[("two", 2)]));
    let found = session.root_entries();
    assert_eq!(found.len(), 2);
    assert_eq!(found[0].path(), "b");
    assert_eq!(found[1].path(), "a");
    assert_eq!(found[0].count("two"), 2);
    assert_eq!(found[1].count("one"), 1);
}

#[test]
fn record_adds_an_entry_that_fits() {
    let mut session = SessionData::new(&strings(&["a"]));
    assert!(session.record(table("a/x", &[("term", 3)])));
    assert!(session.record(table("a/b/y", &[("term", 2), ("other", 1)])));
    assert_eq!(ranked_at(&session, "a"), vec![("term".to_string(), 5), ("other".to_string(), 1)]);
    assert_eq!(session.entries().len(), 2);
}

#[test]
fn record_leaves_the_store_alone_where_a_sum_would_leave_u64() {
    let mut big = table("a/x", &[("term", 1)]);
    for _ in 0..63 {
        let mut copy = EntryData::new("copy");
        copy.tot_up(&big);
        big.tot_up(&copy);
    }
    let mut again = EntryData::new("a/y");
    again.tot_up(&big);
    let mut session = SessionData::new(&strings(&["a"]));
    assert!(session.record(big));
    assert!(!session.record(again));
    assert_eq!(session.entries().len(), 1);
    assert_eq!(ranked_at(&session, "a"), vec![("term".to_string(), 1u64 << 63)]);
    assert!(session.directory(&"a/y".to_string()).is_none());
    assert!(session.record(table("a/y", &[("term", 5)])));
    assert_eq!(ranked_at(&session, "a"), vec![("term".to_string(), (1u64 << 63) + 5)]);
}

#[test]
fn default_session_has_no_roots_and_no_entries() {
    let mut session = SessionData::default();
    assert!(session.root_paths().is_empty());
    assert!(session.entries().is_empty());
    session.insert_entry_data(table("x/y", &[("term", 1)]));
    assert_eq!(ranked_at(&session, "x/y"), vec![("term".to_string(), 1)]);
    assert_eq!(ranked_at(&session, "x"), vec![("term".to_string(), 1)]);
    assert_eq!(ranked_at(&session, ""), vec![("term".to_string(), 1)]);
}

#[test]
fn three_files_roll_up_the_same_in_every_order() {
    let files: Vec<(&str, Vec<(&str, u64)>)> = vec![
        ("a/x", vec![("term", 3)]),
        ("a/b/y", vec![("term", 2), ("other", 1)]),
        ("a/b/c/z", vec![("other", 4), ("third", 1)]),
    ];
    let orders = [[0, 1, 2], [0, 2, 1], [1, 0, 2], [1, 2, 0], [2, 0, 1], [2, 1, 0]];
    for order in orders.iter() {
        let mut session = SessionData::new(&strings(&["a"]));
        for at in order.iter() {
            let (path, terms) = &files[*at];
            session.insert_entry_data(table(path, terms));
        }
        assert_eq!(
            ranked_at(&session, "a"),
            vec![("other".to_string(), 5), ("term".to_string(), 5), ("third".to_string(), 1)]
        );
        assert_eq!(
            ranked_at(&session, "a/b"),
            vec![("other".to_string(), 5), ("term".to_string(), 2), ("third".to_string(), 1)]
        );
        assert_eq!(
            ranked_at(&session, "a/b/c"),
            vec![("other".to_string(), 4), ("third".to_string(), 1)]
        );
    }
}
