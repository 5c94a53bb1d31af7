use totup::collector::{CollectError, Collector};
use totup::entry_data::EntryData;

#[test]
fn lossy_decoding_replaces_malformed_bytes() {
    let mut collector = Collector::new("f");
    assert_eq!(collector.matched(&[0x66, 0xff, 0x6f], false), Ok(()));
    assert_eq!(collector.matched("gr\u{fc}\u{df}e".as_bytes(), false), Ok(()));
    assert_eq!(collector.matched(&[], false), Ok(()));
    let entry = collector.finish();
    assert_eq!(entry.count("f\u{fffd}o"), 1);
    assert_eq!(entry.count("gr\u{fc}\u{df}e"), 1);
    assert_eq!(entry.count(""), 1);
    assert_eq!(entry.len(), 3);
}

#[test]
fn collector_counts_matches_while_scanning() {
    let mut collector = Collector::new("dir/file");
    assert!(collector.scanning());
    assert_eq!(collector.matched(b"word", false), Ok(()));
    assert_eq!(collector.matched(b"word", false), Ok(()));
    assert_eq!(collector.matched(b"other", false), Ok(()));
    assert_eq!(collector.matched_text("text", false), Ok(()));
    assert!(collector.scanning());
    let entry = collector.finish();
    assert_eq!(entry.path(), "dir/file");
    assert_eq!(entry.count("word"), 2);
    assert_eq!(entry.count("other"), 1);
    assert_eq!(entry.count("text"), 1);
    assert_eq!(entry.len(), 3);
}

#[test]
fn collector_skips_excluded_matches() {
    let mut collector = Collector::new("f");
    assert_eq!(collector.matched(b"skip", true), Ok(()));
    assert_eq!(collector.matched(b"keep", false), Ok(()));
    let entry = collector.finish();
    assert_eq!(entry.count("skip"), 0);
    assert_eq!(entry.count("keep"), 1);
    assert_eq!(entry.len(), 1);
}

#[test]
fn collector_counts_malformed_matches_under_their_lossy_text() {
    let mut collector = Collector::new("f");
    assert_eq!(collector.matched(&[0x61, 0xc3], false), Ok(()));
    let entry = collector.finish();
    assert_eq!(entry.count("a\u{fffd}"), 1);
}

#[test]
fn collector_is_finished_once_its_table_is_handed_over() {
    let mut collector = Collector::new("f");
    assert_eq!(collector.matched(b"word", false), Ok(()));
    assert!(collector.scanning());
    let entry = collector.finish();
    assert!(!collector.scanning());
    assert_eq!(entry.count("word"), 1);
}

#[test]
fn collector_of_a_file_without_matches_gives_an_empty_table() {
    let mut collector = Collector::new("empty");
    let entry = collector.finish();
    assert_eq!(entry.path(), "empty");
    assert_eq!(entry.len(), 0);
}

#[test]
fn collector_goes_on_with_a_given_table() {
    let mut entry = EntryData::new("f");
    entry.inc_term("word");
    let mut collector = Collector::resume(entry);
    assert!(collector.scanning());
    assert_eq!(collector.matched(b"word", false), Ok(()));
    let entry = collector.finish();
    assert_eq!(entry.path(), "f");
    assert_eq!(entry.count("word"), 2);
}

#[test]
fn collector_refuses_to_count_beyond_u64() {
    let mut total = EntryData::new("f");
    let mut power = EntryData::new("p");
    power.inc_term("term");
    for step in 0..64 {
        total.tot_up(&power);
        if step < 63 {
            let copy = power.clone();
            power.tot_up(&copy);
        }
    }
    assert_eq!(total.count("term"), u64::MAX);
    let mut collector = Collector::resume(total);
    assert_eq!(collector.matched(b"term", true), Ok(()));
    assert_eq!(collector.matched(b"term", false), Err(CollectError::Full));
    assert_eq!(collector.matched(b"other", false), Ok(()));
    let entry = collector.finish();
    assert_eq!(entry.count("term"), u64::MAX);
    assert_eq!(entry.count("other"), 1);
}
