use totup::entry_data::EntryData;
use totup::index::hash_text;
use totup::session_data::SessionData;

#[test]
fn hash_of_a_text_follows_its_bytes() {
    assert_eq!(hash_text(""), 7);
    assert_eq!(hash_text("a"), 7 * 31 + 97);
    assert_eq!(hash_text("ab"), (7 * 31 + 97) * 31 + 98);
    assert_eq!(hash_text("\u{e9}"), (7 * 31 + 0xc3) * 31 + 0xa9);
    assert_eq!(hash_text("word"), hash_text(&String::from("word")));
    assert_ne!(hash_text("word"), hash_text("words"));
}

#[test]
fn hash_of_a_long_text_wraps_around() {
    let text = "x".repeat(1000);
    let mut expected: u64 = 7;
    for byte in text.bytes() {
        expected = expected.wrapping_mul(31).wrapping_add(byte as u64);
    }
    assert_eq!(hash_text(&text), expected);
}

#[test]
fn a_table_of_many_terms_finds_each_of_them() {
    let mut entry = EntryData::new("big");
    for round in 0..3u64 {
        for n in 0..2000u64 {
            if n % (round + 1) == 0 {
                entry.inc_term(&format!("term{}", n));
            }
        }
    }
    assert_eq!(entry.len(), 2000);
    for n in 0..2000u64 {
        let expected = 1 + (if n % 2 == 0 { 1 } else { 0 }) + (if n % 3 == 0 { 1 } else { 0 });
        assert_eq!(entry.count(&format!("term{}", n)), expected);
    }
    assert_eq!(entry.count("term2000"), 0);
    let copy = entry.clone();
    assert_eq!(copy.len(), 2000);
    assert_eq!(copy.count("term6"), 3);
    let mut sum = EntryData::new("sum");
    sum.tot_up(&entry);
    sum.tot_up(&copy);
    assert_eq!(sum.len(), 2000);
    assert_eq!(sum.count("term6"), 6);
    assert_eq!(sum.count("term7"), 2);
}

#[test]
fn texts_with_the_same_hash_are_kept_apart() {
    // "Aa" and "BB" have the same hash: 65 * 31 + 97 == 66 * 31 + 66.
    assert_eq!(hash_text("Aa"), hash_text("BB"));
    let mut entry = EntryData::new("f");
    entry.inc_term("Aa");
    entry.inc_term("BB");
    entry.inc_term("BB");
    assert_eq!(entry.len(), 2);
    assert_eq!(entry.count("Aa"), 1);
    assert_eq!(entry.count("BB"), 2);
    let mut session = SessionData::new(&vec!["r".to_string()]);
    session.insert_entry_data(EntryData::new("r/Aa"));
    let mut other = EntryData::new("r/BB");
    other.inc_term("x");
    session.insert_entry_data(other);
    assert_eq!(session.directory(&"r/Aa".to_string()).map(|e| e.len()), Some(0));
    assert_eq!(session.directory(&"r/BB".to_string()).map(|e| e.count("x")), Some(1));
    assert_eq!(session.directory(&"r".to_string()).map(|e| e.count("x")), Some(1));
}

#[test]
fn a_store_of_many_directories_finds_each_of_them() {
    let mut session = SessionData::new(&vec!["root".to_string()]);
    for n in 0..500u64 {
        let mut entry = EntryData::new(&format!("root/dir{}/file{}", n % 50, n));
        entry.inc_term("term");
        if n % 2 == 0 {
            entry.inc_term("even");
        }
        assert!(session.record(entry));
    }
    assert_eq!(session.entries().len(), 500);
    let root = session.directory(&"root".to_string()).expect("the table of the root");
    assert_eq!(root.count("term"), 500);
    assert_eq!(root.count("even"), 250);
    for d in 0..50u64 {
        let dir = session.directory(&format!("root/dir{}", d)).expect("the table of a directory");
        assert_eq!(dir.count("term"), 10);
        assert_eq!(dir.count("even"), if d % 2 == 0 { 10 } else { 0 });
    }
    for n in 0..500u64 {
        let path = format!("root/dir{}/file{}", n % 50, n);
        let file = session.directory(&path).expect("the table of a file");
        assert_eq!(file.path(), path);
        assert_eq!(file.count("term"), 1);
    }
    assert!(session.directory(&"root/dir50".to_string()).is_none());
}
