use kvstore::codec::{decode, encode};
use kvstore::{CodecError, Database};

fn pairs(v: &[(&str, &str)]) -> Vec<(String, String)> {
    v.iter().map(|(k, x)| (k.to_string(), x.to_string())).collect()
}

fn flush_into(db: &mut Database, out: &mut Vec<String>) -> Result<(), ()> {
    db.flush(|text| {
        out.push(text);
        Ok(())
    })
}

#[test]
fn empty_text_gives_empty_store() {
    let db = Database::new("").unwrap();
    assert_eq!(db.len(), 0);
    assert!(!db.is_flushed());
    assert_eq!(db.contents(), "");
}

#[test]
fn decode_reads_records_in_order() {
    assert_eq!(
        decode("a\t1\nb\t2\n").unwrap(),
        pairs(&[("a", "1"), ("b", "2")])
    );
}

#[test]
fn decode_accepts_missing_final_newline() {
    assert_eq!(decode("a\t1\nb\t2").unwrap(), pairs(&[("a", "1"), ("b", "2")]));
}

#[test]
fn decode_skips_empty_lines() {
    assert_eq!(decode("\na\t1\n\n\nb\t2\n").unwrap(), pairs(&[("a", "1"), ("b", "2")]));
}

#[test]
fn decode_splits_on_first_tab() {
    assert_eq!(
        decode("k\tv\twith tab\n").unwrap(),
        pairs(&[("k", "v\twith tab")])
    );
}

#[test]
fn decode_allows_empty_key_and_value() {
    assert_eq!(decode("\t\n\tv\nk\t\n").unwrap(), pairs(&[("", "v"), ("k", "")]));
}

#[test]
fn decode_last_duplicate_wins() {
    assert_eq!(
        decode("k\t1\nx\t0\nk\t2\n").unwrap(),
        pairs(&[("k", "2"), ("x", "0")])
    );
}

#[test]
fn decode_rejects_line_without_tab() {
    assert_eq!(decode("a\t1\nbroken\nb\t2\n"), Err(CodecError::CorruptRecord));
    assert_eq!(decode("a\t1\nbroken"), Err(CodecError::CorruptRecord));
    assert_eq!(decode("broken\n"), Err(CodecError::CorruptRecord));
}

#[test]
fn open_rejects_corrupt_text() {
    assert!(matches!(
        Database::new("name\tAnn\nno separator\n"),
        Err(CodecError::CorruptRecord)
    ));
}

#[test]
fn encode_writes_one_line_per_record() {
    assert_eq!(encode(&pairs(&[("a", "1"), ("b", "2")])), "a\t1\nb\t2\n");
    assert_eq!(encode(&Vec::new()), "");
}

#[test]
fn round_trip_of_records() {
    let recs = pairs(&[("name", "Ann"), ("NAME", "Ann"), ("", "empty key"), ("k", "")]);
    assert_eq!(decode(&encode(&recs)).unwrap(), recs);
}

#[test]
fn round_trip_through_database() {
    let text = "x\t1\ny\t2\nz\t3\n";
    let db = Database::new(text).unwrap();
    assert_eq!(db.contents(), text);
    let again = Database::new(&db.contents()).unwrap();
    assert_eq!(again.get("y"), Some(&"2".to_string()));
    assert_eq!(again.len(), 3);
}

#[test]
fn insert_twice_keeps_one_record() {
    let mut db = Database::new("").unwrap();
    db.insert("k".to_string(), "v1".to_string());
    db.insert("k".to_string(), "v2".to_string());
    assert_eq!(db.len(), 1);
    assert_eq!(db.get("k"), Some(&"v2".to_string()));
    assert_eq!(db.contents(), "k\tv2\n");
}

#[test]
fn insert_overwrites_loaded_value_in_place() {
    let mut db = Database::new("a\t1\nb\t2\n").unwrap();
    db.insert("a".to_string(), "9".to_string());
    assert_eq!(db.contents(), "a\t9\nb\t2\n");
    assert_eq!(db.get("c"), None);
}

#[test]
fn keys_are_case_sensitive() {
    let mut db = Database::new("").unwrap();
    db.insert("name".to_string(), "Ann".to_string());
    db.insert("NAME".to_string(), "Ann".to_string());
    assert_eq!(db.len(), 2);
    assert_eq!(db.get("name"), Some(&"Ann".to_string()));
    assert_eq!(db.get("NAME"), Some(&"Ann".to_string()));
}

#[test]
fn flush_hands_over_text_and_sets_flag() {
    let mut db = Database::new("a\t1\n").unwrap();
    db.insert("b".to_string(), "2".to_string());
    let mut out = Vec::new();
    assert_eq!(flush_into(&mut db, &mut out), Ok(()));
    assert!(db.is_flushed());
    assert_eq!(out, vec!["a\t1\nb\t2\n".to_string()]);
}

#[test]
fn flush_twice_writes_same_text() {
    let mut db = Database::new("").unwrap();
    db.insert("k".to_string(), "v".to_string());
    let mut out = Vec::new();
    flush_into(&mut db, &mut out).unwrap();
    flush_into(&mut db, &mut out).unwrap();
    assert_eq!(out.len(), 2);
    assert_eq!(out[0], out[1]);
    assert_eq!(decode(&out[1]).unwrap(), pairs(&[("k", "v")]));
}

#[test]
fn failed_flush_returns_error_and_leaves_flag() {
    let mut db = Database::new("").unwrap();
    db.insert("k".to_string(), "v".to_string());
    let r: Result<(), &str> = db.flush(|_| Err("disk full"));
    assert_eq!(r, Err("disk full"));
    assert!(!db.is_flushed());
    assert_eq!(db.get("k"), Some(&"v".to_string()));
}

#[test]
fn teardown_writes_when_never_flushed() {
    let mut db = Database::new("old\tx\n").unwrap();
    db.insert("new".to_string(), "y".to_string());
    let mut out: Vec<String> = Vec::new();
    db.teardown(|text| {
        out.push(text);
        Ok::<(), ()>(())
    });
    assert_eq!(out, vec!["old\tx\nnew\ty\n".to_string()]);
    assert!(db.is_flushed());
}

#[test]
fn teardown_after_flush_writes_nothing() {
    let mut db = Database::new("").unwrap();
    db.insert("k".to_string(), "v".to_string());
    let mut out = Vec::new();
    flush_into(&mut db, &mut out).unwrap();
    let mut calls = 0;
    db.teardown(|_| {
        calls += 1;
        Ok::<(), ()>(())
    });
    assert_eq!(calls, 0);
    assert_eq!(out.len(), 1);
}

#[test]
fn teardown_swallows_write_error() {
    let mut db = Database::new("").unwrap();
    db.insert("k".to_string(), "v".to_string());
    db.teardown(|_| Err::<(), &str>("denied"));
    assert!(!db.is_flushed());
}

#[test]
fn scenario_name_and_upper_name() {
    let mut db = Database::new("").unwrap();
    assert_eq!(db.len(), 0);
    db.insert("name".to_string(), "Ann".to_string());
    db.insert("NAME".to_string(), "Ann".to_string());
    let mut file = String::new();
    db.teardown(|text| {
        file = text;
        Ok::<(), ()>(())
    });
    let mut lines: Vec<&str> = file.split_inclusive('\n').collect();
    lines.sort();
    assert_eq!(lines, vec!["NAME\tAnn\n", "name\tAnn\n"]);
}
