use sled::{is_blank_line, ImportError, KvRecord, Tree, IMPORT_BATCH_SIZE};

fn as_lines(records: Vec<KvRecord>) -> Vec<Result<KvRecord, ImportError>> {
    records.into_iter().map(Ok).collect()
}

fn record(key: &str, value: &str) -> KvRecord {
    KvRecord { key: key.to_string(), value: value.to_string() }
}

#[test]
fn roundtrip_100_kv() {
    let mut db = Tree::new();
    for i in 0_u32..100 {
        let k = (i as u64).to_be_bytes();
        let v = (i as u64).to_le_bytes();
        db.insert(k.to_vec(), v.to_vec());
    }
    assert_eq!(db.len(), 100);

    let exported = db.export_jsonl();
    assert_eq!(exported.len(), 100);

    let mut db2 = Tree::new();
    let imported = db2.import_jsonl(&as_lines(exported)).unwrap();
    assert_eq!(imported, 100);

    for i in 0_u32..100 {
        let k = (i as u64).to_be_bytes();
        let expected = (i as u64).to_le_bytes();
        let got = db2.get(&k).unwrap();
        assert_eq!(got.as_slice(), &expected[..]);
    }
}

#[test]
fn roundtrip_empty_db() {
    let db = Tree::new();
    assert_eq!(db.len(), 0);

    let exported = db.export_jsonl();
    assert_eq!(exported.len(), 0);

    let mut db2 = Tree::new();
    let imported = db2.import_jsonl(&as_lines(exported)).unwrap();
    assert_eq!(imported, 0);
    assert_eq!(db2.len(), 0);
}

#[test]
fn roundtrip_large_values() {
    let mut db = Tree::new();
    let big_key = vec![0xABu8; 1024];
    let big_value = vec![0xCDu8; 8192];
    db.insert(big_key.clone(), big_value.clone());

    let exported = db.export_jsonl();
    assert_eq!(exported.len(), 1);

    let mut db2 = Tree::new();
    let imported = db2.import_jsonl(&as_lines(exported)).unwrap();
    assert_eq!(imported, 1);

    let got = db2.get(&big_key).unwrap();
    assert_eq!(got.as_slice(), &big_value[..]);
    assert_eq!(got.len(), 8192);
}

#[test]
fn roundtrip_binary_special_bytes() {
    let mut db = Tree::new();
    for i in 0..=255u8 {
        let k = vec![i, i.wrapping_add(1), i.wrapping_add(2)];
        let v = vec![i; 1];
        db.insert(k, v);
    }
    assert_eq!(db.len(), 256);

    let exported = db.export_jsonl();
    assert_eq!(exported.len(), 256);

    let mut db2 = Tree::new();
    let imported = db2.import_jsonl(&as_lines(exported)).unwrap();
    assert_eq!(imported, 256);

    for i in 0..=255u8 {
        let k = vec![i, i.wrapping_add(1), i.wrapping_add(2)];
        let expected = vec![i; 1];
        let got = db2.get(&k).unwrap();
        assert_eq!(got.as_slice(), &expected[..]);
    }
}

#[test]
fn export_records_hold_standard_base64() {
    let mut db = Tree::new();
    db.insert(b"hello".to_vec(), b"world".to_vec());
    db.insert(b"foo".to_vec(), b"bar".to_vec());

    let exported = db.export_jsonl();
    assert_eq!(exported.len(), 2);
    // Entries come out in ascending key order.
    assert_eq!(exported[0], record("Zm9v", "YmFy"));
    assert_eq!(exported[1], record("aGVsbG8=", "d29ybGQ="));
}

#[test]
fn export_encodes_empty_key_and_value() {
    let mut db = Tree::new();
    db.insert(Vec::new(), Vec::new());
    let exported = db.export_jsonl();
    assert_eq!(exported, vec![record("", "")]);
}

#[test]
fn import_malformed_line_returns_error() {
    let mut db = Tree::new();
    let lines = vec![Ok(record("aGVsbG8=", "d29ybGQ=")), Err(ImportError::MalformedRecord)];
    let result = db.import_jsonl(&lines);
    assert_eq!(result, Err(ImportError::MalformedRecord));
    // The record before the bad line was still in an unfinished batch.
    assert_eq!(db.len(), 0);
}

#[test]
fn import_invalid_base64_returns_error() {
    let mut db = Tree::new();
    let lines = vec![Ok(record("!!!not-base64!!!", "d29ybGQ="))];
    let result = db.import_jsonl(&lines);
    assert_eq!(result, Err(ImportError::InvalidBase64));
    assert_eq!(db.len(), 0);
}

#[test]
fn import_invalid_base64_value_returns_error() {
    let mut db = Tree::new();
    let lines = vec![Ok(record("aGVsbG8=", "d29ybGQ"))];
    assert_eq!(db.import_jsonl(&lines), Err(ImportError::InvalidBase64));
}

#[test]
fn import_read_failure_returns_error() {
    let mut db = Tree::new();
    let lines = vec![Err(ImportError::Read), Ok(record("aGVsbG8=", "d29ybGQ="))];
    assert_eq!(db.import_jsonl(&lines), Err(ImportError::Read));
    assert_eq!(db.len(), 0);
}

#[test]
fn import_overwrites_existing_keys() {
    let mut db = Tree::new();
    db.insert(b"a".to_vec(), b"original".to_vec());
    db.insert(b"b".to_vec(), b"keep_this".to_vec());

    let mut db_export = Tree::new();
    db_export.insert(b"a".to_vec(), b"overwritten".to_vec());
    let exported = db_export.export_jsonl();

    let imported = db.import_jsonl(&as_lines(exported)).unwrap();
    assert_eq!(imported, 1);

    assert_eq!(db.get(b"a").unwrap().as_slice(), b"overwritten");
    assert_eq!(db.get(b"b").unwrap().as_slice(), b"keep_this");
}

#[test]
fn import_later_record_of_a_key_wins() {
    let mut db = Tree::new();
    let lines = vec![Ok(record("YQ==", "MQ==")), Ok(record("YQ==", "Mg=="))];
    assert_eq!(db.import_jsonl(&lines), Ok(2));
    assert_eq!(db.len(), 1);
    assert_eq!(db.get(b"a").unwrap(), b"2".to_vec());
}

#[test]
fn many_records_batch_boundary() {
    let count = 2500usize;

    let mut db = Tree::new();
    for i in 0..count {
        let k = (i as u32).to_be_bytes();
        let v = (i as u32).to_le_bytes();
        db.insert(k.to_vec(), v.to_vec());
    }

    let exported = db.export_jsonl();
    assert_eq!(exported.len(), count);

    let mut db2 = Tree::new();
    let imported = db2.import_jsonl(&as_lines(exported)).unwrap();
    assert_eq!(imported, count);
    assert_eq!(db2.len(), count);

    for i in 0..count {
        let k = (i as u32).to_be_bytes();
        let expected = (i as u32).to_le_bytes();
        let got = db2.get(&k).unwrap();
        assert_eq!(got.as_slice(), &expected[..]);
    }
}

#[test]
fn failed_import_keeps_only_full_batches() {
    let mut source = Tree::new();
    for i in 0..1500u32 {
        source.insert(i.to_be_bytes().to_vec(), i.to_le_bytes().to_vec());
    }
    let mut lines = as_lines(source.export_jsonl());
    lines.push(Ok(record("not base64", "AA==")));

    let mut db = Tree::new();
    assert_eq!(db.import_jsonl(&lines), Err(ImportError::InvalidBase64));
    assert_eq!(db.len(), IMPORT_BATCH_SIZE);
    assert_eq!(db.get(&999u32.to_be_bytes()).unwrap(), 999u32.to_le_bytes().to_vec());
    assert!(db.get(&1000u32.to_be_bytes()).is_none());
}

#[test]
fn separate_tree_export_import() {
    let mut tree = Tree::new();
    tree.insert(b"tk1".to_vec(), b"tv1".to_vec());
    tree.insert(b"tk2".to_vec(), b"tv2".to_vec());
    assert_eq!(tree.len(), 2);

    let exported = tree.export_jsonl();
    assert_eq!(exported.len(), 2);

    let other = Tree::new();
    let mut tree2 = Tree::new();
    let imported = tree2.import_jsonl(&as_lines(exported)).unwrap();
    assert_eq!(imported, 2);

    assert_eq!(tree2.get(b"tk1").unwrap().as_slice(), b"tv1");
    assert_eq!(tree2.get(b"tk2").unwrap().as_slice(), b"tv2");
    assert_eq!(other.len(), 0);
}

#[test]
fn blank_lines_are_white_space_only() {
    assert!(is_blank_line(""));
    assert!(is_blank_line("   \t\r"));
    assert!(is_blank_line("\u{a0}\u{3000}"));
    assert!(!is_blank_line(" {} "));
    assert!(!is_blank_line("x"));
}

#[test]
fn tree_keeps_keys_in_byte_order() {
    let mut t = Tree::new();
    assert_eq!(t.insert(b"b".to_vec(), b"2".to_vec()), None);
    assert_eq!(t.insert(b"a".to_vec(), b"1".to_vec()), None);
    assert_eq!(t.insert(b"ab".to_vec(), b"3".to_vec()), None);
    assert_eq!(t.insert(b"a".to_vec(), b"9".to_vec()), Some(b"1".to_vec()));
    assert_eq!(t.len(), 3);
    let keys: Vec<Vec<u8>> = (0..t.len()).map(|i| t.entry(i).0.clone()).collect();
    assert_eq!(keys, vec![b"a".to_vec(), b"ab".to_vec(), b"b".to_vec()]);
    assert_eq!(t.get(b"a"), Some(b"9".to_vec()));
    assert_eq!(t.get(b"c"), None);
}
