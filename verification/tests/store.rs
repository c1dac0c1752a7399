use actionkv::record::{encode_record, process_record};
use actionkv::{load, open, StoreError};

#[test]
fn insert_then_get_round_trip() {
    let mut db = open();
    let key = b"key".to_vec();
    let value = b"value".to_vec();
    db.insert(&key, &value).unwrap();
    assert_eq!(db.get(&key).unwrap(), Some(b"value".to_vec()));
}

#[test]
fn last_write_wins() {
    let mut db = open();
    let key = b"k".to_vec();
    db.insert(&key, &b"one".to_vec()).unwrap();
    db.insert(&key, &b"two".to_vec()).unwrap();
    db.insert(&key, &b"three".to_vec()).unwrap();
    assert_eq!(db.get(&key).unwrap(), Some(b"three".to_vec()));
}

#[test]
fn get_missing_is_none() {
    let db = open();
    assert_eq!(db.get(&b"missing".to_vec()).unwrap(), None);
}

#[test]
fn delete_then_get_none_then_reinsert() {
    let mut db = open();
    let key = b"k".to_vec();
    db.insert(&key, &b"v".to_vec()).unwrap();
    db.delete(&key).unwrap();
    assert_eq!(db.get(&key).unwrap(), None);
    db.insert(&key, &b"w".to_vec()).unwrap();
    assert_eq!(db.get(&key).unwrap(), Some(b"w".to_vec()));
}

#[test]
fn delete_missing_key_is_ok() {
    let mut db = open();
    db.delete(&b"ghost".to_vec()).unwrap();
    assert_eq!(db.get(&b"ghost".to_vec()).unwrap(), None);
}

#[test]
fn update_is_insert() {
    let mut db = open();
    let key = b"k".to_vec();
    db.insert(&key, &b"a".to_vec()).unwrap();
    db.update(&key, &b"b".to_vec()).unwrap();
    assert_eq!(db.get(&key).unwrap(), Some(b"b".to_vec()));
}

#[test]
fn reload_observes_same_answers() {
    let mut db = open();
    db.insert(&b"a".to_vec(), &b"1".to_vec()).unwrap();
    db.insert(&b"b".to_vec(), &b"2".to_vec()).unwrap();
    db.insert(&b"a".to_vec(), &b"3".to_vec()).unwrap();
    db.delete(&b"b".to_vec()).unwrap();
    let reopened = load(db.log.clone()).unwrap();
    assert_eq!(reopened.get(&b"a".to_vec()).unwrap(), Some(b"3".to_vec()));
    assert_eq!(reopened.get(&b"b".to_vec()).unwrap(), None);
    assert_eq!(reopened.get(&b"c".to_vec()).unwrap(), None);
}

#[test]
fn load_of_empty_log_is_empty_store() {
    let db = load(Vec::new()).unwrap();
    assert_eq!(db.get(&b"anything".to_vec()).unwrap(), None);
}

#[test]
fn load_keeps_each_keys_final_offset() {
    let mut db = open();
    db.insert(&b"x".to_vec(), &b"first".to_vec()).unwrap();
    db.insert(&b"x".to_vec(), &b"second".to_vec()).unwrap();
    let reopened = load(db.log.clone()).unwrap();
    assert_eq!(reopened.get(&b"x".to_vec()).unwrap(), Some(b"second".to_vec()));
}

#[test]
fn load_rejects_truncated_tail() {
    let mut db = open();
    db.insert(&b"a".to_vec(), &b"1".to_vec()).unwrap();
    let mut bytes = db.log.clone();
    bytes.extend_from_slice(&[1, 2, 3, 4]);
    assert_eq!(load(bytes).err(), Some(StoreError::TruncatedRecord));
}

#[test]
fn load_rejects_corrupted_payload() {
    let mut db = open();
    db.insert(&b"a".to_vec(), &b"b".to_vec()).unwrap();
    let mut bytes = db.log.clone();
    bytes[12] ^= 0xff;
    assert_eq!(load(bytes).err(), Some(StoreError::Corruption));
}

#[test]
fn record_codec_round_trips() {
    let rec = encode_record(&b"key".to_vec(), &b"value".to_vec());
    let (kv, end) = process_record(&rec, 0).unwrap();
    assert_eq!(kv.key, b"key".to_vec());
    assert_eq!(kv.value, b"value".to_vec());
    assert_eq!(end, rec.len());
    assert_eq!(end, 12 + 3 + 5);
}

#[test]
fn process_record_at_end_is_eof() {
    let rec = encode_record(&b"k".to_vec(), &b"v".to_vec());
    assert_eq!(process_record(&rec, rec.len()).err(), Some(StoreError::UnexpectedEof));
}

#[test]
fn get_at_reads_stored_offset() {
    let mut db = open();
    db.insert(&b"a".to_vec(), &b"1".to_vec()).unwrap();
    db.insert(&b"bb".to_vec(), &b"22".to_vec()).unwrap();
    let second = 12 + 1 + 1;
    let kv = db.get_at(second).unwrap();
    assert_eq!(kv.key, b"bb".to_vec());
    assert_eq!(kv.value, b"22".to_vec());
}

#[test]
fn seek_to_end_is_log_length() {
    let mut db = open();
    assert_eq!(db.seek_to_end(), 0);
    db.insert(&b"a".to_vec(), &b"1".to_vec()).unwrap();
    assert_eq!(db.seek_to_end(), 14);
}

#[test]
fn insert_ignoring_index_leaves_index_alone() {
    let mut db = open();
    let off = db.insert_ignoring_index(&b"a".to_vec(), &b"1".to_vec()).unwrap();
    assert_eq!(off, 0);
    assert_eq!(db.get(&b"a".to_vec()).unwrap(), None);
    assert_eq!(db.seek_to_end(), 14);
}

#[test]
fn find_returns_first_live_match() {
    let mut db = open();
    db.insert(&b"a".to_vec(), &b"x".to_vec()).unwrap();
    db.insert(&b"b".to_vec(), &b"y".to_vec()).unwrap();
    let found = db.find(&b"y".to_vec()).unwrap();
    assert_eq!(found, Some((14, b"y".to_vec())));
}

#[test]
fn find_skips_shadowed_records() {
    let mut db = open();
    db.insert(&b"k".to_vec(), &b"old".to_vec()).unwrap();
    db.update(&b"k".to_vec(), &b"new".to_vec()).unwrap();
    assert_eq!(db.find(&b"old".to_vec()).unwrap(), None);
    assert_eq!(db.find(&b"new".to_vec()).unwrap(), Some((16, b"new".to_vec())));
}

#[test]
fn find_missing_value_is_none() {
    let mut db = open();
    db.insert(&b"a".to_vec(), &b"1".to_vec()).unwrap();
    assert_eq!(db.find(&b"nope".to_vec()).unwrap(), None);
}

#[test]
fn empty_value_reads_back_as_absent_after_reload() {
    let mut db = open();
    let key = b"k".to_vec();
    db.insert(&key, &Vec::new()).unwrap();
    assert_eq!(db.get(&key).unwrap(), Some(Vec::new()));
    let reopened = load(db.log.clone()).unwrap();
    assert_eq!(reopened.get(&key).unwrap(), None);
}
