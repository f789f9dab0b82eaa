use davebase::errors::DbError;
use davebase::store::{DaveBase, Segment};

const TEST_MAX_BYTES: u64 = 512;
const TS: u64 = 1584550857;

fn legacy_row(timestamp: u64, key: &[u8], value: &[u8]) -> Vec<u8> {
    let mut v: Vec<u8> = Vec::new();
    v.extend_from_slice(b"CRC");
    v.extend_from_slice(&timestamp.to_le_bytes());
    v.extend_from_slice(&(key.len() as u16).to_le_bytes());
    v.extend_from_slice(&(value.len() as u16).to_le_bytes());
    v.extend_from_slice(key);
    v.extend_from_slice(value);
    v
}

fn test_data_segments() -> Vec<Segment> {
    let seg1 = Segment {
        id: 1,
        data: legacy_row(TS, b"foi", b"bazz"),
    };
    let mut data2 = legacy_row(TS, b"foi", b"bazz");
    data2.extend_from_slice(&legacy_row(TS, b"bong", b"howitzer"));
    let seg2 = Segment { id: 2, data: data2 };
    vec![seg1, seg2]
}

fn empty_db(max_bytes: u64) -> DaveBase {
    DaveBase::new(Vec::new(), max_bytes, true).unwrap()
}

#[test]
fn test_get_value() {
    let db = DaveBase::new(test_data_segments(), TEST_MAX_BYTES, false).unwrap();
    let _result = db.get(&b"foi".to_vec());
}

#[test]
fn test_get_from_db() {
    let db = DaveBase::new(test_data_segments(), TEST_MAX_BYTES, false).unwrap();
    let result = db.get(&b"bong".to_vec());
    match result {
        Ok(r) => {
            if let Some(value) = r {
                println!("value is: {}", String::from_utf8(value.clone()).unwrap());
                assert_eq!(value, b"howitzer".to_vec());
            } else {
                panic!("Should have been a value");
            }
        }
        Err(_e) => panic!("Shouldnt be an error"),
    }
}

#[test]
fn test_set_then_get() {
    // set("foi","bazz") then set("bong","howitzer") into an empty store
    // with a threshold large enough to avoid rollover.
    let mut db = empty_db(10 * 1024);
    db.set(b"foi".to_vec(), b"bazz".to_vec(), TS).unwrap();
    db.set(b"bong".to_vec(), b"howitzer".to_vec(), TS).unwrap();
    assert_eq!(db.get(&b"foi".to_vec()).unwrap(), Some(b"bazz".to_vec()));
    assert_eq!(
        db.get(&b"bong".to_vec()).unwrap(),
        Some(b"howitzer".to_vec())
    );
    // Both rows went into the first segment, bong after foi.
    let foi = *db.locate(&b"foi".to_vec()).unwrap();
    let bong = *db.locate(&b"bong".to_vec()).unwrap();
    assert_eq!(foi.file_id, 1);
    assert_eq!(bong.file_id, 1);
    assert!(bong.value_pos > foi.value_pos);
    assert_eq!(foi.value_pos, 18);
    assert_eq!(bong.value_pos, 41);
}

#[test]
fn test_overwrite_same_key() {
    let mut db = empty_db(10 * 1024);
    db.set(b"fooz".to_vec(), b"baz".to_vec(), TS).unwrap();
    db.set(b"something".to_vec(), b"x".to_vec(), TS).unwrap();
    db.set(b"fooz".to_vec(), b"goop".to_vec(), TS).unwrap();
    assert_eq!(db.get(&b"fooz".to_vec()).unwrap(), Some(b"goop".to_vec()));
    assert_eq!(
        db.get(&b"something".to_vec()).unwrap(),
        Some(b"x".to_vec())
    );
}

#[test]
fn test_last_write_wins_across_restart() {
    let mut db = empty_db(10 * 1024);
    db.set(b"k".to_vec(), b"v1".to_vec(), 1).unwrap();
    db.set(b"k".to_vec(), b"v2".to_vec(), 2).unwrap();
    db.set(b"k".to_vec(), b"v3".to_vec(), 3).unwrap();
    assert_eq!(db.get(&b"k".to_vec()).unwrap(), Some(b"v3".to_vec()));
    // Close and reopen over the same segments: the index is rebuilt from
    // the log, and the last write still wins.
    let reopened = DaveBase::new(db.segments().clone(), 10 * 1024, true).unwrap();
    assert_eq!(reopened.get(&b"k".to_vec()).unwrap(), Some(b"v3".to_vec()));
    assert_eq!(reopened.key_count(), 1);
}

#[test]
fn test_rotation_boundary() {
    // Each row here is 17 bytes. The write that pushes segment 1 past 20
    // bytes stays in segment 1 but opens segment 2, which becomes active in
    // the same call; the next write lands there. Prior segments stay
    // unchanged and readable.
    let mut db = empty_db(20);
    let first = db.set(b"a".to_vec(), b"1".to_vec(), TS).unwrap();
    assert_eq!(first.segment_id, 1);
    assert_eq!(db.active_segment_id(), 1);
    let second = db.set(b"b".to_vec(), b"2".to_vec(), TS).unwrap();
    assert_eq!(second.segment_id, 1);
    assert_eq!(db.active_segment_id(), 2);
    assert_eq!(db.segments().len(), 2);
    assert_eq!(db.segments()[0].data.len(), 34);
    let third = db.set(b"c".to_vec(), b"3".to_vec(), TS).unwrap();
    assert_eq!(third.segment_id, 2);
    assert_eq!(db.active_segment_id(), 2);
    assert_eq!(db.segments().len(), 2);
    assert_eq!(db.segments()[0].data.len(), 34);
    assert_eq!(db.get(&b"a".to_vec()).unwrap(), Some(b"1".to_vec()));
    assert_eq!(db.get(&b"b".to_vec()).unwrap(), Some(b"2".to_vec()));
    assert_eq!(db.get(&b"c".to_vec()).unwrap(), Some(b"3".to_vec()));
}

#[test]
fn test_merge_reclaims_space() {
    let mut db = empty_db(10 * 1024);
    db.set(b"foo".to_vec(), b"one".to_vec(), 1).unwrap();
    db.set(b"foo".to_vec(), b"two".to_vec(), 2).unwrap();
    db.set(b"bar".to_vec(), b"three".to_vec(), 3).unwrap();
    let before = db.get_total_data_size();
    let old_active = db.active_segment_id();
    db.merge().unwrap();
    // Every live key reads back as before.
    assert_eq!(db.get(&b"foo".to_vec()).unwrap(), Some(b"two".to_vec()));
    assert_eq!(db.get(&b"bar".to_vec()).unwrap(), Some(b"three".to_vec()));
    assert_eq!(db.key_count(), 2);
    // The superseded row for foo is gone: the store shrank.
    let after = db.get_total_data_size();
    assert!(after <= before);
    assert!(after < before);
    // Old segment ids are retired, never reused.
    for seg in db.segments() {
        assert!(seg.id > old_active);
    }
    // The compacted store still takes writes and survives a reopen.
    db.set(b"baz".to_vec(), b"four".to_vec(), 4).unwrap();
    let reopened = DaveBase::new(db.segments().clone(), 10 * 1024, true).unwrap();
    assert_eq!(reopened.get(&b"foo".to_vec()).unwrap(), Some(b"two".to_vec()));
    assert_eq!(reopened.get(&b"baz".to_vec()).unwrap(), Some(b"four".to_vec()));
}

#[test]
fn test_merge_empty_store() {
    let mut db = empty_db(10 * 1024);
    db.merge().unwrap();
    assert_eq!(db.get_total_data_size(), 0);
    assert_eq!(db.get(&b"k".to_vec()).unwrap(), None);
    db.set(b"k".to_vec(), b"v".to_vec(), TS).unwrap();
    assert_eq!(db.get(&b"k".to_vec()).unwrap(), Some(b"v".to_vec()));
}

#[test]
fn test_clear_completeness() {
    let mut db = empty_db(10 * 1024);
    db.set(b"foi".to_vec(), b"bazz".to_vec(), TS).unwrap();
    db.set(b"bong".to_vec(), b"howitzer".to_vec(), TS).unwrap();
    db.clear_all_data();
    assert_eq!(db.get(&b"foi".to_vec()).unwrap(), None);
    assert_eq!(db.get(&b"bong".to_vec()).unwrap(), None);
    assert_eq!(db.get_total_data_size(), 0);
    assert_eq!(db.key_count(), 0);
    // The engine stays usable in place.
    db.set(b"again".to_vec(), b"works".to_vec(), TS).unwrap();
    assert_eq!(db.get(&b"again".to_vec()).unwrap(), Some(b"works".to_vec()));
}

#[test]
fn test_set_size_limits() {
    let mut db = empty_db(10 * 1024);
    let big = vec![b'x'; 65536];
    assert!(matches!(
        db.set(big.clone(), b"v".to_vec(), TS),
        Err(DbError::KeyTooLarge)
    ));
    assert!(matches!(
        db.set(b"k".to_vec(), big, TS),
        Err(DbError::ValueTooLarge)
    ));
    // A failed set leaves the store unchanged.
    assert_eq!(db.get_total_data_size(), 0);
    assert_eq!(db.get(&b"k".to_vec()).unwrap(), None);
}

#[test]
fn test_total_data_size_counts_all_segments() {
    let mut db = empty_db(20);
    db.set(b"a".to_vec(), b"1".to_vec(), TS).unwrap();
    db.set(b"b".to_vec(), b"2".to_vec(), TS).unwrap();
    db.set(b"c".to_vec(), b"3".to_vec(), TS).unwrap();
    // Two segments of 34 and 17 bytes.
    assert_eq!(db.get_total_data_size(), 51);
}
