use davebase::errors::DbError;
use davebase::paths::{dat_file_name, segment_id_from_file_name};
use davebase::store::{init_key_dir, read_val_in, DaveBase, Segment};

fn legacy_row(timestamp: u64, key: &[u8], value: &[u8]) -> Vec<u8> {
    let mut v: Vec<u8> = Vec::new();
    v.extend_from_slice(b"CRC");
    v.extend_from_slice(&timestamp.to_le_bytes());
    v.extend_from_slice(&(key.len() as u16).to_le_bytes());
    v.extend_from_slice(&(value.len() as u16).to_le_bytes());
    v.extend_from_slice(key);
    v.extend_from_slice(value);
    v
}

// The two segments the engine's own tests historically ran against: segment
// 1 holds foi -> bazz; segment 2 holds foi -> bazz again, then
// bong -> howitzer.
fn test_data_segments() -> Vec<Segment> {
    let seg1 = Segment {
        id: 1,
        data: legacy_row(1584550857, b"foi", b"bazz"),
    };
    let mut data2 = legacy_row(1584550857, b"foi", b"bazz");
    data2.extend_from_slice(&legacy_row(1584550857, b"bong", b"howitzer"));
    let seg2 = Segment { id: 2, data: data2 };
    vec![seg1, seg2]
}

#[test]
fn test_get_value_from_file() {
    let segments = test_data_segments();
    // The value of segment 1 sits at offset 18, 4 bytes long.
    let result = read_val_in(&segments, 1, 18, 4)
        .expect("Cant read val")
        .unwrap();
    assert_eq!(b"bazz".to_vec(), result);
}

#[test]
fn test_init_key_dir() {
    let segments = test_data_segments();
    let key_dir = init_key_dir(&segments, false).unwrap();
    assert_eq!(2, key_dir.len());
    let foi_key = key_dir.lookup(&b"foi".to_vec());
    // should be in file 2
    assert_eq!(2, foi_key.unwrap().file_id);
    // in position 18
    assert_eq!(18, foi_key.unwrap().value_pos);
    // with size of 4
    assert_eq!(4, foi_key.unwrap().value_size);

    let bong = key_dir.lookup(&b"bong".to_vec()).unwrap();
    assert_eq!(2, bong.file_id);
    assert_eq!(41, bong.value_pos);
    assert_eq!(8, bong.value_size);

    let non_key = key_dir.lookup(&b"whahaha".to_vec());
    match non_key {
        Some(_) => panic!("shouldnt happen"),
        None => assert_eq!(1, 1),
    }
}

#[test]
fn test_rebuild_twice_same_directory() {
    // Recovery is a function of the segment contents alone: rebuilding
    // twice yields identical mappings.
    let segments = test_data_segments();
    let a = init_key_dir(&segments, false).unwrap();
    let b = init_key_dir(&segments, false).unwrap();
    assert_eq!(a.len(), b.len());
    for key in [b"foi".to_vec(), b"bong".to_vec()] {
        let la = a.lookup(&key).unwrap();
        let lb = b.lookup(&key).unwrap();
        assert_eq!(la, lb);
    }
}

#[test]
fn test_corrupt_segment_is_fatal() {
    let mut segments = test_data_segments();
    // Tear the tail of the last segment: recovery must refuse to build.
    let torn = segments[1].data.len() - 3;
    segments[1].data.truncate(torn);
    assert!(matches!(
        DaveBase::new(segments, 512, false),
        Err(DbError::CorruptSegment)
    ));
}

#[test]
fn test_strict_mode_refuses_placeholder_checksums() {
    // The historical segments carry a literal "CRC" marker, not a real
    // checksum: a strict engine refuses them, a lenient one accepts them.
    let segments = test_data_segments();
    assert!(matches!(
        DaveBase::new(test_data_segments(), 512, true),
        Err(DbError::CorruptSegment)
    ));
    assert!(DaveBase::new(segments, 512, false).is_ok());
}

#[test]
fn test_segment_ids_out_of_order() {
    let mut segments = test_data_segments();
    segments.reverse();
    assert!(matches!(
        DaveBase::new(segments, 512, false),
        Err(DbError::InvalidSegmentName)
    ));
    let zero_id = vec![Segment { id: 0, data: Vec::new() }];
    assert!(matches!(
        DaveBase::new(zero_id, 512, false),
        Err(DbError::InvalidSegmentName)
    ));
}

#[test]
fn test_read_val_in_inconsistent_location() {
    let segments = test_data_segments();
    // A location naming a segment that does not exist, or bytes past a
    // segment's end, is an index/log inconsistency, not a miss.
    assert_eq!(read_val_in(&segments, 9, 0, 1), Err(DbError::StorageIO));
    assert_eq!(read_val_in(&segments, 1, 18, 200), Err(DbError::StorageIO));
}

#[test]
fn test_segment_id_from_file_name() {
    assert_eq!(segment_id_from_file_name(b"1.dat"), Ok(1));
    assert_eq!(segment_id_from_file_name(b"23.dat"), Ok(23));
    for bad in [
        b"abc.dat" as &[u8],
        b"0.dat",
        b"01.dat",
        b"1.log",
        b".dat",
        b"12",
        b"-3.dat",
        b"1x.dat",
    ] {
        assert_eq!(
            segment_id_from_file_name(bad),
            Err(DbError::InvalidSegmentName)
        );
    }
}

#[test]
fn test_dat_file_name() {
    let data_dir = "data";
    let path = dat_file_name(data_dir, 23);
    println!("path = {}", path);
}

#[test]
fn test_dat_file_name_round_trip() {
    let path = dat_file_name("data", 23);
    assert_eq!(path, "data/23.dat");
    let name = &path.as_bytes()[5..];
    assert_eq!(segment_id_from_file_name(name), Ok(23));
}
