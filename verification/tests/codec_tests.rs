use davebase::codec::{encode_row, parse_row, Decoded};
use davebase::errors::DbError;
use davebase::paths::string_from_bytes;

// A row as the earliest segment files carried it: a literal "CRC" marker in
// the checksum field, then timestamp, sizes, key and value.
fn legacy_row(timestamp: u64, key: &[u8], value: &[u8]) -> Vec<u8> {
    let mut v: Vec<u8> = Vec::new();
    v.extend_from_slice(b"CRC");
    v.extend_from_slice(&timestamp.to_le_bytes());
    v.extend_from_slice(&(key.len() as u16).to_le_bytes());
    v.extend_from_slice(&(value.len() as u16).to_le_bytes());
    v.extend_from_slice(key);
    v.extend_from_slice(value);
    v
}

#[test]
fn test_bytes_from_file_and_convert_to_string() {
    let data = legacy_row(1584550857, b"foi", b"bazz");
    let result: Vec<u8> = data[0..3].to_vec();
    assert_eq!(result.len(), 3);

    let string = string_from_bytes(result);
    assert_eq!(string, "CRC");

    let mut ts_bytes = [0u8; 8];
    ts_bytes.copy_from_slice(&data[3..11]);
    let timestamp = u64::from_le_bytes(ts_bytes);
    assert_eq!(1584550857, timestamp);
}

#[test]
fn test_parse_row_entry() {
    let data = legacy_row(1584550857, b"foi", b"bazz");
    let result = parse_row(&data, 0, false);
    let decoded = result.unwrap();
    match decoded {
        Decoded::Row(result) => {
            assert_eq!(result.key, b"foi".to_vec());
            assert_eq!(result.value, b"bazz".to_vec());
            assert_eq!(result.value_sz, 4);
            assert_eq!(result.value_pos, 18);
            assert_eq!(result.timestamp, 1584550857);
        }
        Decoded::EndOfSegment => panic!("expected a row"),
    }
}

#[test]
fn test_encode_row_round_trip() {
    let key = b"fooz".to_vec();
    let value = b"goop".to_vec();
    let row = encode_row(&key, &value, 1584550857).unwrap();
    // Strict mode: the checksum written at encode time verifies at decode
    // time.
    match parse_row(&row, 0, true).unwrap() {
        Decoded::Row(e) => {
            assert_eq!(e.key, key);
            assert_eq!(e.value, value);
            assert_eq!(e.timestamp, 1584550857);
            assert_eq!(e.value_sz, 4);
            assert_eq!(e.value_pos, 19);
        }
        Decoded::EndOfSegment => panic!("expected a row"),
    }
}

#[test]
fn test_encode_row_layout() {
    let key = b"ab".to_vec();
    let value = b"xyz".to_vec();
    let row = encode_row(&key, &value, 7).unwrap();
    assert_eq!(row.len(), 15 + 2 + 3);
    assert_eq!(&row[3..11], &7u64.to_le_bytes());
    assert_eq!(&row[11..13], &2u16.to_le_bytes());
    assert_eq!(&row[13..15], &3u16.to_le_bytes());
    assert_eq!(&row[15..17], b"ab");
    assert_eq!(&row[17..20], b"xyz");
}

#[test]
fn test_checksum_detects_corruption() {
    let key = b"k".to_vec();
    let value = b"v".to_vec();
    let mut row = encode_row(&key, &value, 1).unwrap();
    let last = row.len() - 1;
    row[last] ^= 0xFF;
    // Strict mode refuses the garbled row; lenient mode ignores the
    // checksum field and reads the bytes as they stand.
    assert!(matches!(parse_row(&row, 0, true), Err(DbError::CorruptSegment)));
    assert!(matches!(parse_row(&row, 0, false), Ok(Decoded::Row(_))));
}

#[test]
fn test_torn_row_is_corrupt() {
    let data = legacy_row(1584550857, b"foi", b"bazz");
    // A clean boundary is the end of the segment, not an error.
    assert!(matches!(
        parse_row(&data, data.len(), false),
        Ok(Decoded::EndOfSegment)
    ));
    // A row cut short mid-header or mid-value is corruption.
    let torn_header: Vec<u8> = data[0..10].to_vec();
    assert!(matches!(
        parse_row(&torn_header, 0, false),
        Err(DbError::CorruptSegment)
    ));
    let torn_value: Vec<u8> = data[0..20].to_vec();
    assert!(matches!(
        parse_row(&torn_value, 0, false),
        Err(DbError::CorruptSegment)
    ));
}

#[test]
fn test_encode_row_size_limits() {
    let big = vec![b'x'; 65536];
    let small = b"v".to_vec();
    assert!(matches!(encode_row(&big, &small, 0), Err(DbError::KeyTooLarge)));
    assert!(matches!(
        encode_row(&small, &big, 0),
        Err(DbError::ValueTooLarge)
    ));
    // 65535 bytes still fit the 16-bit size fields.
    let edge = vec![b'x'; 65535];
    assert!(encode_row(&edge, &small, 0).is_ok());
}

#[test]
fn test_string_from_bytes_decodes_utf8() {
    // One multi-byte character: the bytes are decoded, not handed back.
    let bytes = vec![0xC3u8, 0xA9u8];
    let s = string_from_bytes(bytes);
    assert_eq!(s, "\u{e9}");
    assert_eq!(s.chars().count(), 1);
}
