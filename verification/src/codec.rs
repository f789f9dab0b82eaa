use crate::errors::DbError;
use vstd::bytes::*;
use vstd::prelude::*;
use vstd::slice::*;

verus! {

// An on-disk row is laid out as
//
//     checksum:3  timestamp:8  key_size:2  value_size:2  key:key_size  value:value_size
//
// with every multi-byte integer little-endian. The checksum covers the twelve
// header bytes after it together with the key and value bytes.

/// One step of the rolling checksum: absorb byte `b` into accumulator `acc`.
pub open spec fn checksum_step(acc: u32, b: u8) -> u32 {
    ((acc * 31 + b) % 0x1000000) as u32
}

/// The rolling checksum of `s` starting from accumulator `acc`.
pub open spec fn checksum_acc(s: Seq<u8>, acc: u32) -> u32
    decreases s.len(),
{
    if s.len() <= 0 {
        acc
    } else {
        checksum_acc(s.drop_first(), checksum_step(acc, s.first()))
    }
}

/// The checksum of a byte sequence: a value below 2^24, stored in three bytes.
pub open spec fn spec_checksum(s: Seq<u8>) -> u32 {
    checksum_acc(s, 0)
}

/// The three little-endian bytes that store a checksum value.
pub open spec fn checksum_bytes(c: u32) -> Seq<u8> {
    seq![(c % 256) as u8, ((c / 256) % 256) as u8, ((c / 65536) % 256) as u8]
}

/// Computes the rolling checksum of `data[start..end]`.
pub fn checksum_range(data: &Vec<u8>, start: usize, end: usize) -> (c: u32)
    requires
        start <= end <= data@.len(),
    ensures
        c == spec_checksum(data@.subrange(start as int, end as int)),
        c < 0x1000000,
{
    let mut acc: u32 = 0;
    let mut i: usize = start;
    while i < end
        invariant
            start <= i <= end <= data@.len(),
            acc < 0x1000000,
            checksum_acc(data@.subrange(i as int, end as int), acc) == spec_checksum(
                data@.subrange(start as int, end as int),
            ),
        decreases end - i,
    {
        proof {
            let sub = data@.subrange(i as int, end as int);
            assert(sub.first() == data@[i as int]);
            assert(sub.drop_first() =~= data@.subrange(i + 1, end as int));
        }
        acc = (acc * 31 + (data[i] as u32)) % 0x1000000;
        i = i + 1;
    }
    acc
}

/// The twelve header bytes after the checksum, followed by key and value.
pub open spec fn spec_payload(timestamp: u64, key: Seq<u8>, value: Seq<u8>) -> Seq<u8> {
    spec_u64_to_le_bytes(timestamp) + spec_u16_to_le_bytes(key.len() as u16)
        + spec_u16_to_le_bytes(value.len() as u16) + key + value
}

/// A complete encoded row: checksum bytes, then the payload they cover.
pub open spec fn spec_encode_row(timestamp: u64, key: Seq<u8>, value: Seq<u8>) -> Seq<u8> {
    checksum_bytes(spec_checksum(spec_payload(timestamp, key, value))) + spec_payload(
        timestamp,
        key,
        value,
    )
}

/// The number of bytes an encoded row occupies.
pub open spec fn spec_row_len(key: Seq<u8>, value: Seq<u8>) -> int {
    15 + key.len() as int + value.len() as int
}

/// A row as read back from a segment. `value_pos` is the offset of the first
/// value byte from the start of the segment, and `value_sz` its length.
#[derive(Debug)]
pub struct RowEntry {
    pub key: Vec<u8>,
    pub value: Vec<u8>,
    pub value_sz: u16,
    pub value_pos: u64,
    pub timestamp: u64,
}

/// The mathematical content of a row found in a segment.
pub ghost struct ParsedRow {
    pub timestamp: u64,
    pub key: Seq<u8>,
    pub value: Seq<u8>,
    pub value_pos: int,
}

impl View for RowEntry {
    type V = ParsedRow;

    open spec fn view(&self) -> ParsedRow {
        ParsedRow {
            timestamp: self.timestamp,
            key: self.key@,
            value: self.value@,
            value_pos: self.value_pos as int,
        }
    }
}

/// The position just past a parsed row.
pub open spec fn spec_row_end(row: ParsedRow) -> int {
    row.value_pos + row.value.len()
}

/// The row starting at offset `pos` of `data`, if a well-formed one lies
/// there. In strict mode a row whose stored checksum does not match its
/// payload is not well-formed; otherwise the checksum bytes are ignored.
pub open spec fn spec_row_at(data: Seq<u8>, pos: int, strict: bool) -> Option<ParsedRow> {
    if !(0 <= pos && pos + 15 <= data.len()) {
        None
    } else {
        let ksz = spec_u16_from_le_bytes(data.subrange(pos + 11, pos + 13)) as int;
        let vsz = spec_u16_from_le_bytes(data.subrange(pos + 13, pos + 15)) as int;
        if pos + 15 + ksz + vsz > data.len() {
            None
        } else if strict && data.subrange(pos, pos + 3) != checksum_bytes(
            spec_checksum(data.subrange(pos + 3, pos + 15 + ksz + vsz)),
        ) {
            None
        } else {
            Some(
                ParsedRow {
                    timestamp: spec_u64_from_le_bytes(data.subrange(pos + 3, pos + 11)),
                    key: data.subrange(pos + 15, pos + 15 + ksz),
                    value: data.subrange(pos + 15 + ksz, pos + 15 + ksz + vsz),
                    value_pos: pos + 15 + ksz,
                },
            )
        }
    }
}

/// All rows of `data` from offset `pos` to the end, or `None` if the tail is
/// not a clean sequence of well-formed rows.
pub open spec fn spec_parse_rows(data: Seq<u8>, pos: int, strict: bool) -> Option<Seq<ParsedRow>>
    decreases data.len() - pos,
    when 0 <= pos <= data.len()
{
    if pos == data.len() {
        Some(Seq::empty())
    } else {
        match spec_row_at(data, pos, strict) {
            None => None,
            Some(row) => match spec_parse_rows(data, spec_row_end(row), strict) {
                None => None,
                Some(rest) => Some(seq![row] + rest),
            },
        }
    }
}

/// The result of reading one row: either a clean end of the segment, or the
/// row at the cursor.
pub enum Decoded {
    EndOfSegment,
    Row(RowEntry),
}

/// Reads the row starting at offset `pos` of `data`. Returns
/// `EndOfSegment` exactly when no bytes remain, and `CorruptSegment` when
/// bytes remain but no well-formed row lies at `pos`.
pub fn parse_row(data: &Vec<u8>, pos: usize, strict: bool) -> (r: Result<Decoded, DbError>)
    requires
        pos <= data@.len(),
    ensures
        pos == data@.len() ==> (r matches Ok(d) && d is EndOfSegment),
        pos < data@.len() ==> match spec_row_at(data@, pos as int, strict) {
            Some(row) => r matches Ok(d) && d matches Decoded::Row(e) && e@ == row
                && e.value_sz == row.value.len(),
            None => r == Err::<Decoded, DbError>(DbError::CorruptSegment),
        },
{
    let len = data.len();
    if pos == len {
        return Ok(Decoded::EndOfSegment);
    }
    if len - pos < 15 {
        return Err(DbError::CorruptSegment);
    }
    let ksz = u16_from_le_bytes(slice_subrange(data.as_slice(), pos + 11, pos + 13));
    let vsz = u16_from_le_bytes(slice_subrange(data.as_slice(), pos + 13, pos + 15));
    let rest = len - pos - 15;
    if (ksz as usize) > rest || (vsz as usize) > rest - (ksz as usize) {
        return Err(DbError::CorruptSegment);
    }
    let row_end = pos + 15 + (ksz as usize) + (vsz as usize);
    if strict {
        let c = checksum_range(data, pos + 3, row_end);
        let b0 = (c % 256) as u8;
        let b1 = ((c / 256) % 256) as u8;
        let b2 = ((c / 65536) % 256) as u8;
        if data[pos] != b0 || data[pos + 1] != b1 || data[pos + 2] != b2 {
            proof {
                let stored = data@.subrange(pos as int, pos + 3);
                let expect = checksum_bytes(
                    spec_checksum(data@.subrange(pos + 3, row_end as int)),
                );
                assert(stored.len() == 3);
                assert(stored[0] == data@[pos as int]);
                assert(stored[1] == data@[pos + 1]);
                assert(stored[2] == data@[pos + 2]);
                assert(stored != expect);
            }
            return Err(DbError::CorruptSegment);
        }
        proof {
            let stored = data@.subrange(pos as int, pos + 3);
            let expect = checksum_bytes(spec_checksum(data@.subrange(pos + 3, row_end as int)));
            assert(stored =~= expect);
        }
    }
    let timestamp = u64_from_le_bytes(slice_subrange(data.as_slice(), pos + 3, pos + 11));
    let key = slice_to_vec(slice_subrange(data.as_slice(), pos + 15, pos + 15 + (ksz as usize)));
    let value_pos = pos + 15 + (ksz as usize);
    let value = slice_to_vec(slice_subrange(data.as_slice(), value_pos, row_end));
    Ok(
        Decoded::Row(
            RowEntry {
                key,
                value,
                value_sz: vsz,
                value_pos: value_pos as u64,
                timestamp,
            },
        ),
    )
}

/// Encodes one row. A key or value longer than the 16-bit size fields can
/// describe is rejected rather than truncated.
pub fn encode_row(key: &Vec<u8>, value: &Vec<u8>, timestamp: u64) -> (r: Result<Vec<u8>, DbError>)
    ensures
        key@.len() > 0xFFFF ==> r == Err::<Vec<u8>, DbError>(DbError::KeyTooLarge),
        key@.len() <= 0xFFFF && value@.len() > 0xFFFF ==> r == Err::<Vec<u8>, DbError>(
            DbError::ValueTooLarge,
        ),
        key@.len() <= 0xFFFF && value@.len() <= 0xFFFF ==> (r matches Ok(row) && row@
            == spec_encode_row(timestamp, key@, value@)),
{
    if key.len() > 0xFFFF {
        return Err(DbError::KeyTooLarge);
    }
    if value.len() > 0xFFFF {
        return Err(DbError::ValueTooLarge);
    }
    let mut payload = u64_to_le_bytes(timestamp);
    let mut ks = u16_to_le_bytes(key.len() as u16);
    let mut vs = u16_to_le_bytes(value.len() as u16);
    payload.append(&mut ks);
    payload.append(&mut vs);
    payload.extend_from_slice(key.as_slice());
    payload.extend_from_slice(value.as_slice());
    proof {
        assert(payload@ =~= spec_payload(timestamp, key@, value@));
    }
    let c = checksum_range(&payload, 0, payload.len());
    proof {
        assert(payload@.subrange(0, payload@.len() as int) =~= payload@);
    }
    let mut row: Vec<u8> = Vec::new();
    row.push((c % 256) as u8);
    row.push(((c / 256) % 256) as u8);
    row.push(((c / 65536) % 256) as u8);
    let mut p = payload;
    row.append(&mut p);
    proof {
        assert(row@ =~= spec_encode_row(timestamp, key@, value@));
    }
    Ok(row)
}

} // verus!
