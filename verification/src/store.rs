use crate::codec::{
    spec_encode_row, spec_parse_rows, spec_payload, spec_row_at, spec_row_end, spec_row_len,
    checksum_bytes, spec_checksum, encode_row, parse_row, Decoded, ParsedRow, RowEntry,
};
use crate::errors::DbError;
use crate::keydir::{entries_bytes, entry_bytes, KeyDirectory, ValueLocation};
use vstd::bytes::{spec_u16_from_le_bytes, spec_u16_to_le_bytes, spec_u64_from_le_bytes,
    spec_u64_to_le_bytes};
use vstd::prelude::*;
use vstd::slice::{slice_subrange, slice_to_vec};

verus! {

/// One segment of the log: an append-only run of encoded rows, identified by
/// a positive integer. Exactly one segment — the highest-numbered — is open
/// for append at any time.
#[derive(Clone, Debug)]
pub struct Segment {
    pub id: usize,
    pub data: Vec<u8>,
}

/// The mathematical content of a segment.
pub ghost struct SegmentView {
    pub id: usize,
    pub data: Seq<u8>,
}

impl View for Segment {
    type V = SegmentView;

    open spec fn view(&self) -> SegmentView {
        SegmentView { id: self.id, data: self.data@ }
    }
}

/// The contents of a run of segments.
pub open spec fn segs_view(segs: Seq<Segment>) -> Seq<SegmentView> {
    Seq::new(segs.len(), |i: int| segs[i]@)
}

/// A row together with the segment it lies in: what the key directory knows
/// about one live key.
pub ghost struct LiveRow {
    pub file_id: usize,
    pub row: ParsedRow,
}

/// The index record a live row gives rise to.
pub open spec fn loc_of(l: LiveRow) -> ValueLocation {
    ValueLocation {
        file_id: l.file_id,
        timestamp: l.row.timestamp,
        value_pos: l.row.value_pos as u64,
        value_size: l.row.value.len() as u16,
    }
}

/// Replays the rows of segment `file_id` over `m` in order: every row
/// overwrites any earlier entry for its key, so the last row for a key wins.
pub open spec fn replay_rows(
    m: Map<Seq<u8>, LiveRow>,
    rows: Seq<ParsedRow>,
    file_id: usize,
) -> Map<Seq<u8>, LiveRow>
    decreases rows.len(),
{
    if rows.len() == 0 {
        m
    } else {
        replay_rows(
            m.insert(rows.first().key, LiveRow { file_id, row: rows.first() }),
            rows.drop_first(),
            file_id,
        )
    }
}

/// Replays every segment in the given order, oldest first. `None` when some
/// segment does not parse cleanly to its end.
pub open spec fn recover_map(segs: Seq<SegmentView>, strict: bool) -> Option<
    Map<Seq<u8>, LiveRow>,
>
    decreases segs.len(),
{
    if segs.len() == 0 {
        Some(Map::empty())
    } else {
        match recover_map(segs.drop_last(), strict) {
            None => None,
            Some(m) => match spec_parse_rows(segs.last().data, 0, strict) {
                None => None,
                Some(rows) => Some(replay_rows(m, rows, segs.last().id)),
            },
        }
    }
}

/// The key directory that recovery builds.
pub open spec fn locs_of(m: Map<Seq<u8>, LiveRow>) -> Map<Seq<u8>, ValueLocation> {
    m.map_values(|l: LiveRow| loc_of(l))
}

/// The key-to-value mapping the live rows describe.
pub open spec fn values_of(m: Map<Seq<u8>, LiveRow>) -> Map<Seq<u8>, Seq<u8>> {
    m.map_values(|l: LiveRow| l.row.value)
}

/// The offset of the first byte of a row.
pub open spec fn row_start(row: ParsedRow) -> int {
    row.value_pos - row.key.len() - 15
}

/// A parsed row lies embedded in `data`: its key and value are exactly the
/// bytes at its recorded offsets, and its size fields fit their width.
pub open spec fn row_ok(data: Seq<u8>, row: ParsedRow) -> bool {
    &&& 0 <= row_start(row)
    &&& row.value_pos == row_start(row) + 15 + row.key.len()
    &&& spec_row_end(row) <= data.len()
    &&& row.key.len() <= 0xFFFF
    &&& row.value.len() <= 0xFFFF
    &&& row.key == data.subrange(row.value_pos - row.key.len(), row.value_pos)
    &&& row.value == data.subrange(row.value_pos, spec_row_end(row))
}

/// Rows parsed from `pos` are embedded back to back: the first starts at
/// `pos`, each next one starts where the previous ended, and the last ends at
/// the end of the data.
proof fn lemma_parse_rows_props(data: Seq<u8>, pos: int, strict: bool)
    requires
        0 <= pos <= data.len(),
        spec_parse_rows(data, pos, strict) is Some,
    ensures
        ({
            let rows = spec_parse_rows(data, pos, strict).unwrap();
            &&& forall|i: int| 0 <= i < rows.len() ==> row_ok(data, #[trigger] rows[i])
            &&& rows.len() > 0 ==> row_start(rows[0]) == pos
            &&& forall|i: int|
                0 < i < rows.len() ==> row_start(#[trigger] rows[i]) == spec_row_end(rows[i - 1])
            &&& rows.len() > 0 ==> spec_row_end(rows.last()) == data.len()
            &&& rows.len() == 0 ==> pos == data.len()
        }),
    decreases data.len() - pos,
{
    let rows = spec_parse_rows(data, pos, strict).unwrap();
    if pos == data.len() {
    } else {
        let row = spec_row_at(data, pos, strict).unwrap();
        let rest = spec_parse_rows(data, spec_row_end(row), strict).unwrap();
        lemma_parse_rows_props(data, spec_row_end(row), strict);
        assert(rows == seq![row] + rest);
        assert(row_ok(data, row));
        assert forall|i: int| 0 <= i < rows.len() implies row_ok(data, #[trigger] rows[i]) by {
            if i > 0 {
                assert(rows[i] == rest[i - 1]);
            }
        }
        assert forall|i: int| 0 < i < rows.len() implies row_start(#[trigger] rows[i])
            == spec_row_end(rows[i - 1]) by {
            if i == 1 {
                assert(rows[1] == rest[0]);
            } else {
                assert(rows[i] == rest[i - 1] && rows[i - 1] == rest[i - 2]);
            }
        }
        if rest.len() > 0 {
            assert(rows.last() == rest.last());
        }
    }
}

/// Appending bytes to a segment leaves the parse of the existing bytes as a
/// prefix: the rows of the extended segment are the old rows followed by the
/// rows of the extension.
proof fn lemma_parse_rows_append(data: Seq<u8>, ext: Seq<u8>, pos: int, strict: bool)
    requires
        0 <= pos <= data.len(),
        spec_parse_rows(data, pos, strict) is Some,
        spec_parse_rows(data + ext, data.len() as int, strict) is Some,
    ensures
        spec_parse_rows(data + ext, pos, strict) == Some(
            spec_parse_rows(data, pos, strict).unwrap() + spec_parse_rows(
                data + ext,
                data.len() as int,
                strict,
            ).unwrap(),
        ),
    decreases data.len() - pos,
{
    let whole = data + ext;
    if pos == data.len() {
        assert(spec_parse_rows(data, pos, strict).unwrap() + spec_parse_rows(
            whole,
            data.len() as int,
            strict,
        ).unwrap() =~= spec_parse_rows(whole, data.len() as int, strict).unwrap());
    } else {
        let row = spec_row_at(data, pos, strict).unwrap();
        assert(data.subrange(pos + 11, pos + 13) =~= whole.subrange(pos + 11, pos + 13));
        assert(data.subrange(pos + 13, pos + 15) =~= whole.subrange(pos + 13, pos + 15));
        let ksz = spec_u16_from_le_bytes(data.subrange(pos + 11, pos + 13)) as int;
        let vsz = spec_u16_from_le_bytes(data.subrange(pos + 13, pos + 15)) as int;
        assert(pos + 15 + ksz + vsz <= data.len());
        assert(data.subrange(pos, pos + 3) =~= whole.subrange(pos, pos + 3));
        assert(data.subrange(pos + 3, pos + 15 + ksz + vsz) =~= whole.subrange(
            pos + 3,
            pos + 15 + ksz + vsz,
        ));
        assert(data.subrange(pos + 3, pos + 11) =~= whole.subrange(pos + 3, pos + 11));
        assert(data.subrange(pos + 15, pos + 15 + ksz) =~= whole.subrange(pos + 15, pos + 15 + ksz));
        assert(data.subrange(pos + 15 + ksz, pos + 15 + ksz + vsz) =~= whole.subrange(
            pos + 15 + ksz,
            pos + 15 + ksz + vsz,
        ));
        assert(spec_row_at(whole, pos, strict) == Some(row));
        lemma_parse_rows_append(data, ext, spec_row_end(row), strict);
        let old_rest = spec_parse_rows(data, spec_row_end(row), strict).unwrap();
        let ext_rows = spec_parse_rows(whole, data.len() as int, strict).unwrap();
        assert(spec_parse_rows(data, pos, strict).unwrap() + ext_rows =~= seq![row] + (old_rest
            + ext_rows));
    }
}

/// A window of a suffix is the shifted window of the whole.
proof fn lemma_subrange_shift(data: Seq<u8>, pos: int, a: int, b: int)
    requires
        0 <= pos <= data.len(),
        0 <= a <= b,
        pos + b <= data.len(),
    ensures
        data.subrange(pos + a, pos + b) == data.subrange(pos, data.len() as int).subrange(a, b),
{
    let lhs = data.subrange(pos + a, pos + b);
    let rhs = data.subrange(pos, data.len() as int).subrange(a, b);
    assert forall|i: int| 0 <= i < lhs.len() implies lhs[i] == rhs[i] by {
        assert(lhs[i] == data[pos + a + i]);
        assert(rhs[i] == data.subrange(pos, data.len() as int)[a + i]);
        assert(data.subrange(pos, data.len() as int)[a + i] == data[pos + (a + i)]);
    }
    assert(lhs =~= rhs);
}

/// A buffer holding exactly one encoded row from `pos` on parses to that row,
/// whatever the checksum mode.
proof fn lemma_parse_single_row(
    data: Seq<u8>,
    pos: int,
    timestamp: u64,
    key: Seq<u8>,
    value: Seq<u8>,
    strict: bool,
)
    requires
        key.len() <= 0xFFFF,
        value.len() <= 0xFFFF,
        0 <= pos,
        data.len() == pos + spec_row_len(key, value),
        data.subrange(pos, data.len() as int) == spec_encode_row(timestamp, key, value),
    ensures
        spec_parse_rows(data, pos, strict) == Some(
            seq![
                ParsedRow {
                    timestamp,
                    key,
                    value,
                    value_pos: pos + 15 + key.len(),
                },
            ],
        ),
{
    vstd::bytes::lemma_auto_spec_u16_to_from_le_bytes();
    vstd::bytes::lemma_auto_spec_u64_to_from_le_bytes();
    let row_bytes = spec_encode_row(timestamp, key, value);
    let payload = spec_payload(timestamp, key, value);
    let k = key.len() as int;
    let v = value.len() as int;
    assert(spec_u64_to_le_bytes(timestamp).len() == 8);
    assert(spec_u16_to_le_bytes(key.len() as u16).len() == 2);
    assert(spec_u16_to_le_bytes(value.len() as u16).len() == 2);
    assert(row_bytes.len() == 15 + k + v);
    assert(payload.subrange(0, 8) =~= spec_u64_to_le_bytes(timestamp));
    assert(payload.subrange(8, 10) =~= spec_u16_to_le_bytes(key.len() as u16));
    assert(payload.subrange(10, 12) =~= spec_u16_to_le_bytes(value.len() as u16));
    assert(payload.subrange(12, 12 + k) =~= key);
    assert(payload.subrange(12 + k, 12 + k + v) =~= value);
    assert(row_bytes == checksum_bytes(spec_checksum(payload)) + payload);
    assert(row_bytes.subrange(0, 3) =~= checksum_bytes(spec_checksum(payload)));
    assert(row_bytes.subrange(3, 15 + k + v) =~= payload);
    lemma_subrange_shift(data, pos, 0, 3);
    lemma_subrange_shift(data, pos, 3, 11);
    lemma_subrange_shift(data, pos, 11, 13);
    lemma_subrange_shift(data, pos, 13, 15);
    lemma_subrange_shift(data, pos, 3, 15 + k + v);
    lemma_subrange_shift(data, pos, 15, 15 + k);
    lemma_subrange_shift(data, pos, 15 + k, 15 + k + v);
    assert(data.subrange(pos, data.len() as int) == row_bytes);
    assert(data.subrange(pos + 11, pos + 13) == row_bytes.subrange(11, 13));
    assert(row_bytes.subrange(11, 13) =~= payload.subrange(8, 10));
    assert(data.subrange(pos + 13, pos + 15) == row_bytes.subrange(13, 15));
    assert(row_bytes.subrange(13, 15) =~= payload.subrange(10, 12));
    assert(spec_u16_from_le_bytes(data.subrange(pos + 11, pos + 13)) == key.len() as u16);
    assert(spec_u16_from_le_bytes(data.subrange(pos + 13, pos + 15)) == value.len() as u16);
    assert(data.subrange(pos + 3, pos + 15 + k + v) == row_bytes.subrange(3, 15 + k + v));
    assert(data.subrange(pos, pos + 3) == row_bytes.subrange(0, 3));
    assert(data.subrange(pos + 3, pos + 11) == row_bytes.subrange(3, 11));
    assert(row_bytes.subrange(3, 11) =~= payload.subrange(0, 8));
    assert(spec_u64_from_le_bytes(data.subrange(pos + 3, pos + 11)) == timestamp);
    assert(data.subrange(pos + 15, pos + 15 + k) == row_bytes.subrange(15, 15 + k));
    assert(row_bytes.subrange(15, 15 + k) =~= payload.subrange(12, 12 + k));
    assert(data.subrange(pos + 15 + k, pos + 15 + k + v) == row_bytes.subrange(
        15 + k,
        15 + k + v,
    ));
    assert(row_bytes.subrange(15 + k, 15 + k + v) =~= payload.subrange(12 + k, 12 + k + v));
    let row = ParsedRow { timestamp, key, value, value_pos: pos + 15 + k };
    assert(spec_row_at(data, pos, strict) == Some(row));
    assert(spec_row_end(row) == data.len());
    assert(spec_parse_rows(data, spec_row_end(row), strict) == Some(Seq::<ParsedRow>::empty()));
    assert(seq![row] + Seq::<ParsedRow>::empty() =~= seq![row]);
}

/// Replaying one more row records that row for its key and touches no other.
proof fn lemma_replay_rows_push(
    m: Map<Seq<u8>, LiveRow>,
    rows: Seq<ParsedRow>,
    row: ParsedRow,
    file_id: usize,
)
    ensures
        replay_rows(m, rows.push(row), file_id) == replay_rows(m, rows, file_id).insert(
            row.key,
            LiveRow { file_id, row },
        ),
    decreases rows.len(),
{
    if rows.len() == 0 {
        reveal_with_fuel(replay_rows, 2);
        assert(rows.push(row).drop_first() =~= Seq::<ParsedRow>::empty());
        assert(rows.push(row).first() == row);
    } else {
        let m1 = m.insert(rows.first().key, LiveRow { file_id, row: rows.first() });
        assert(rows.push(row).first() == rows.first());
        assert(rows.push(row).drop_first() =~= rows.drop_first().push(row));
        lemma_replay_rows_push(m1, rows.drop_first(), row, file_id);
        assert(replay_rows(m, rows.push(row), file_id) == replay_rows(
            m1,
            rows.push(row).drop_first(),
            file_id,
        ));
        assert(replay_rows(m, rows, file_id) == replay_rows(m1, rows.drop_first(), file_id));
    }
}

/// Every entry of a replay either was already in the accumulator or records
/// one of the replayed rows with the segment id being replayed.
proof fn lemma_replay_rows_source(m: Map<Seq<u8>, LiveRow>, rows: Seq<ParsedRow>, file_id: usize)
    ensures
        forall|k: Seq<u8>| #[trigger]
            replay_rows(m, rows, file_id).contains_key(k) ==> ((m.contains_key(k) && replay_rows(
                m,
                rows,
                file_id,
            )[k] == m[k]) || (replay_rows(m, rows, file_id)[k].file_id == file_id && exists|i: int|
                0 <= i < rows.len() && #[trigger] rows[i] == replay_rows(m, rows, file_id)[k].row
                    && rows[i].key == k)),
    decreases rows.len(),
{
    if rows.len() > 0 {
        let m1 = m.insert(rows.first().key, LiveRow { file_id, row: rows.first() });
        lemma_replay_rows_source(m1, rows.drop_first(), file_id);
        let out = replay_rows(m, rows, file_id);
        assert forall|k: Seq<u8>| #[trigger] out.contains_key(k) implies ((m.contains_key(k)
            && out[k] == m[k]) || (out[k].file_id == file_id && exists|i: int|
            0 <= i < rows.len() && #[trigger] rows[i] == out[k].row && rows[i].key == k)) by {
            assert(out == replay_rows(m1, rows.drop_first(), file_id));
            assert(replay_rows(m1, rows.drop_first(), file_id).contains_key(k));
            if m1.contains_key(k) && out[k] == m1[k] {
                if k == rows.first().key && out[k] == m1[rows.first().key] {
                    assert(out[k].row == rows.first());
                    assert(rows[0] == out[k].row && rows[0].key == k);
                    assert(out[k].file_id == file_id);
                } else {
                    assert(m.contains_key(k) && out[k] == m[k]);
                }
            } else {
                let i = choose|i: int|
                    0 <= i < rows.drop_first().len() && #[trigger] rows.drop_first()[i]
                        == out[k].row && rows.drop_first()[i].key == k;
                assert(rows.drop_first()[i] == rows[i + 1]);
                assert(rows[i + 1] == out[k].row && rows[i + 1].key == k);
            }
        }
    }
}

/// If a run of segments recovers, every segment in it parses cleanly.
proof fn lemma_recover_map_parses(segs: Seq<SegmentView>, strict: bool)
    requires
        recover_map(segs, strict) is Some,
    ensures
        forall|j: int|
            0 <= j < segs.len() ==> spec_parse_rows(#[trigger] segs[j].data, 0, strict) is Some,
    decreases segs.len(),
{
    if segs.len() > 0 {
        lemma_recover_map_parses(segs.drop_last(), strict);
        assert forall|j: int| 0 <= j < segs.len() implies spec_parse_rows(
            #[trigger] segs[j].data,
            0,
            strict,
        ) is Some by {
            if j < segs.len() - 1 {
                assert(segs.drop_last()[j] == segs[j]);
            }
        }
    }
}

/// A live row of a recovered directory lies embedded in the segment that its
/// `file_id` names.
pub open spec fn live_ok(segs: Seq<SegmentView>, l: LiveRow) -> bool {
    exists|j: int|
        0 <= j < segs.len() && (#[trigger] segs[j]).id == l.file_id && row_ok(segs[j].data, l.row)
}

/// Every entry of a recovered directory points at real bytes: its row is
/// embedded in the segment it names.
proof fn lemma_recover_map_live_ok(segs: Seq<SegmentView>, strict: bool)
    requires
        recover_map(segs, strict) is Some,
    ensures
        forall|k: Seq<u8>| #[trigger]
            recover_map(segs, strict).unwrap().contains_key(k) ==> live_ok(
                segs,
                recover_map(segs, strict).unwrap()[k],
            ) && recover_map(segs, strict).unwrap()[k].row.key == k,
    decreases segs.len(),
{
    let m = recover_map(segs, strict).unwrap();
    if segs.len() > 0 {
        let prev = recover_map(segs.drop_last(), strict).unwrap();
        let rows = spec_parse_rows(segs.last().data, 0, strict).unwrap();
        lemma_recover_map_live_ok(segs.drop_last(), strict);
        lemma_replay_rows_source(prev, rows, segs.last().id);
        lemma_parse_rows_props(segs.last().data, 0, strict);
        assert forall|k: Seq<u8>| #[trigger] m.contains_key(k) implies live_ok(segs, m[k])
            && m[k].row.key == k by {
            if prev.contains_key(k) && m[k] == prev[k] {
                let j = choose|j: int|
                    0 <= j < segs.drop_last().len() && (#[trigger] segs.drop_last()[j]).id
                        == prev[k].file_id && row_ok(segs.drop_last()[j].data, prev[k].row);
                assert(segs[j] == segs.drop_last()[j]);
                assert(segs[j].id == m[k].file_id && row_ok(segs[j].data, m[k].row));
            } else {
                let i = choose|i: int|
                    0 <= i < rows.len() && #[trigger] rows[i] == m[k].row && rows[i].key == k;
                assert(row_ok(segs.last().data, m[k].row));
                assert(segs[segs.len() - 1].id == m[k].file_id && row_ok(
                    segs[segs.len() - 1].data,
                    m[k].row,
                ));
            }
        }
    }
}

/// Recording one more live row in a directory view records its location.
proof fn lemma_locs_of_insert(m: Map<Seq<u8>, LiveRow>, k: Seq<u8>, l: LiveRow)
    ensures
        locs_of(m.insert(k, l)) == locs_of(m).insert(k, loc_of(l)),
{
    assert(locs_of(m.insert(k, l)) =~= locs_of(m).insert(k, loc_of(l)));
}

/// Recording one more live row in a directory view records its value.
proof fn lemma_values_of_insert(m: Map<Seq<u8>, LiveRow>, k: Seq<u8>, l: LiveRow)
    ensures
        values_of(m.insert(k, l)) == values_of(m).insert(k, l.row.value),
{
    assert(values_of(m.insert(k, l)) =~= values_of(m).insert(k, l.row.value));
}

/// No two segments carry the same id.
pub open spec fn unique_ids(segs: Seq<SegmentView>) -> bool {
    forall|i: int, j: int| 0 <= i < j < segs.len() ==> segs[i].id != segs[j].id
}

/// Builds the key directory by replaying every given segment in the given
/// order, oldest first: each row overwrites any earlier entry for its key.
/// Fails with `CorruptSegment` when some segment does not parse cleanly to
/// its end; recovery has no partial mode.
pub fn init_key_dir(segments: &Vec<Segment>, strict: bool) -> (r: Result<KeyDirectory, DbError>)
    ensures
        recover_map(segs_view(segments@), strict) is Some ==> (r matches Ok(kd) && kd.wf() && kd@
            == locs_of(recover_map(segs_view(segments@), strict).unwrap()) && kd.live_bytes()
            <= total_size(segs_view(segments@))),
        recover_map(segs_view(segments@), strict) is None ==> r == Err::<KeyDirectory, DbError>(
            DbError::CorruptSegment,
        ),
{
    let ghost all = segs_view(segments@);
    let mut kd = KeyDirectory::new();
    let n = segments.len();
    let mut si: usize = 0;
    while si < n
        invariant
            n == segments@.len(),
            si <= n,
            all == segs_view(segments@),
            kd.wf(),
            recover_map(all.subrange(0, si as int), strict) is Some,
            kd@ == locs_of(recover_map(all.subrange(0, si as int), strict).unwrap()),
            kd.live_bytes() <= total_size(all.subrange(0, si as int)),
        decreases n - si,
    {
        let ghost m_prev = recover_map(all.subrange(0, si as int), strict).unwrap();
        let seg = &segments[si];
        let data = &seg.data;
        let ghost mut done: Seq<ParsedRow> = Seq::empty();
        let mut pos: usize = 0;
        let dlen = data.len();
        loop
            invariant_except_break
                n == segments@.len(),
                si < n,
                all == segs_view(segments@),
                seg == segments@[si as int],
                data == &segments@[si as int].data,
                dlen == data@.len(),
                pos <= data@.len(),
                recover_map(all.subrange(0, si as int), strict) == Some(m_prev),
                spec_parse_rows(data@, pos as int, strict) is Some ==> (spec_parse_rows(
                    data@,
                    0,
                    strict,
                ) is Some && spec_parse_rows(data@, 0, strict).unwrap() == done + spec_parse_rows(
                    data@,
                    pos as int,
                    strict,
                ).unwrap()),
                spec_parse_rows(data@, pos as int, strict) is None ==> spec_parse_rows(
                    data@,
                    0,
                    strict,
                ) is None,
                kd.wf(),
                kd@ == locs_of(replay_rows(m_prev, done, seg.id)),
                kd.live_bytes() <= total_size(all.subrange(0, si as int)) + pos,
            ensures
                kd.wf(),
                recover_map(all.subrange(0, si + 1), strict) is Some,
                kd@ == locs_of(recover_map(all.subrange(0, si + 1), strict).unwrap()),
                kd.live_bytes() <= total_size(all.subrange(0, si + 1)),
            decreases data@.len() - pos,
        {
            match parse_row(data, pos, strict) {
                Err(_) => {
                    proof {
                        assert(spec_parse_rows(data@, pos as int, strict) is None);
                        assert(all[si as int].data == data@);
                        if recover_map(all, strict) is Some {
                            lemma_recover_map_parses(all, strict);
                        }
                    }
                    return Err(DbError::CorruptSegment);
                },
                Ok(Decoded::EndOfSegment) => {
                    proof {
                        if pos < data@.len() {
                            assert(false);
                        }
                        assert(spec_parse_rows(data@, pos as int, strict) == Some(
                            Seq::<ParsedRow>::empty(),
                        ));
                        assert(done + Seq::<ParsedRow>::empty() =~= done);
                        assert(spec_parse_rows(data@, 0, strict) == Some(done));
                        let next = all.subrange(0, si + 1);
                        assert(next.drop_last() =~= all.subrange(0, si as int));
                        assert(next.last() == all[si as int]);
                        assert(all[si as int].data == data@ && all[si as int].id == seg.id);
                        assert(recover_map(next, strict) == Some(
                            replay_rows(m_prev, done, seg.id),
                        ));
                        assert(total_size(next) == total_size(all.subrange(0, si as int))
                            + data@.len());
                    }
                    break ;
                },
                Ok(Decoded::Row(e)) => {
                    let ghost row = spec_row_at(data@, pos as int, strict).unwrap();
                    let loc = ValueLocation {
                        file_id: seg.id,
                        timestamp: e.timestamp,
                        value_pos: e.value_pos,
                        value_size: e.value_sz,
                    };
                    proof {
                        assert(loc == loc_of(LiveRow { file_id: seg.id, row }));
                        lemma_replay_rows_push(m_prev, done, row, seg.id);
                        lemma_locs_of_insert(
                            replay_rows(m_prev, done, seg.id),
                            row.key,
                            LiveRow { file_id: seg.id, row },
                        );
                    }
                    kd.upsert(e.key, loc);
                    proof {
                        let done0 = done;
                        done = done.push(row);
                        assert(done.drop_last() =~= done0);
                        let rest_opt = spec_parse_rows(data@, spec_row_end(row), strict);
                        if rest_opt is Some {
                            let rest = rest_opt.unwrap();
                            assert(spec_parse_rows(data@, pos as int, strict) == Some(
                                seq![row] + rest,
                            ));
                            assert(done0 + (seq![row] + rest) =~= done + rest);
                        } else {
                            assert(spec_parse_rows(data@, pos as int, strict) is None);
                        }
                        assert(row.value_pos + row.value.len() <= data@.len());
                        assert(15 + row.key.len() + row.value.len() == (row.value_pos
                            + row.value.len()) - pos);
                    }
                    pos = (e.value_pos as usize) + (e.value_sz as usize);
                },
            }
        }
        si = si + 1;
    }
    proof {
        assert(all.subrange(0, n as int) =~= all);
    }
    Ok(kd)
}

/// Reads the `value_size` bytes at offset `value_pos` of the segment named
/// `file_id`. A location that cannot be satisfied — no such segment, or the
/// range runs past its end — is an index/log inconsistency, reported as
/// `StorageIO`, never as a miss.
pub fn read_val_in(
    segments: &Vec<Segment>,
    file_id: usize,
    value_pos: u64,
    value_size: u16,
) -> (r: Result<Option<Vec<u8>>, DbError>)
    requires
        unique_ids(segs_view(segments@)),
    ensures
        forall|j: int|
            0 <= j < segments@.len() && (#[trigger] segs_view(segments@)[j]).id == file_id
                && value_pos + value_size <= segs_view(segments@)[j].data.len() ==> (r matches Ok(o)
                && o matches Some(v) && v@ == segs_view(segments@)[j].data.subrange(
                value_pos as int,
                value_pos + value_size,
            )),
        !(exists|j: int|
            0 <= j < segments@.len() && (#[trigger] segs_view(segments@)[j]).id == file_id
                && value_pos + value_size <= segs_view(segments@)[j].data.len()) ==> r == Err::<
            Option<Vec<u8>>,
            DbError,
        >(DbError::StorageIO),
{
    let n = segments.len();
    let mut i: usize = 0;
    while i < n
        invariant
            n == segments@.len(),
            i <= n,
            unique_ids(segs_view(segments@)),
            forall|j: int| 0 <= j < i ==> (#[trigger] segs_view(segments@)[j]).id != file_id,
        decreases n - i,
    {
        if segments[i].id == file_id {
            let data = &segments[i].data;
            let len = data.len();
            if value_pos > (len as u64) || (value_size as u64) > (len as u64) - value_pos {
                assert(segs_view(segments@)[i as int].id == file_id);
                return Err(DbError::StorageIO);
            }
            let start = value_pos as usize;
            let end = start + (value_size as usize);
            let v = slice_to_vec(slice_subrange(data.as_slice(), start, end));
            assert(segs_view(segments@)[i as int].id == file_id);
            return Ok(Some(v));
        }
        assert(segs_view(segments@)[i as int].id != file_id);
        i = i + 1;
    }
    Err(DbError::StorageIO)
}

/// Segment ids are positive and strictly ascending, oldest first.
pub open spec fn ids_ok(segs: Seq<SegmentView>) -> bool {
    &&& forall|i: int, j: int| 0 <= i < j < segs.len() ==> segs[i].id < segs[j].id
    &&& forall|i: int| 0 <= i < segs.len() ==> (#[trigger] segs[i]).id >= 1
}

/// The segments an engine starts from: the ones handed in, or a single
/// fresh, empty segment with id 1 when none exist yet.
pub open spec fn initial_disk(segs: Seq<SegmentView>) -> Seq<SegmentView> {
    if segs.len() == 0 {
        seq![SegmentView { id: 1, data: Seq::<u8>::empty() }]
    } else {
        segs
    }
}

/// The storage engine: the segments (the last one open for append), the key
/// directory rebuilt from them, and the rotation threshold. At most one
/// writer mutates the active segment and the directory at a time; reads
/// never touch either.
pub struct DaveBase {
    segments: Vec<Segment>,
    active_file_id: usize,
    key_dir: KeyDirectory,
    max_bytes_per_file: u64,
    strict_checksum: bool,
}

impl DaveBase {
    /// The contents of the segments, oldest first.
    pub closed spec fn disk(self) -> Seq<SegmentView> {
        segs_view(self.segments@)
    }

    /// Whether rows read back must carry a checksum that matches their
    /// contents.
    pub closed spec fn strict(self) -> bool {
        self.strict_checksum
    }

    /// The rotation threshold fixed at construction.
    pub closed spec fn max_bytes(self) -> u64 {
        self.max_bytes_per_file
    }

    /// The id of the segment open for append.
    pub closed spec fn active_id(self) -> usize {
        self.active_file_id
    }

    /// The key directory's content.
    pub closed spec fn index(self) -> Map<Seq<u8>, ValueLocation> {
        self.key_dir@
    }

    /// The engine invariant: at least one segment, ids positive and
    /// ascending with the active one last, and a key directory that is
    /// exactly what replaying the segments yields.
    pub closed spec fn wf(self) -> bool {
        &&& self.segments@.len() >= 1
        &&& ids_ok(self.disk())
        &&& self.active_file_id == self.disk().last().id
        &&& self.key_dir.wf()
        &&& recover_map(self.disk(), self.strict_checksum) is Some
        &&& self.key_dir@ == locs_of(recover_map(self.disk(), self.strict_checksum).unwrap())
        &&& self.key_dir.live_bytes() <= total_size(self.disk())
        &&& self.max_bytes_per_file >= 1
    }

    /// The key-to-value mapping the engine holds: the last appended row for
    /// each key, in segment order.
    pub open spec fn model(self) -> Map<Seq<u8>, Seq<u8>> {
        values_of(recover_map(self.disk(), self.strict()).unwrap())
    }

    /// Builds an engine over the given segments, replaying them all to
    /// rebuild the key directory. When no segments exist yet, a fresh, empty
    /// segment with id 1 becomes the active one. Ids out of order or below 1
    /// are `InvalidSegmentName`; a segment that does not replay cleanly —
    /// a torn trailing row from a crash mid-append included — is
    /// `CorruptSegment`; both are fatal. The engine fails closed rather than
    /// truncating a torn tail or serving a partially-rebuilt index.
    pub fn new(segments: Vec<Segment>, max_bytes_per_file: u64, strict_checksum: bool) -> (r:
        Result<DaveBase, DbError>)
        requires
            max_bytes_per_file >= 1,
        ensures
            !ids_ok(segs_view(segments@)) ==> r == Err::<DaveBase, DbError>(
                DbError::InvalidSegmentName,
            ),
            ids_ok(segs_view(segments@)) && recover_map(
                segs_view(segments@),
                strict_checksum,
            ) is None ==> r == Err::<DaveBase, DbError>(DbError::CorruptSegment),
            ids_ok(segs_view(segments@)) && recover_map(
                segs_view(segments@),
                strict_checksum,
            ) is Some ==> (r matches Ok(db) && db.wf() && db.disk() == initial_disk(
                segs_view(segments@),
            ) && db.active_id() == db.disk().last().id && db.strict() == strict_checksum
                && db.max_bytes() == max_bytes_per_file && db.index() == locs_of(
                recover_map(segs_view(segments@), strict_checksum).unwrap(),
            ) && db.model() == values_of(
                recover_map(segs_view(segments@), strict_checksum).unwrap(),
            )),
    {
        let ghost given = segs_view(segments@);
        let n = segments.len();
        let mut i: usize = 0;
        while i < n
            invariant
                n == segments@.len(),
                i <= n,
                given == segs_view(segments@),
                forall|a: int, b: int| 0 <= a < b < i ==> given[a].id < given[b].id,
                forall|a: int| 0 <= a < i ==> (#[trigger] given[a]).id >= 1,
            decreases n - i,
        {
            if segments[i].id < 1 {
                assert(given[i as int].id < 1);
                return Err(DbError::InvalidSegmentName);
            }
            if i > 0 && segments[i - 1].id >= segments[i].id {
                assert(given[i as int - 1].id >= given[i as int].id);
                return Err(DbError::InvalidSegmentName);
            }
            assert(given[i as int].id >= 1);
            assert forall|a: int, b: int| 0 <= a < b < i + 1 implies given[a].id < given[b].id by {
                if b == i {
                    if a < i - 1 {
                        assert(given[a].id < given[i as int - 1].id);
                    }
                }
            }
            i = i + 1;
        }
        let kd = match init_key_dir(&segments, strict_checksum) {
            Ok(kd) => kd,
            Err(e) => {
                return Err(e);
            },
        };
        let ghost m = recover_map(given, strict_checksum).unwrap();
        let mut segments = segments;
        let active_file_id: usize;
        if segments.len() == 0 {
            segments.push(Segment { id: 1, data: Vec::new() });
            active_file_id = 1;
            proof {
                reveal_with_fuel(recover_map, 3);
                reveal_with_fuel(total_size, 2);
                assert(segs_view(segments@) =~= initial_disk(given));
                assert(total_size(segs_view(segments@)) == 0);
                let d = segs_view(segments@);
                assert(d.drop_last() =~= Seq::<SegmentView>::empty());
                assert(d.last().data == Seq::<u8>::empty());
                assert(spec_parse_rows(d.last().data, 0, strict_checksum) == Some(
                    Seq::<ParsedRow>::empty(),
                ));
                assert(recover_map(d, strict_checksum) == Some(
                    Map::<Seq<u8>, LiveRow>::empty(),
                ));
                assert(m =~= Map::<Seq<u8>, LiveRow>::empty());
            }
        } else {
            active_file_id = segments[segments.len() - 1].id;
            proof {
                assert(segs_view(segments@) == given);
            }
        }
        let db = DaveBase {
            segments,
            active_file_id,
            key_dir: kd,
            max_bytes_per_file,
            strict_checksum,
        };
        proof {
            assert(db.disk() == initial_disk(given));
            assert(db.disk().last().id == active_file_id);
            assert(recover_map(db.disk(), strict_checksum) == Some(m));
            assert(db.model() =~= values_of(m));
        }
        Ok(db)
    }

    /// The location the key directory records for `key`, if the key is live.
    pub fn locate(&self, key: &Vec<u8>) -> (r: Option<&ValueLocation>)
        requires
            self.wf(),
        ensures
            match r {
                Some(loc) => self.index().contains_key(key@) && *loc == self.index()[key@],
                None => !self.index().contains_key(key@),
            },
    {
        self.key_dir.lookup(key)
    }

    /// Looks `key` up and reads its current value from the segment its
    /// location names. A miss is `Ok(None)`, not an error; under the engine
    /// invariant every recorded location can be satisfied, so no error is
    /// ever returned.
    pub fn get(&self, key: &Vec<u8>) -> (r: Result<Option<Vec<u8>>, DbError>)
        requires
            self.wf(),
        ensures
            self.model().contains_key(key@) ==> (r matches Ok(o) && o matches Some(v) && v@
                == self.model()[key@]),
            !self.model().contains_key(key@) ==> (r matches Ok(o) && o is None),
    {
        let ghost m = recover_map(self.disk(), self.strict()).unwrap();
        proof {
            assert(self.model().dom() =~= self.index().dom());
        }
        match self.key_dir.lookup(key) {
            None => Ok(None),
            Some(loc) => {
                proof {
                    lemma_recover_map_live_ok(self.disk(), self.strict());
                    assert(m.contains_key(key@));
                    assert(self.index()[key@] == loc_of(m[key@]));
                    let l = m[key@];
                    let j = choose|j: int|
                        0 <= j < self.disk().len() && (#[trigger] self.disk()[j]).id == l.file_id
                            && row_ok(self.disk()[j].data, l.row);
                    assert(self.disk()[j].data == self.segments@[j].data@);
                    assert(self.segments@[j].data.len() == self.segments@[j].data@.len());
                    assert(0 <= l.row.value_pos <= spec_row_end(l.row) <= usize::MAX);
                    assert(loc.value_pos + loc.value_size == spec_row_end(l.row));
                    assert(loc.value_pos + loc.value_size <= self.disk()[j].data.len());
                    assert(self.disk()[j].data.subrange(
                        loc.value_pos as int,
                        loc.value_pos + loc.value_size,
                    ) == l.row.value);
                    assert(self.model()[key@] == l.row.value);
                }
                read_val_in(&self.segments, loc.file_id, loc.value_pos, loc.value_size)
            },
        }
    }

    /// Appending a row for `(key, value)` pushes the active segment's size
    /// past the threshold, so the append triggers a rotation.
    pub open spec fn needs_rotation(self, key: Seq<u8>, value: Seq<u8>) -> bool {
        self.disk().last().data.len() + spec_row_len(key, value) > self.max_bytes() as int
    }

    /// Writes one row for `(key, value)` into the active segment and records
    /// the value's location in the key directory; the timestamp is stored in
    /// the row for diagnostics only. When the segment's size after this
    /// append exceeds `max_bytes`, a fresh, empty segment with the next id
    /// is created and becomes active before the call returns; the row just
    /// written stays attributed to the segment it was actually written into.
    /// The caller owns durability: the returned outcome names the segment
    /// the returned row bytes must be appended to.
    pub fn set(&mut self, key: Vec<u8>, value: Vec<u8>, timestamp: u64) -> (r: Result<
        SetOutcome,
        DbError,
    >)
        requires
            old(self).wf(),
        ensures
            final(self).wf(),
            final(self).max_bytes() == old(self).max_bytes(),
            final(self).strict() == old(self).strict(),
            key@.len() > 0xFFFF ==> (r == Err::<SetOutcome, DbError>(DbError::KeyTooLarge)
                && *final(self) == *old(self)),
            key@.len() <= 0xFFFF && value@.len() > 0xFFFF ==> (r == Err::<SetOutcome, DbError>(
                DbError::ValueTooLarge,
            ) && *final(self) == *old(self)),
            key@.len() <= 0xFFFF && value@.len() <= 0xFFFF && old(self).needs_rotation(key@, value@)
                && old(self).active_id() == usize::MAX ==> (r == Err::<SetOutcome, DbError>(
                DbError::StorageIO,
            ) && *final(self) == *old(self)),
            key@.len() <= 0xFFFF && value@.len() <= 0xFFFF && !(old(self).needs_rotation(
                key@,
                value@,
            ) && old(self).active_id() == usize::MAX) ==> (r matches Ok(out) && {
                let row = spec_encode_row(timestamp, key@, value@);
                &&& final(self).model() == old(self).model().insert(key@, value@)
                &&& out.row@ == row
                &&& out.segment_id == old(self).active_id()
                &&& final(self).index() == old(self).index().insert(
                    key@,
                    (ValueLocation {
                        file_id: old(self).active_id(),
                        timestamp,
                        value_pos: (old(self).disk().last().data.len() as int + 15 + key@.len()
                            as int) as u64,
                        value_size: value@.len() as u16,
                    }),
                )
                &&& if old(self).needs_rotation(key@, value@) {
                    &&& final(self).active_id() == old(self).active_id() + 1
                    &&& final(self).disk().len() == old(self).disk().len() + 1
                    &&& final(self).disk().last().id == old(self).active_id() + 1
                    &&& final(self).disk().last().data == Seq::<u8>::empty()
                    &&& final(self).disk()[old(self).disk().len() - 1].id == old(
                        self,
                    ).active_id()
                    &&& final(self).disk()[old(self).disk().len() - 1].data == old(
                        self,
                    ).disk().last().data + row
                    &&& forall|i: int|
                        0 <= i < old(self).disk().len() - 1 ==> final(self).disk()[i] == old(
                            self,
                        ).disk()[i]
                } else {
                    &&& final(self).active_id() == old(self).active_id()
                    &&& final(self).disk().len() == old(self).disk().len()
                    &&& final(self).disk().last().id == old(self).active_id()
                    &&& final(self).disk().last().data == old(self).disk().last().data + row
                    &&& forall|i: int|
                        0 <= i < old(self).disk().len() - 1 ==> final(self).disk()[i] == old(
                            self,
                        ).disk()[i]
                }
            }),
    {
        if key.len() > 0xFFFF {
            return Err(DbError::KeyTooLarge);
        }
        if value.len() > 0xFFFF {
            return Err(DbError::ValueTooLarge);
        }
        let ghost m0 = recover_map(old(self).disk(), old(self).strict()).unwrap();
        let last_idx = self.segments.len() - 1;
        let old_len = self.segments[last_idx].data.len();
        let row_len = 15u64 + (key.len() as u64) + (value.len() as u64);
        let will_rotate = if (old_len as u64) > self.max_bytes_per_file {
            true
        } else {
            row_len > self.max_bytes_per_file - (old_len as u64)
        };
        proof {
            assert(old_len == old(self).disk().last().data.len());
            assert(row_len == spec_row_len(key@, value@));
            assert(will_rotate == old(self).needs_rotation(key@, value@));
        }
        if will_rotate && self.active_file_id == usize::MAX {
            return Err(DbError::StorageIO);
        }
        let ghost d_mid = self.disk();
        proof {
            assert(recover_map(d_mid, self.strict_checksum) == Some(m0));
            assert(ids_ok(d_mid) && self.active_file_id == d_mid.last().id);
            assert(self.key_dir@ == locs_of(m0));
        }
        let row = match encode_row(&key, &value, timestamp) {
            Ok(row) => row,
            Err(e) => {
                proof {
                    assert(false);
                }
                return Err(e);
            },
        };
        let ghost row_bytes = spec_encode_row(timestamp, key@, value@);
        let mut seg = match self.segments.pop() {
            Some(seg) => seg,
            None => {
                proof {
                    assert(false);
                }
                return Err(DbError::StorageIO);
            },
        };
        let ghost old_data = seg.data@;
        seg.data.extend_from_slice(row.as_slice());
        let value_pos = (seg.data.len() - value.len()) as u64;
        let value_size = value.len() as u16;
        let seg_id = seg.id;
        self.segments.push(seg);
        let ghost rowp = ParsedRow {
            timestamp,
            key: key@,
            value: value@,
            value_pos: old_data.len() as int + 15 + key@.len() as int,
        };
        proof {
            let d1 = self.disk();
            let strict = self.strict_checksum;
            assert(d1.drop_last() =~= d_mid.drop_last());
            assert(d1.last().id == d_mid.last().id);
            assert(d1.last().data == old_data + row_bytes);
            lemma_recover_map_parses(d_mid, strict);
            assert(spec_parse_rows(old_data, 0, strict) is Some);
            vstd::bytes::lemma_auto_spec_u64_to_from_le_bytes();
            vstd::bytes::lemma_auto_spec_u16_to_from_le_bytes();
            assert(row_bytes.len() == 15 + key@.len() + value@.len());
            assert((old_data + row_bytes).subrange(
                old_data.len() as int,
                (old_data + row_bytes).len() as int,
            ) =~= row_bytes);
            lemma_parse_single_row(
                old_data + row_bytes,
                old_data.len() as int,
                timestamp,
                key@,
                value@,
                strict,
            );
            lemma_parse_rows_append(old_data, row_bytes, 0, strict);
            let old_rows = spec_parse_rows(old_data, 0, strict).unwrap();
            assert(spec_parse_rows(d1.last().data, 0, strict) == Some(old_rows + seq![rowp]));
            assert(old_rows + seq![rowp] =~= old_rows.push(rowp));
            lemma_replay_rows_push(
                recover_map(d_mid.drop_last(), strict).unwrap(),
                old_rows,
                rowp,
                seg_id,
            );
            assert(recover_map(d1, strict) == Some(
                m0.insert(key@, LiveRow { file_id: seg_id, row: rowp }),
            ));
            lemma_locs_of_insert(m0, key@, LiveRow { file_id: seg_id, row: rowp });
            lemma_values_of_insert(m0, key@, LiveRow { file_id: seg_id, row: rowp });
        }
        let loc = ValueLocation { file_id: seg_id, timestamp, value_pos, value_size };
        proof {
            assert(loc == loc_of(LiveRow { file_id: seg_id, row: rowp }));
        }
        self.key_dir.upsert(key, loc);
        let ghost m1 = m0.insert(rowp.key, LiveRow { file_id: seg_id, row: rowp });
        proof {
            let d1 = self.disk();
            assert(d1.len() == d_mid.len());
            assert forall|i: int| 0 <= i < d1.len() implies (#[trigger] d1[i]).id
                == d_mid[i].id by {
                if i < d1.len() - 1 {
                    assert(d1.drop_last()[i] == d1[i] && d_mid.drop_last()[i] == d_mid[i]);
                }
            }
            assert forall|a: int, b: int| 0 <= a < b < d1.len() implies d1[a].id < d1[b].id by {
                assert(d_mid[a].id < d_mid[b].id);
            }
            assert forall|i: int| 0 <= i < d1.len() implies (#[trigger] d1[i]).id >= 1 by {
                assert(d_mid[i].id >= 1);
            }
            assert(seg_id == d_mid.last().id);
            assert(self.active_file_id == d1.last().id);
            assert(d1.drop_last() =~= d_mid.drop_last());
            assert(total_size(d1.drop_last()) == total_size(d_mid.drop_last()));
            assert(total_size(d1) == total_size(d_mid) + row_bytes.len());
            assert(total_size(d_mid) == total_size(old(self).disk()));
            assert(self.key_dir.live_bytes() <= old(self).key_dir.live_bytes() + row_bytes.len());
            assert(self.key_dir.live_bytes() <= total_size(d1));
            assert(self.key_dir@ == locs_of(m1));
            assert(recover_map(d1, self.strict_checksum) == Some(m1));
            assert(self.model() =~= old(self).model().insert(rowp.key, value@));
        }
        if will_rotate {
            let ghost d1 = self.disk();
            let new_id = self.active_file_id + 1;
            self.segments.push(Segment { id: new_id, data: Vec::new() });
            self.active_file_id = new_id;
            proof {
                let d2 = self.disk();
                assert(d2.drop_last() =~= d1);
                assert(d2.last().id == new_id && d2.last().data == Seq::<u8>::empty());
                assert(spec_parse_rows(d2.last().data, 0, self.strict_checksum) == Some(
                    Seq::<ParsedRow>::empty(),
                ));
                assert(recover_map(d2, self.strict_checksum) == Some(
                    replay_rows(m1, Seq::<ParsedRow>::empty(), new_id),
                ));
                assert(replay_rows(m1, Seq::<ParsedRow>::empty(), new_id) == m1);
                assert forall|a: int, b: int| 0 <= a < b < d2.len() implies d2[a].id
                    < d2[b].id by {
                    if b < d2.len() - 1 {
                        assert(d2[a] == d1[a] && d2[b] == d1[b]);
                        assert(d1[a].id < d1[b].id);
                    } else {
                        assert(d2[a] == d1[a]);
                        if a < d1.len() - 1 {
                            assert(d1[a].id < d1[d1.len() - 1].id);
                        }
                        assert(d1[a].id <= d1[d1.len() - 1].id);
                        assert(d2[b].id == new_id);
                    }
                }
                assert forall|i2: int| 0 <= i2 < d2.len() implies (#[trigger] d2[i2]).id >= 1 by {
                    if i2 < d2.len() - 1 {
                        assert(d2[i2] == d1[i2]);
                        assert(d1[i2].id >= 1);
                    }
                }
                assert(total_size(d2) == total_size(d1));
                assert forall|i: int| 0 <= i < old(self).disk().len() - 1 implies d2[i] == old(
                    self,
                ).disk()[i] by {
                    assert(d2[i] == d1[i]);
                    assert(d1.drop_last()[i] == d1[i]);
                    assert(d_mid.drop_last()[i] == d_mid[i]);
                }
                assert(d2[old(self).disk().len() - 1] == d1.last());
                assert(self.model() =~= values_of(m1));
            }
        }
        Ok(SetOutcome { segment_id: seg_id, row })
    }

    /// The sum of the sizes of all segments, saturating at the largest
    /// reportable count.
    pub fn get_total_data_size(&self) -> (n: u64)
        ensures
            total_size(self.disk()) <= u64::MAX ==> n == total_size(self.disk()),
            total_size(self.disk()) > u64::MAX ==> n == u64::MAX,
    {
        let mut n: u64 = 0;
        let count = self.segments.len();
        let mut i: usize = 0;
        while i < count
            invariant
                count == self.segments@.len(),
                i <= count,
                total_size(self.disk().subrange(0, i as int)) <= u64::MAX ==> n == total_size(
                    self.disk().subrange(0, i as int),
                ),
                total_size(self.disk().subrange(0, i as int)) > u64::MAX ==> n == u64::MAX,
            decreases count - i,
        {
            let len = self.segments[i].data.len() as u64;
            proof {
                assert(self.disk().subrange(0, i + 1).drop_last() =~= self.disk().subrange(
                    0,
                    i as int,
                ));
                assert(self.disk().subrange(0, i + 1).last() == self.disk()[i as int]);
            }
            if len > u64::MAX - n {
                n = u64::MAX;
            } else {
                n = n + len;
            }
            i = i + 1;
        }
        proof {
            assert(self.disk().subrange(0, count as int) =~= self.disk());
        }
        n
    }

    /// Compaction: copies only the current value of every live key into a
    /// fresh run of segments with ids above every existing one, swaps the
    /// key directory to the new locations in one step, and drops all old
    /// segments. Every key reads back exactly what it held before, and the
    /// data never grows: the space of superseded rows is reclaimed. Fails
    /// only when the remaining id space cannot fit the new segments, and
    /// then changes nothing.
    #[verifier::rlimit(100)]
    pub fn merge(&mut self) -> (r: Result<(), DbError>)
        requires
            old(self).wf(),
        ensures
            final(self).wf(),
            final(self).max_bytes() == old(self).max_bytes(),
            final(self).strict() == old(self).strict(),
            old(self).index().dom().len() >= usize::MAX - old(self).active_id() ==> (r == Err::<
                (),
                DbError,
            >(DbError::StorageIO) && *final(self) == *old(self)),
            old(self).index().dom().len() < usize::MAX - old(self).active_id() ==> (r == Ok::<
                (),
                DbError,
            >(()) && {
                &&& final(self).model() == old(self).model()
                &&& final(self).index().dom() == old(self).index().dom()
                &&& forall|i: int|
                    0 <= i < final(self).disk().len() ==> (#[trigger] final(self).disk()[i]).id
                        > old(self).active_id()
                &&& total_size(final(self).disk()) <= total_size(old(self).disk())
            }),
    {
        let ghost self0 = *self;
        let ghost strict = self.strict_checksum;
        let ghost m0 = recover_map(self0.disk(), strict).unwrap();
        let ghost es = self0.key_dir.entry_seq();
        let count = self.key_dir.len();
        if count >= usize::MAX - self.active_file_id {
            return Err(DbError::StorageIO);
        }
        let mut out: Vec<Segment> = Vec::new();
        let mut cur_id: usize = self.active_file_id + 1;
        let mut cur_data: Vec<u8> = Vec::new();
        let mut new_kd = KeyDirectory::new();
        let mut i: usize = 0;
        proof {
            assert(segs_view(out@).push((SegmentView { id: cur_id, data: cur_data@ })).drop_last()
                =~= Seq::<SegmentView>::empty());
            reveal_with_fuel(recover_map, 2);
            assert(recover_map(
                segs_view(out@).push((SegmentView { id: cur_id, data: cur_data@ })),
                strict,
            ) == Some(Map::<Seq<u8>, LiveRow>::empty()));
            assert(locs_of(Map::<Seq<u8>, LiveRow>::empty()) =~= Map::<
                Seq<u8>,
                ValueLocation,
            >::empty());
            reveal_with_fuel(total_size, 2);
            assert(entries_bytes(es.subrange(0, 0)) == 0);
        }
        while i < count
            invariant
                *self == self0,
                self0.wf(),
                strict == self0.strict(),
                m0 == recover_map(self0.disk(), strict).unwrap(),
                es == self0.key_dir.entry_seq(),
                count == es.len(),
                count == self0.index().dom().len(),
                count < usize::MAX - self0.active_id(),
                i <= count,
                out@.len() <= i,
                cur_id as int == self0.active_id() + 1 + out@.len(),
                forall|j: int|
                    0 <= j < out@.len() ==> (#[trigger] segs_view(out@)[j]).id as int
                        == self0.active_id() + 1 + j,
                new_kd.wf(),
                recover_map(
                    segs_view(out@).push((SegmentView { id: cur_id, data: cur_data@ })),
                    strict,
                ) is Some,
                new_kd@ == locs_of(
                    recover_map(
                        segs_view(out@).push((SegmentView { id: cur_id, data: cur_data@ })),
                        strict,
                    ).unwrap(),
                ),
                forall|j: int|
                    0 <= j < i ==> recover_map(
                        segs_view(out@).push((SegmentView { id: cur_id, data: cur_data@ })),
                        strict,
                    ).unwrap().contains_key(#[trigger] es[j].0@),
                forall|k: Seq<u8>| #[trigger]
                    recover_map(
                        segs_view(out@).push((SegmentView { id: cur_id, data: cur_data@ })),
                        strict,
                    ).unwrap().contains_key(k) ==> ((exists|j: int|
                        0 <= j < i && #[trigger] es[j].0@ == k) && m0.contains_key(k)
                        && recover_map(
                        segs_view(out@).push((SegmentView { id: cur_id, data: cur_data@ })),
                        strict,
                    ).unwrap()[k].row.value == m0[k].row.value),
                total_size(segs_view(out@).push((SegmentView { id: cur_id, data: cur_data@ })))
                    == entries_bytes(es.subrange(0, i as int)),
                new_kd.live_bytes() == entries_bytes(es.subrange(0, i as int)),
            decreases count - i,
        {
            let ghost odisk0 = segs_view(out@).push(
                (SegmentView { id: cur_id, data: cur_data@ }),
            );
            let ghost mi = recover_map(odisk0, strict).unwrap();
            let entry = self.key_dir.entry_at(i);
            let entry_key = entry.0.clone();
            let entry_loc = entry.1;
            let ghost k = es[i as int].0@;
            proof {
                assert(entry_key@ =~= k);
                self.key_dir.lemma_entries_agree();
                assert(self0.index().contains_key(k) && self0.index()[k] == es[i as int].1);
                assert(m0.contains_key(k));
                assert(entry_loc == loc_of(m0[k]));
                lemma_recover_map_live_ok(self0.disk(), strict);
                assert(m0[k].row.key == k);
            }
            let ghost l = m0[k];
            let ghost j = choose|j: int|
                0 <= j < self0.disk().len() && (#[trigger] self0.disk()[j]).id == l.file_id
                    && row_ok(self0.disk()[j].data, l.row);
            proof {
                assert(self0.disk()[j].data == self.segments@[j].data@);
                assert(self.segments@[j].data.len() == self.segments@[j].data@.len());
                assert(0 <= l.row.value_pos <= spec_row_end(l.row) <= usize::MAX);
                assert(entry_loc.value_pos + entry_loc.value_size == spec_row_end(l.row));
                assert(entry_loc.value_pos + entry_loc.value_size <= self0.disk()[j].data.len());
                assert(self0.disk()[j].data.subrange(
                    entry_loc.value_pos as int,
                    entry_loc.value_pos + entry_loc.value_size,
                ) == l.row.value);
            }
            let val = match read_val_in(
                &self.segments,
                entry_loc.file_id,
                entry_loc.value_pos,
                entry_loc.value_size,
            ) {
                Ok(Some(v)) => v,
                _ => {
                    proof {
                        assert(false);
                    }
                    return Err(DbError::StorageIO);
                },
            };
            proof {
                assert(val@ == l.row.value);
                assert(entry_key@.len() <= 0xFFFF && val@.len() <= 0xFFFF);
            }
            if (cur_data.len() as u64) > self.max_bytes_per_file {
                let ghost out_top = out@;
                out.push(Segment { id: cur_id, data: cur_data });
                cur_data = Vec::new();
                proof {
                    assert(out@.drop_last() =~= out_top);
                    let odisk1 = segs_view(out@).push(
                        (SegmentView { id: (cur_id + 1) as usize, data: cur_data@ }),
                    );
                    assert(odisk1.drop_last() =~= odisk0);
                    assert(spec_parse_rows(odisk1.last().data, 0, strict) == Some(
                        Seq::<ParsedRow>::empty(),
                    ));
                    assert(recover_map(odisk1, strict) == Some(
                        replay_rows(mi, Seq::<ParsedRow>::empty(), (cur_id + 1) as usize),
                    ));
                    assert(replay_rows(mi, Seq::<ParsedRow>::empty(), (cur_id + 1) as usize)
                        == mi);
                    assert(total_size(odisk1) == total_size(odisk0));
                    assert forall|j2: int| 0 <= j2 < out@.len() implies (#[trigger] segs_view(
                        out@,
                    )[j2]).id as int == self0.active_id() + 1 + j2 by {
                        if j2 < out@.len() - 1 {
                            assert(out_top[j2] == out@[j2]);
                            assert(segs_view(out_top)[j2].id as int == self0.active_id() + 1
                                + j2);
                            assert(segs_view(out_top)[j2] == segs_view(out@)[j2]);
                        } else {
                            assert(out@[j2].id == cur_id);
                            assert(segs_view(out@)[j2].id == cur_id);
                        }
                    }
                }
                cur_id = cur_id + 1;
            }
            let ghost odisk1 = segs_view(out@).push((SegmentView { id: cur_id, data: cur_data@ }));
            let ghost m1 = recover_map(odisk1, strict).unwrap();
            proof {
                assert(m1 == mi);
                assert(total_size(odisk1) == entries_bytes(es.subrange(0, i as int)));
            }
            let row = match encode_row(&entry_key, &val, entry_loc.timestamp) {
                Ok(row) => row,
                Err(e) => {
                    proof {
                        assert(false);
                    }
                    return Err(e);
                },
            };
            let ghost row_bytes = spec_encode_row(entry_loc.timestamp, entry_key@, val@);
            let ghost old_data = cur_data@;
            cur_data.extend_from_slice(row.as_slice());
            let vp = (cur_data.len() - val.len()) as u64;
            let vs = val.len() as u16;
            let new_loc = ValueLocation {
                file_id: cur_id,
                timestamp: entry_loc.timestamp,
                value_pos: vp,
                value_size: vs,
            };
            let ghost rowp = ParsedRow {
                timestamp: entry_loc.timestamp,
                key: k,
                value: val@,
                value_pos: old_data.len() as int + 15 + k.len() as int,
            };
            proof {
                let odisk2 = segs_view(out@).push(
                    (SegmentView { id: cur_id, data: cur_data@ }),
                );
                assert(odisk2.drop_last() =~= odisk1.drop_last());
                assert(odisk2.last().id == cur_id);
                assert(odisk2.last().data == old_data + row_bytes);
                lemma_recover_map_parses(odisk1, strict);
                assert(odisk1.last().data == old_data);
                assert(spec_parse_rows(old_data, 0, strict) is Some);
                vstd::bytes::lemma_auto_spec_u64_to_from_le_bytes();
                vstd::bytes::lemma_auto_spec_u16_to_from_le_bytes();
                assert(row_bytes.len() == 15 + k.len() + val@.len());
                assert((old_data + row_bytes).subrange(
                    old_data.len() as int,
                    (old_data + row_bytes).len() as int,
                ) =~= row_bytes);
                lemma_parse_single_row(
                    old_data + row_bytes,
                    old_data.len() as int,
                    entry_loc.timestamp,
                    k,
                    val@,
                    strict,
                );
                lemma_parse_rows_append(old_data, row_bytes, 0, strict);
                let old_rows = spec_parse_rows(old_data, 0, strict).unwrap();
                assert(spec_parse_rows(odisk2.last().data, 0, strict) == Some(
                    old_rows + seq![rowp],
                ));
                assert(old_rows + seq![rowp] =~= old_rows.push(rowp));
                lemma_replay_rows_push(
                    recover_map(odisk1.drop_last(), strict).unwrap(),
                    old_rows,
                    rowp,
                    cur_id,
                );
                assert(recover_map(odisk2, strict) == Some(
                    m1.insert(k, LiveRow { file_id: cur_id, row: rowp }),
                ));
                lemma_locs_of_insert(m1, k, LiveRow { file_id: cur_id, row: rowp });
                assert(new_loc == loc_of(LiveRow { file_id: cur_id, row: rowp }));
                assert(!m1.contains_key(k)) by {
                    if m1.contains_key(k) {
                        assert(mi.contains_key(k));
                        let j2 = choose|j2: int| 0 <= j2 < i && #[trigger] es[j2].0@ == k;
                        assert(es[j2].0@ != es[i as int].0@);
                        assert(false);
                    }
                }
                assert(locs_of(m1).dom() =~= m1.dom());
                assert(!new_kd@.contains_key(k));
                assert(total_size(odisk2) == total_size(odisk1) + row_bytes.len());
                assert(es.subrange(0, i + 1).drop_last() =~= es.subrange(0, i as int));
                assert(es.subrange(0, i + 1).last() == es[i as int]);
                assert(entry_bytes(es[i as int]) == 15 + k.len() + vs);
                assert(entries_bytes(es.subrange(0, i + 1)) == entries_bytes(
                    es.subrange(0, i as int),
                ) + 15 + k.len() + vs);
            }
            new_kd.upsert(entry_key, new_loc);
            proof {
                let odisk2 = segs_view(out@).push(
                    (SegmentView { id: cur_id, data: cur_data@ }),
                );
                let m2 = recover_map(odisk2, strict).unwrap();
                assert(m2 == m1.insert(k, LiveRow { file_id: cur_id, row: rowp }));
                assert(new_kd@ == locs_of(m2));
                assert forall|j2: int| 0 <= j2 < i + 1 implies m2.contains_key(
                    #[trigger] es[j2].0@,
                ) by {
                    if j2 < i {
                        assert(mi.contains_key(es[j2].0@));
                    }
                }
                assert forall|k2: Seq<u8>| #[trigger] m2.contains_key(k2) implies ((exists|j2: int|
                    0 <= j2 < i + 1 && #[trigger] es[j2].0@ == k2) && m0.contains_key(k2)
                    && m2[k2].row.value == m0[k2].row.value) by {
                    if k2 == k {
                        assert(es[i as int].0@ == k2);
                    } else {
                        assert(mi.contains_key(k2));
                        let j2 = choose|j2: int| 0 <= j2 < i && #[trigger] es[j2].0@ == k2;
                        assert(es[j2].0@ == k2);
                    }
                }
            }
            i = i + 1;
        }
        let ghost out0 = out@;
        let ghost odisk = segs_view(out@).push((SegmentView { id: cur_id, data: cur_data@ }));
        let ghost mfin = recover_map(odisk, strict).unwrap();
        out.push(Segment { id: cur_id, data: cur_data });
        self.segments = out;
        self.active_file_id = cur_id;
        self.key_dir = new_kd;
        proof {
            assert(self.disk() =~= odisk);
            assert(es.subrange(0, count as int) =~= es);
            self0.key_dir.lemma_entries_agree();
            assert forall|a: int, b: int| 0 <= a < b < odisk.len() implies odisk[a].id
                < odisk[b].id by {
                if a < odisk.len() - 1 {
                    assert(segs_view(out0)[a].id as int == self0.active_id() + 1 + a);
                }
                if b < odisk.len() - 1 {
                    assert(segs_view(out0)[b].id as int == self0.active_id() + 1 + b);
                }
            }
            assert forall|a: int| 0 <= a < odisk.len() implies (#[trigger] odisk[a]).id >= 1
                && odisk[a].id > self0.active_id() by {
                if a < odisk.len() - 1 {
                    assert(segs_view(out0)[a].id as int == self0.active_id() + 1 + a);
                }
            }
            assert(self.active_file_id == odisk.last().id);
            assert(self.key_dir.live_bytes() <= total_size(self.disk()));
            assert(total_size(odisk) == entries_bytes(es));
            assert(entries_bytes(es) == self0.key_dir.live_bytes());
            assert(total_size(odisk) <= total_size(self0.disk()));
            assert forall|k2: Seq<u8>| #[trigger] m0.contains_key(k2) implies mfin.contains_key(
                k2,
            ) by {
                assert(self0.index().contains_key(k2));
                let j2 = choose|j2: int| 0 <= j2 < es.len() && #[trigger] es[j2].0@ == k2;
                assert(mfin.contains_key(es[j2].0@));
            }
            assert(values_of(mfin) =~= values_of(m0));
            assert(self.model() == old(self).model());
            assert(locs_of(mfin).dom() =~= locs_of(m0).dom());
            assert(self.index().dom() == old(self).index().dom());
        }
        Ok(())
    }

    /// The segments as they stand, oldest first. A caller that keeps the
    /// segments on disk mirrors these files after compaction or clearing.
    pub fn segments(&self) -> (r: &Vec<Segment>)
        ensures
            segs_view(r@) == self.disk(),
    {
        &self.segments
    }

    /// The id of the segment currently open for append.
    pub fn active_segment_id(&self) -> (r: usize)
        ensures
            r == self.active_id(),
    {
        self.active_file_id
    }

    /// The number of live keys.
    pub fn key_count(&self) -> (r: usize)
        requires
            self.wf(),
        ensures
            r == self.index().dom().len(),
    {
        self.key_dir.len()
    }

    /// Forgets every segment and every key in place: the engine is back in
    /// the empty condition, with a fresh, empty segment 1 active, and stays
    /// usable. The caller owns durability: the segment files themselves must
    /// be deleted alongside.
    pub fn clear_all_data(&mut self)
        requires
            old(self).wf(),
        ensures
            final(self).wf(),
            final(self).model() == Map::<Seq<u8>, Seq<u8>>::empty(),
            final(self).index() == Map::<Seq<u8>, ValueLocation>::empty(),
            final(self).disk().len() == 1,
            final(self).disk()[0].id == 1,
            final(self).disk()[0].data == Seq::<u8>::empty(),
            final(self).active_id() == 1,
            final(self).max_bytes() == old(self).max_bytes(),
            final(self).strict() == old(self).strict(),
            total_size(final(self).disk()) == 0,
    {
        let mut segs: Vec<Segment> = Vec::new();
        segs.push(Segment { id: 1, data: Vec::new() });
        self.segments = segs;
        self.active_file_id = 1;
        self.key_dir.remove_all();
        proof {
            reveal_with_fuel(recover_map, 3);
            reveal_with_fuel(total_size, 2);
            let d = self.disk();
            assert(d.len() == 1 && d[0].id == 1 && d[0].data == Seq::<u8>::empty());
            assert(d.drop_last() =~= Seq::<SegmentView>::empty());
            assert(spec_parse_rows(d.last().data, 0, self.strict_checksum) == Some(
                Seq::<ParsedRow>::empty(),
            ));
            assert(recover_map(d, self.strict_checksum) == Some(Map::<Seq<u8>, LiveRow>::empty()));
            assert(locs_of(Map::<Seq<u8>, LiveRow>::empty()) =~= Map::<
                Seq<u8>,
                ValueLocation,
            >::empty());
            assert(values_of(Map::<Seq<u8>, LiveRow>::empty()) =~= Map::<Seq<u8>, Seq<u8>>::empty());
        }
    }
}

/// One successful write: the encoded row and the segment it was appended
/// to. A caller that keeps the segments on disk appends `row` to that
/// segment's file.
pub struct SetOutcome {
    pub segment_id: usize,
    pub row: Vec<u8>,
}

/// Round trip: an encoded row within the size limits parses back to exactly
/// the timestamp, key and value that went in — in strict mode too, so the
/// checksum written at encode time verifies at decode time.
pub proof fn lemma_encode_row_round_trip(timestamp: u64, key: Seq<u8>, value: Seq<u8>, strict: bool)
    requires
        key.len() <= 0xFFFF,
        value.len() <= 0xFFFF,
    ensures
        ({
            let rows = spec_parse_rows(spec_encode_row(timestamp, key, value), 0, strict);
            &&& rows is Some
            &&& rows.unwrap().len() == 1
            &&& rows.unwrap()[0].timestamp == timestamp
            &&& rows.unwrap()[0].key == key
            &&& rows.unwrap()[0].value == value
            &&& rows.unwrap()[0].value_pos == 15 + key.len()
        }),
{
    let data = spec_encode_row(timestamp, key, value);
    vstd::bytes::lemma_auto_spec_u64_to_from_le_bytes();
    vstd::bytes::lemma_auto_spec_u16_to_from_le_bytes();
    assert(data.len() == 15 + key.len() + value.len());
    assert(data.subrange(0, data.len() as int) =~= data);
    lemma_parse_single_row(data, 0, timestamp, key, value, strict);
}

/// The mapping that a run of writes of `vs` to the one key `k` leaves
/// behind, given the mapping `m` it started from.
pub open spec fn apply_sets(m: Map<Seq<u8>, Seq<u8>>, k: Seq<u8>, vs: Seq<Seq<u8>>) -> Map<
    Seq<u8>,
    Seq<u8>,
>
    decreases vs.len(),
{
    if vs.len() == 0 {
        m
    } else {
        apply_sets(m.insert(k, vs.first()), k, vs.drop_first())
    }
}

/// Last write wins: after any run of writes to one key — which is what a
/// run of `set` calls does to the model, by `set`'s contract — the store
/// maps that key to the last value written, and no other key has moved.
pub proof fn lemma_last_write_wins(m: Map<Seq<u8>, Seq<u8>>, k: Seq<u8>, vs: Seq<Seq<u8>>)
    requires
        vs.len() > 0,
    ensures
        apply_sets(m, k, vs).contains_key(k),
        apply_sets(m, k, vs)[k] == vs.last(),
        forall|k2: Seq<u8>|
            k2 != k ==> (apply_sets(m, k, vs).contains_key(k2) <==> m.contains_key(k2)),
        forall|k2: Seq<u8>|
            k2 != k && m.contains_key(k2) ==> apply_sets(m, k, vs)[k2] == m[k2],
    decreases vs.len(),
{
    if vs.len() == 1 {
        reveal_with_fuel(apply_sets, 2);
        assert(vs.drop_first().len() == 0);
        assert(apply_sets(m.insert(k, vs.first()), k, vs.drop_first()) == m.insert(
            k,
            vs.first(),
        ));
        assert(vs.first() == vs.last());
        assert(apply_sets(m, k, vs) == m.insert(k, vs.first()));
    } else {
        let m1 = m.insert(k, vs.first());
        lemma_last_write_wins(m1, k, vs.drop_first());
        assert(vs.drop_first().last() == vs.last());
        assert(apply_sets(m, k, vs) == apply_sets(m1, k, vs.drop_first()));
        assert forall|k2: Seq<u8>| k2 != k implies (apply_sets(m, k, vs).contains_key(k2)
            <==> m.contains_key(k2)) by {
            assert(apply_sets(m1, k, vs.drop_first()).contains_key(k2) <==> m1.contains_key(k2));
        }
        assert forall|k2: Seq<u8>| k2 != k && m.contains_key(k2) implies apply_sets(m, k, vs)[k2]
            == m[k2] by {
            assert(m1.contains_key(k2));
            assert(apply_sets(m1, k, vs.drop_first())[k2] == m1[k2]);
        }
    }
}

/// Recovery is deterministic: two well-formed engines over the same segment
/// contents, under the same checksum mode, hold the same key directory and
/// the same mapping. Rebuilding twice from one disk changes nothing.
pub proof fn lemma_recovery_idempotent(a: DaveBase, b: DaveBase)
    requires
        a.wf(),
        b.wf(),
        a.disk() == b.disk(),
        a.strict() == b.strict(),
    ensures
        a.index() == b.index(),
        a.model() == b.model(),
{
}

/// Reopening preserves the store: the key directory and mapping of a
/// well-formed engine are exactly what replaying its segments yields, so an
/// engine rebuilt from the same segments — as `new` does — holds the same
/// mapping.
pub proof fn lemma_restart_preserves_store(db: DaveBase)
    requires
        db.wf(),
    ensures
        recover_map(db.disk(), db.strict()) is Some,
        locs_of(recover_map(db.disk(), db.strict()).unwrap()) == db.index(),
        values_of(recover_map(db.disk(), db.strict()).unwrap()) == db.model(),
{
}

/// The number of bytes the given segments hold together.
pub open spec fn total_size(segs: Seq<SegmentView>) -> int
    decreases segs.len(),
{
    if segs.len() == 0 {
        0
    } else {
        total_size(segs.drop_last()) + segs.last().data.len()
    }
}

} // verus!
