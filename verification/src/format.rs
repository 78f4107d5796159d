//! The archive's byte format.
//!
//! An archive is a header followed by the files' contents. The header is the
//! four magic bytes, the number of records as a little-endian `u32`, and one
//! record per file: the length of the path as a little-endian `u16`, the
//! path's bytes, the file's size and the absolute offset of its content, both
//! as little-endian `u64`.

use vstd::bytes::*;
use vstd::prelude::*;
use vstd::slice::slice_subrange;

verus! {

/// The longest path, in bytes, that a record can carry.
pub const MAX_PATH_LEN: usize = 65535;

/// The largest number of records that the count field can state.
pub const MAX_FILE_COUNT: usize = 4294967295;

/// One record of the header, as stored: the path's bytes, the file's size and
/// the offset of its content from the start of the archive.
pub struct Record {
    pub path: Seq<u8>,
    pub size: u64,
    pub data_offset: u64,
}

/// The four bytes that open every archive: `INFS` in ASCII.
pub open spec fn magic() -> Seq<u8> {
    seq![0x49u8, 0x4eu8, 0x46u8, 0x53u8]
}

/// The length of the magic and the record count together.
pub open spec fn preamble_len() -> nat {
    8
}

/// The number of bytes that a record with a path of `path_len` bytes takes.
pub open spec fn record_len(path_len: nat) -> nat {
    2 + path_len + 8 + 8
}

/// The bytes of one record.
pub open spec fn record_bytes(r: Record) -> Seq<u8> {
    spec_u16_to_le_bytes(r.path.len() as u16) + r.path + spec_u64_to_le_bytes(r.size)
        + spec_u64_to_le_bytes(r.data_offset)
}

/// The bytes of the records, one after the other.
pub open spec fn records_bytes(rs: Seq<Record>) -> Seq<u8>
    decreases rs.len(),
{
    if rs.len() == 0 {
        Seq::empty()
    } else {
        records_bytes(rs.drop_last()) + record_bytes(rs.last())
    }
}

/// The bytes of a header that holds the records `rs`.
pub open spec fn header_bytes(rs: Seq<Record>) -> Seq<u8> {
    magic() + spec_u32_to_le_bytes(rs.len() as u32) + records_bytes(rs)
}

/// Whether each path of `rs` fits the length field.
pub open spec fn paths_fit(rs: Seq<Record>) -> bool {
    forall|i: int| 0 <= i < rs.len() ==> (#[trigger] rs[i]).path.len() <= MAX_PATH_LEN
}

/// The record that starts at `pos`, if all of it lies inside `bytes`.
pub open spec fn record_at(bytes: Seq<u8>, pos: int) -> Option<Record> {
    if pos < 0 || pos + 2 > bytes.len() {
        None
    } else {
        let path_len = spec_u16_from_le_bytes(bytes.subrange(pos, pos + 2)) as int;
        let path_end = pos + 2 + path_len;
        if path_end + 16 > bytes.len() {
            None
        } else {
            Some(
                Record {
                    path: bytes.subrange(pos + 2, path_end),
                    size: spec_u64_from_le_bytes(bytes.subrange(path_end, path_end + 8)),
                    data_offset: spec_u64_from_le_bytes(
                        bytes.subrange(path_end + 8, path_end + 16),
                    ),
                },
            )
        }
    }
}

/// The first `count` records after the preamble, with the position behind the
/// last of them; `None` if `bytes` ends before the last of them does.
pub open spec fn records_upto(bytes: Seq<u8>, count: nat) -> Option<(Seq<Record>, int)>
    decreases count,
{
    if count == 0 {
        Some((Seq::empty(), preamble_len() as int))
    } else {
        match records_upto(bytes, (count - 1) as nat) {
            None => None,
            Some((rs, pos)) => match record_at(bytes, pos) {
                None => None,
                Some(r) => Some((rs.push(r), pos + record_len(r.path.len()))),
            },
        }
    }
}

/// Whether `bytes` opens with the magic and a record count.
pub open spec fn has_preamble(bytes: Seq<u8>) -> bool {
    bytes.len() >= preamble_len() && bytes.subrange(0, 4) == magic()
}

/// The number of records that the preamble of `bytes` states.
pub open spec fn stated_count(bytes: Seq<u8>) -> nat {
    spec_u32_from_le_bytes(bytes.subrange(4, 8)) as nat
}

/// The records of the header that `bytes` opens with; `None` if `bytes` does
/// not open with the magic, or ends before the header does.
pub open spec fn header_records(bytes: Seq<u8>) -> Option<Seq<Record>> {
    if !has_preamble(bytes) {
        None
    } else {
        match records_upto(bytes, stated_count(bytes)) {
            None => None,
            Some((rs, _)) => Some(rs),
        }
    }
}

/// Appends `src` to `out`.
pub(crate) fn append(out: &mut Vec<u8>, src: &[u8])
    ensures
        final(out)@ == old(out)@ + src@,
{
    out.extend_from_slice(src);
    assert(out@ =~= old(out)@ + src@);
}

/// Reads the little-endian `u16` at `pos`.
pub(crate) fn read_u16(bytes: &[u8], pos: usize) -> (x: u16)
    requires
        pos + 2 <= bytes.len(),
    ensures
        x == spec_u16_from_le_bytes(bytes@.subrange(pos as int, pos + 2)),
{
    u16_from_le_bytes(slice_subrange(bytes, pos, pos + 2))
}

/// Reads the little-endian `u32` at `pos`.
pub(crate) fn read_u32(bytes: &[u8], pos: usize) -> (x: u32)
    requires
        pos + 4 <= bytes.len(),
    ensures
        x == spec_u32_from_le_bytes(bytes@.subrange(pos as int, pos + 4)),
{
    u32_from_le_bytes(slice_subrange(bytes, pos, pos + 4))
}

/// Reads the little-endian `u64` at `pos`.
pub(crate) fn read_u64(bytes: &[u8], pos: usize) -> (x: u64)
    requires
        pos + 8 <= bytes.len(),
    ensures
        x == spec_u64_from_le_bytes(bytes@.subrange(pos as int, pos + 8)),
{
    u64_from_le_bytes(slice_subrange(bytes, pos, pos + 8))
}

/// A record takes the two length bytes, its path and the two 8-byte fields.
pub proof fn lemma_record_bytes_len(r: Record)
    ensures
        record_bytes(r).len() == record_len(r.path.len()),
{
    lemma_auto_spec_u16_to_from_le_bytes();
    lemma_auto_spec_u64_to_from_le_bytes();
}

/// A record whose bytes stand at `pos` is the record read there.
pub proof fn lemma_record_at(bytes: Seq<u8>, pos: int, r: Record)
    requires
        0 <= pos,
        pos + record_len(r.path.len()) <= bytes.len(),
        bytes.subrange(pos, pos + record_len(r.path.len())) == record_bytes(r),
        r.path.len() <= MAX_PATH_LEN,
    ensures
        record_at(bytes, pos) == Some(r),
{
    lemma_auto_spec_u16_to_from_le_bytes();
    lemma_auto_spec_u64_to_from_le_bytes();
    let n = r.path.len() as int;
    let whole = record_bytes(r);
    let len_field = spec_u16_to_le_bytes(n as u16);
    let size_field = spec_u64_to_le_bytes(r.size);
    let offset_field = spec_u64_to_le_bytes(r.data_offset);
    assert(whole.len() == 2 + n + 16);
    assert(bytes.subrange(pos, pos + 2) =~= whole.subrange(0, 2));
    assert(whole.subrange(0, 2) =~= len_field);
    assert(spec_u16_from_le_bytes(len_field) == n as u16);
    let path_end = pos + 2 + n;
    assert(bytes.subrange(pos + 2, path_end) =~= whole.subrange(2, 2 + n));
    assert(whole.subrange(2, 2 + n) =~= r.path);
    assert(bytes.subrange(path_end, path_end + 8) =~= whole.subrange(2 + n, 2 + n + 8));
    assert(whole.subrange(2 + n, 2 + n + 8) =~= size_field);
    assert(bytes.subrange(path_end + 8, path_end + 16) =~= whole.subrange(2 + n + 8, 2 + n + 16));
    assert(whole.subrange(2 + n + 8, 2 + n + 16) =~= offset_field);
}

/// The bytes of the first `k + 1` records are those of the first `k`, then
/// those of record `k`.
pub proof fn lemma_records_bytes_step(rs: Seq<Record>, k: int)
    requires
        0 <= k < rs.len(),
    ensures
        records_bytes(rs.take(k + 1)) == records_bytes(rs.take(k)) + record_bytes(rs[k]),
{
    assert(rs.take(k + 1).drop_last() =~= rs.take(k));
}

/// The bytes of the first `k` records open the bytes of all.
pub proof fn lemma_records_bytes_prefix(rs: Seq<Record>, k: int)
    requires
        0 <= k <= rs.len(),
    ensures
        records_bytes(rs.take(k)).len() <= records_bytes(rs).len(),
        records_bytes(rs).subrange(0, records_bytes(rs.take(k)).len() as int) == records_bytes(
            rs.take(k),
        ),
    decreases rs.len() - k,
{
    if k < rs.len() {
        lemma_records_bytes_prefix(rs, k + 1);
        lemma_records_bytes_step(rs, k);
        let shorter = records_bytes(rs.take(k));
        let longer = records_bytes(rs.take(k + 1));
        assert(records_bytes(rs).subrange(0, shorter.len() as int) =~= longer.subrange(
            0,
            shorter.len() as int,
        ));
        assert(longer.subrange(0, shorter.len() as int) =~= shorter);
    } else {
        assert(rs.take(k) =~= rs);
        assert(records_bytes(rs).subrange(0, records_bytes(rs).len() as int) =~= records_bytes(rs));
    }
}

/// Reading the first `k` records of a header gives back the first `k`
/// records that it was written from, whatever follows the header.
pub proof fn lemma_records_round_trip(rs: Seq<Record>, rest: Seq<u8>, k: int)
    requires
        0 <= k <= rs.len(),
        rs.len() <= MAX_FILE_COUNT,
        paths_fit(rs),
    ensures
        records_upto(header_bytes(rs) + rest, k as nat) == Some(
            (rs.take(k), (preamble_len() + records_bytes(rs.take(k)).len()) as int),
        ),
    decreases k,
{
    lemma_auto_spec_u32_to_from_le_bytes();
    let bytes = header_bytes(rs) + rest;
    if k == 0 {
        assert(rs.take(0) =~= Seq::<Record>::empty());
    } else {
        lemma_records_round_trip(rs, rest, k - 1);
        let r = rs[k - 1];
        let pos = (preamble_len() + records_bytes(rs.take(k - 1)).len()) as int;
        lemma_records_bytes_step(rs, k - 1);
        lemma_records_bytes_prefix(rs, k);
        lemma_record_bytes_len(r);
        let upto = records_bytes(rs.take(k));
        assert(bytes.subrange(pos, pos + record_len(r.path.len())) =~= records_bytes(rs).subrange(
            0,
            upto.len() as int,
        ).subrange(pos - preamble_len(), upto.len() as int));
        assert(upto.subrange(pos - preamble_len(), upto.len() as int) =~= record_bytes(r));
        lemma_record_at(bytes, pos, r);
        assert(rs.take(k - 1).push(r) =~= rs.take(k));
    }
}

/// A header reads back as the records that it was written from, whatever
/// follows it.
pub proof fn law_header_round_trip(rs: Seq<Record>, rest: Seq<u8>)
    requires
        rs.len() <= MAX_FILE_COUNT,
        paths_fit(rs),
    ensures
        header_records(header_bytes(rs) + rest) == Some(rs),
        header_bytes(rs).len() == preamble_len() + records_bytes(rs).len(),
{
    lemma_auto_spec_u32_to_from_le_bytes();
    let bytes = header_bytes(rs) + rest;
    assert(bytes.subrange(0, 4) =~= magic());
    assert(bytes.subrange(4, 8) =~= spec_u32_to_le_bytes(rs.len() as u32));
    assert(stated_count(bytes) == rs.len());
    lemma_records_round_trip(rs, rest, rs.len() as int);
    assert(rs.take(rs.len() as int) =~= rs);
}

/// Where the first `k` records cannot be read, no larger number can.
pub proof fn lemma_records_upto_none(bytes: Seq<u8>, k: nat, n: nat)
    requires
        k <= n,
        records_upto(bytes, k) is None,
    ensures
        records_upto(bytes, n) is None,
    decreases n,
{
    if k < n {
        lemma_records_upto_none(bytes, k, (n - 1) as nat);
    }
}

/// What can be read from the first `n` bytes alone is read from all of
/// them too, and ends inside the first `n`.
pub proof fn lemma_records_upto_prefix(bytes: Seq<u8>, n: int, k: nat)
    requires
        preamble_len() <= n <= bytes.len(),
        records_upto(bytes.take(n), k) is Some,
    ensures
        records_upto(bytes, k) == records_upto(bytes.take(n), k),
        records_upto(bytes, k).unwrap().1 <= n,
    decreases k,
{
    if k > 0 {
        let short = bytes.take(n);
        lemma_records_upto_prefix(bytes, n, (k - 1) as nat);
        let pos = records_upto(short, (k - 1) as nat).unwrap().1;
        let r = record_at(short, pos)->0;
        let path_end = pos + 2 + r.path.len();
        assert(short.subrange(pos, pos + 2) =~= bytes.subrange(pos, pos + 2));
        assert(short.subrange(pos + 2, path_end) =~= bytes.subrange(pos + 2, path_end));
        assert(short.subrange(path_end, path_end + 8) =~= bytes.subrange(path_end, path_end + 8));
        assert(short.subrange(path_end + 8, path_end + 16) =~= bytes.subrange(
            path_end + 8,
            path_end + 16,
        ));
    }
}

} // verus!
