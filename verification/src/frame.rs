//! The framing of records: an 8-byte little-endian length, then the body.

use vstd::prelude::*;
use vstd::slice::slice_subrange;
use vstd::slice::slice_to_vec;

verus! {

/// The eight bytes of `n`, least significant first.
pub open spec fn spec_le_bytes(n: int) -> Seq<u8> {
    let n1 = n / 256;
    let n2 = n1 / 256;
    let n3 = n2 / 256;
    let n4 = n3 / 256;
    let n5 = n4 / 256;
    let n6 = n5 / 256;
    let n7 = n6 / 256;
    seq![
        (n % 256) as u8,
        (n1 % 256) as u8,
        (n2 % 256) as u8,
        (n3 % 256) as u8,
        (n4 % 256) as u8,
        (n5 % 256) as u8,
        (n6 % 256) as u8,
        (n7 % 256) as u8,
    ]
}

/// The number that the first eight bytes of `b` spell, least significant first.
pub open spec fn spec_le_value(b: Seq<u8>) -> int
    recommends
        b.len() >= 8,
{
    b[0] + 256 * (b[1] + 256 * (b[2] + 256 * (b[3] + 256 * (b[4] + 256 * (b[5] + 256 * (b[6] + 256
        * (b[7] as int)))))))
}

/// Reading back the bytes of a number gives the number.
pub proof fn lemma_le_value_of_bytes(n: int)
    requires
        0 <= n <= u64::MAX,
    ensures
        spec_le_bytes(n).len() == 8,
        spec_le_value(spec_le_bytes(n)) == n,
{
    let n1 = n / 256;
    let n2 = n1 / 256;
    let n3 = n2 / 256;
    let n4 = n3 / 256;
    let n5 = n4 / 256;
    let n6 = n5 / 256;
    let n7 = n6 / 256;
    assert(n7 < 256);
}

/// Eight bytes spell a number below 2^64, and its bytes are those eight.
pub proof fn lemma_le_bytes_of_value(b: Seq<u8>)
    requires
        b.len() == 8,
    ensures
        0 <= spec_le_value(b) <= u64::MAX,
        spec_le_bytes(spec_le_value(b)) == b,
{
    let v7 = b[7] as int;
    let v6 = b[6] + 256 * v7;
    let v5 = b[5] + 256 * v6;
    let v4 = b[4] + 256 * v5;
    let v3 = b[3] + 256 * v4;
    let v2 = b[2] + 256 * v3;
    let v1 = b[1] + 256 * v2;
    let v0 = b[0] + 256 * v1;
    assert(v0 == spec_le_value(b));
    assert(v0 / 256 == v1 && v0 % 256 == b[0]);
    assert(v1 / 256 == v2 && v1 % 256 == b[1]);
    assert(v2 / 256 == v3 && v2 % 256 == b[2]);
    assert(v3 / 256 == v4 && v3 % 256 == b[3]);
    assert(v4 / 256 == v5 && v4 % 256 == b[4]);
    assert(v5 / 256 == v6 && v5 % 256 == b[5]);
    assert(v6 / 256 == v7 && v6 % 256 == b[6]);
    assert(v7 % 256 == b[7]);
    assert(spec_le_bytes(v0) =~= b);
}

/// One record as it lies in a partition file: the length of `body` in eight
/// little-endian bytes, then `body` itself.
pub open spec fn spec_frame(body: Seq<u8>) -> Seq<u8> {
    spec_le_bytes(body.len() as int) + body
}

/// The body of the record that begins at `offset` in `file`, where a whole
/// record lies there. `None` where the file ends before the length field or
/// before the body is complete.
pub open spec fn spec_record_at(file: Seq<u8>, offset: int) -> Option<Seq<u8>> {
    if 0 <= offset && offset + 8 <= file.len() {
        let n = spec_le_value(file.subrange(offset, offset + 8));
        if offset + 8 + n <= file.len() {
            Some(file.subrange(offset + 8, offset + 8 + n))
        } else {
            None
        }
    } else {
        None
    }
}

/// The records read from `file`, starting at `offset`: each with the position
/// of its length field, in file order, up to `limit` of them, ending early at
/// the first position that holds no whole record.
pub open spec fn spec_read(file: Seq<u8>, offset: int, limit: nat) -> Seq<(int, Seq<u8>)>
    decreases limit,
{
    if limit == 0 {
        Seq::empty()
    } else {
        match spec_record_at(file, offset) {
            None => Seq::empty(),
            Some(body) => seq![(offset, body)] + spec_read(
                file,
                offset + 8 + body.len(),
                (limit - 1) as nat,
            ),
        }
    }
}

/// A whole record ends within the file, and its body has the length that its
/// length field gives.
pub proof fn lemma_record_fits(file: Seq<u8>, offset: int)
    requires
        spec_record_at(file, offset) is Some,
    ensures
        0 <= offset,
        offset + 8 + spec_record_at(file, offset).unwrap().len() <= file.len(),
        spec_record_at(file, offset).unwrap().len() == spec_le_value(
            file.subrange(offset, offset + 8),
        ),
{
    lemma_le_bytes_of_value(file.subrange(offset, offset + 8));
}

/// What a list of records read stands for: positions and bodies as plain values.
pub open spec fn spec_records(records: Seq<(u64, Vec<u8>)>) -> Seq<(int, Seq<u8>)> {
    records.map_values(|r: (u64, Vec<u8>)| (r.0 as int, r.1@))
}

/// Writes `n` as eight little-endian bytes.
pub fn encode_len(n: u64) -> (bytes: Vec<u8>)
    ensures
        bytes@ == spec_le_bytes(n as int),
{
    let mut bytes: Vec<u8> = Vec::new();
    let mut rest: u64 = n;
    let mut i: usize = 0;
    while i < 8
        invariant
            i <= 8,
            bytes@.len() == i,
            forall|k: int| 0 <= k < i ==> bytes@[k] == spec_le_bytes(n as int)[k],
            i == 0 ==> rest == n,
            i == 1 ==> rest == n / 256,
            i == 2 ==> rest == n / 256 / 256,
            i == 3 ==> rest == n / 256 / 256 / 256,
            i == 4 ==> rest == n / 256 / 256 / 256 / 256,
            i == 5 ==> rest == n / 256 / 256 / 256 / 256 / 256,
            i == 6 ==> rest == n / 256 / 256 / 256 / 256 / 256 / 256,
            i == 7 ==> rest == n / 256 / 256 / 256 / 256 / 256 / 256 / 256,
        decreases 8 - i,
    {
        bytes.push((rest % 256) as u8);
        rest = rest / 256;
        i += 1;
    }
    assert(bytes@ =~= spec_le_bytes(n as int));
    bytes
}

/// Reads the eight little-endian bytes at the start of `bytes` as a number.
/// `None` where `bytes` is too short to hold a length field.
pub fn decode_len(bytes: &[u8]) -> (n: Option<u64>)
    ensures
        n == if bytes@.len() >= 8 {
            Some(spec_le_value(bytes@) as u64)
        } else {
            None
        },
        bytes@.len() >= 8 ==> 0 <= spec_le_value(bytes@) <= u64::MAX,
{
    if bytes.len() < 8 {
        return None;
    }
    let mut n: u64 = 0;
    let mut i: usize = 8;
    while i > 0
        invariant
            i <= 8,
            bytes@.len() >= 8,
            i == 8 ==> n == 0,
            i == 7 ==> n == bytes@[7],
            i == 6 ==> n == bytes@[6] + 256 * (bytes@[7] as int),
            i == 5 ==> n == bytes@[5] + 256 * (bytes@[6] + 256 * (bytes@[7] as int)),
            i == 4 ==> n == bytes@[4] + 256 * (bytes@[5] + 256 * (bytes@[6] + 256 * (
            bytes@[7] as int))),
            i == 3 ==> n == bytes@[3] + 256 * (bytes@[4] + 256 * (bytes@[5] + 256 * (bytes@[6]
                + 256 * (bytes@[7] as int)))),
            i == 2 ==> n == bytes@[2] + 256 * (bytes@[3] + 256 * (bytes@[4] + 256 * (bytes@[5]
                + 256 * (bytes@[6] + 256 * (bytes@[7] as int))))),
            i == 1 ==> n == bytes@[1] + 256 * (bytes@[2] + 256 * (bytes@[3] + 256 * (bytes@[4]
                + 256 * (bytes@[5] + 256 * (bytes@[6] + 256 * (bytes@[7] as int)))))),
            i == 0 ==> n == spec_le_value(bytes@),
        decreases i,
    {
        i -= 1;
        n = n * 256 + bytes[i] as u64;
    }
    Some(n)
}

/// Frames one record: the length of `body` in eight little-endian bytes,
/// followed by `body`.
pub fn encode_record(body: &[u8]) -> (frame: Vec<u8>)
    ensures
        frame@ == spec_frame(body@),
{
    let mut frame = encode_len(body.len() as u64);
    let mut i: usize = 0;
    while i < body.len()
        invariant
            i <= body@.len(),
            frame@ == spec_le_bytes(body@.len() as int) + body@.subrange(0, i as int),
        decreases body@.len() - i,
    {
        frame.push(body[i]);
        i += 1;
        assert(body@.subrange(0, i as int) =~= body@.subrange(0, i - 1).push(body@[i - 1]));
        assert(frame@ =~= spec_le_bytes(body@.len() as int) + body@.subrange(0, i as int));
    }
    assert(body@.subrange(0, i as int) =~= body@);
    frame
}

/// Takes the record that begins at `offset` out of `file`. `None` is the end
/// of readable data: the file holds no whole record at that position.
pub fn decode_record(file: &[u8], offset: u64) -> (body: Option<Vec<u8>>)
    ensures
        match body {
            Some(b) => spec_record_at(file@, offset as int) == Some(b@),
            None => spec_record_at(file@, offset as int) is None,
        },
{
    let len = file.len();
    if offset > len as u64 {
        return None;
    }
    let start = offset as usize;
    let n = match decode_len(slice_subrange(file, start, len)) {
        Some(n) => n,
        None => {
            return None;
        },
    };
    let room = len - start - 8;
    if n > room as u64 {
        return None;
    }
    let from = start + 8;
    let to = from + n as usize;
    Some(slice_to_vec(slice_subrange(file, from, to)))
}

/// Reads records from `file`, starting at `offset`, one after another, until
/// `limit` of them are read or the file holds no further whole record. Each
/// comes with the position at which it begins.
pub fn read_records(file: &[u8], offset: u64, limit: usize) -> (records: Vec<(u64, Vec<u8>)>)
    ensures
        spec_records(records@) == spec_read(file@, offset as int, limit as nat),
{
    let mut records: Vec<(u64, Vec<u8>)> = Vec::new();
    let mut pos: u64 = offset;
    let mut count: usize = 0;
    while count < limit
        invariant_except_break
            count <= limit,
            spec_read(file@, offset as int, limit as nat) == spec_records(records@) + spec_read(
                file@,
                pos as int,
                (limit - count) as nat,
            ),
        ensures
            spec_records(records@) == spec_read(file@, offset as int, limit as nat),
        decreases limit - count,
    {
        match decode_record(file, pos) {
            None => {
                assert(spec_records(records@) + Seq::<(int, Seq<u8>)>::empty() =~= spec_records(
                    records@,
                ));
                break ;
            },
            Some(body) => {
                let ghost before = records@;
                proof {
                    lemma_record_fits(file@, pos as int);
                    assert(file@.len() == file.len());
                }
                let next: u64 = pos + 8 + body.len() as u64;
                records.push((pos, body));
                proof {
                    let rest = spec_read(file@, next as int, (limit - count - 1) as nat);
                    assert(spec_records(records@) =~= spec_records(before) + seq![
                        (pos as int, body@),
                    ]);
                    assert(spec_records(before) + (seq![(pos as int, body@)] + rest) =~= (
                    spec_records(before) + seq![(pos as int, body@)]) + rest);
                }
                pos = next;
                count += 1;
            },
        }
    }
    assert(spec_records(records@) + Seq::<(int, Seq<u8>)>::empty() =~= spec_records(records@));
    records
}

} // verus!
