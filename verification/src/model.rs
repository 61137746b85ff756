//! The mathematical model of the IPS format: what a record is, which
//! byte streams decode to which record sequences, how records are laid
//! back out as bytes, and what applying records to a buffer yields.
//!
//! Everything here is specification-level. The executable code in
//! [`crate::ips`] is verified against these functions, and the proof
//! functions at the end state the laws that relate them.

use crate::error::Error;
use vstd::prelude::*;

verus! {

/// The mathematical form of one patch record.
///
/// `Literal` overwrites the bytes at `offset..offset + data.len()` with
/// `data`; `RunLength` overwrites `offset..offset + length` with
/// `fill_value` repeated. A decoded `Literal` never has empty `data`:
/// a zero `size` field in the byte stream marks a run-length record
/// instead.
pub enum RecordModel {
    Literal { offset: int, data: Seq<u8> },
    RunLength { offset: int, length: int, fill_value: u8 },
}

impl RecordModel {
    /// The field bounds the wire format forces: a 24-bit offset, a
    /// 16-bit length, and a literal payload of 1 to 65535 bytes.
    pub open spec fn wf(self) -> bool {
        match self {
            RecordModel::Literal { offset, data } => {
                &&& 0 <= offset < 0x1000000
                &&& 1 <= data.len() <= 0xffff
            },
            RecordModel::RunLength { offset, length, fill_value } => {
                &&& 0 <= offset < 0x1000000
                &&& 0 <= length <= 0xffff
            },
        }
    }
}

/// The 5 magic bytes `PATCH` that open every patch.
pub open spec fn patch_magic() -> Seq<u8> {
    seq![80u8, 65u8, 84u8, 67u8, 72u8]
}

/// The 3 terminator bytes `EOF` that close every patch.
pub open spec fn eof_marker() -> Seq<u8> {
    seq![69u8, 79u8, 70u8]
}

/// The value of a big-endian 16-bit field with bytes `b0`, `b1`.
pub open spec fn be16(b0: u8, b1: u8) -> int {
    b0 * 0x100 + b1
}

/// The value of a big-endian 24-bit field with bytes `b0`, `b1`, `b2`.
pub open spec fn be24(b0: u8, b1: u8, b2: u8) -> int {
    b0 * 0x10000 + b1 * 0x100 + b2
}

/// The two bytes of `v` as a big-endian 16-bit field.
pub open spec fn be16_bytes(v: int) -> Seq<u8> {
    seq![((v / 0x100) % 0x100) as u8, (v % 0x100) as u8]
}

/// The three bytes of `v` as a big-endian 24-bit field.
pub open spec fn be24_bytes(v: int) -> Seq<u8> {
    seq![((v / 0x10000) % 0x100) as u8, ((v / 0x100) % 0x100) as u8, (v % 0x100) as u8]
}

/// Decodes the record run of `s` from position `i` on, exactly as the
/// format prescribes: stop at a 3-byte `EOF` tail, otherwise read one
/// record and continue after it, and fail with the truncation error of
/// the first field that the remaining bytes cannot fill.
pub open spec fn decode_records_from(s: Seq<u8>, i: int) -> Result<Seq<RecordModel>, Error>
    recommends
        0 <= i <= s.len(),
    decreases s.len() - i,
{
    if s.len() - i == 3 && s.subrange(i, i + 3) == eof_marker() {
        Ok(Seq::empty())
    } else if s.len() - i < 3 {
        Err(Error::TruncatedOffset { available: (s.len() - i) as usize })
    } else {
        let offset = be24(s[i], s[i + 1], s[i + 2]);
        if s.len() - (i + 3) < 2 {
            Err(Error::TruncatedSize { available: (s.len() - (i + 3)) as usize })
        } else {
            let size = be16(s[i + 3], s[i + 4]);
            let body = i + 5;
            if size == 0 {
                if s.len() - body < 2 {
                    Err(Error::TruncatedRleSize { available: (s.len() - body) as usize })
                } else if s.len() - (body + 2) < 1 {
                    Err(Error::TruncatedRleValue)
                } else {
                    let rec = RecordModel::RunLength {
                        offset,
                        length: be16(s[body], s[body + 1]),
                        fill_value: s[body + 2],
                    };
                    match decode_records_from(s, body + 3) {
                        Ok(rest) => Ok(seq![rec] + rest),
                        Err(e) => Err(e),
                    }
                }
            } else {
                if s.len() - body < size {
                    Err(Error::TruncatedData {
                        available: (s.len() - body) as usize,
                        required: size as usize,
                    })
                } else {
                    let rec = RecordModel::Literal { offset, data: s.subrange(body, body + size) };
                    match decode_records_from(s, body + size) {
                        Ok(rest) => Ok(seq![rec] + rest),
                        Err(e) => Err(e),
                    }
                }
            }
        }
    }
}

/// Decodes a whole patch: the `PATCH` magic, then the record run.
pub open spec fn decode(s: Seq<u8>) -> Result<Seq<RecordModel>, Error> {
    if s.len() < 5 || s.subrange(0, 5) != patch_magic() {
        Err(Error::MissingHeader)
    } else {
        decode_records_from(s, 5)
    }
}

/// The bytes of one record: offset, size, then either the run-length
/// fields behind a zero size or the literal payload behind its length.
pub open spec fn encode_record(r: RecordModel) -> Seq<u8> {
    match r {
        RecordModel::Literal { offset, data } => be24_bytes(offset) + be16_bytes(
            data.len() as int,
        ) + data,
        RecordModel::RunLength { offset, length, fill_value } => be24_bytes(offset) + seq![
            0u8,
            0u8,
        ] + be16_bytes(length) + seq![fill_value],
    }
}

/// The bytes of a record run: each record in order, then `EOF`.
pub open spec fn encode_records(rs: Seq<RecordModel>) -> Seq<u8>
    decreases rs.len(),
{
    if rs.len() == 0 {
        eof_marker()
    } else {
        encode_record(rs[0]) + encode_records(rs.skip(1))
    }
}

/// The bytes of a whole patch: the `PATCH` magic, then the record run.
pub open spec fn encode(rs: Seq<RecordModel>) -> Seq<u8> {
    patch_magic() + encode_records(rs)
}

/// `buf` grown with zero bytes until it is at least `n` long; `buf`
/// itself where it already is.
pub open spec fn zero_extend(buf: Seq<u8>, n: int) -> Seq<u8> {
    if n <= buf.len() {
        buf
    } else {
        buf + Seq::new((n - buf.len()) as nat, |i: int| 0u8)
    }
}

/// `buf`, grown with zero fill so that `offset + data.len()` fits, with
/// `data` written over positions `offset..offset + data.len()`.
pub open spec fn splice(buf: Seq<u8>, offset: int, data: Seq<u8>) -> Seq<u8>
    recommends
        0 <= offset,
{
    let grown = zero_extend(buf, offset + data.len());
    Seq::new(
        grown.len(),
        |i: int|
            if offset <= i < offset + data.len() {
                data[i - offset]
            } else {
                grown[i]
            },
    )
}

/// `b` repeated `n` times.
pub open spec fn repeat_byte(n: int, b: u8) -> Seq<u8> {
    Seq::new(n as nat, |i: int| b)
}

/// What applying one record to `buf` yields.
pub open spec fn apply_record(buf: Seq<u8>, r: RecordModel) -> Seq<u8> {
    match r {
        RecordModel::Literal { offset, data } => splice(buf, offset, data),
        RecordModel::RunLength { offset, length, fill_value } => splice(
            buf,
            offset,
            repeat_byte(length, fill_value),
        ),
    }
}

/// Applies the records of `rs` from position `k` on to `buf`, in order,
/// each over the result of the one before; later records therefore win
/// where ranges overlap.
pub open spec fn apply_records_from(buf: Seq<u8>, rs: Seq<RecordModel>, k: int) -> Seq<u8>
    recommends
        0 <= k <= rs.len(),
    decreases rs.len() - k,
{
    if k < 0 || k >= rs.len() {
        buf
    } else {
        apply_records_from(apply_record(buf, rs[k]), rs, k + 1)
    }
}

/// What applying a whole record sequence to `buf` yields.
pub open spec fn apply_records(buf: Seq<u8>, rs: Seq<RecordModel>) -> Seq<u8> {
    apply_records_from(buf, rs, 0)
}

/// Writing a 16-bit value back to bytes undoes reading it.
proof fn lemma_be16_inverse(b0: u8, b1: u8)
    ensures
        be16_bytes(be16(b0, b1)) =~= seq![b0, b1],
{
    let v = be16(b0, b1);
    vstd::arithmetic::div_mod::lemma_fundamental_div_mod_converse(v, 0x100, b0 as int, b1 as int);
    vstd::arithmetic::div_mod::lemma_small_mod(b0 as nat, 0x100);
}

/// Writing a 24-bit value back to bytes undoes reading it.
proof fn lemma_be24_inverse(b0: u8, b1: u8, b2: u8)
    ensures
        be24_bytes(be24(b0, b1, b2)) =~= seq![b0, b1, b2],
{
    let v = be24(b0, b1, b2);
    vstd::arithmetic::div_mod::lemma_fundamental_div_mod_converse(
        v,
        0x10000,
        b0 as int,
        b1 * 0x100 + b2,
    );
    vstd::arithmetic::div_mod::lemma_small_mod(b0 as nat, 0x100);
    vstd::arithmetic::div_mod::lemma_fundamental_div_mod_converse(
        v,
        0x100,
        b0 * 0x100 + b1,
        b2 as int,
    );
    vstd::arithmetic::div_mod::lemma_fundamental_div_mod_converse(
        b0 * 0x100 + b1,
        0x100,
        b0 as int,
        b1 as int,
    );
}

/// Re-encoding the records decoded from position `i` on reproduces the
/// bytes from `i` to the end.
proof fn lemma_decode_records_encode(s: Seq<u8>, i: int, rs: Seq<RecordModel>)
    requires
        0 <= i <= s.len(),
        decode_records_from(s, i) == Ok::<_, Error>(rs),
    ensures
        encode_records(rs) == s.subrange(i, s.len() as int),
    decreases s.len() - i,
{
    if s.len() - i == 3 && s.subrange(i, i + 3) == eof_marker() {
        assert(rs == Seq::<RecordModel>::empty());
        assert(s.subrange(i, s.len() as int) == s.subrange(i, i + 3));
    } else {
        let offset = be24(s[i], s[i + 1], s[i + 2]);
        let size = be16(s[i + 3], s[i + 4]);
        let body = i + 5;
        lemma_be24_inverse(s[i], s[i + 1], s[i + 2]);
        if size == 0 {
            let rec = RecordModel::RunLength {
                offset,
                length: be16(s[body], s[body + 1]),
                fill_value: s[body + 2],
            };
            let inner = decode_records_from(s, body + 3);
            assert(inner is Ok && rs == seq![rec] + inner->Ok_0);
            let rest = inner->Ok_0;
            lemma_decode_records_encode(s, body + 3, rest);
            lemma_be16_inverse(s[body], s[body + 1]);
            assert(s[i + 3] == 0 && s[i + 4] == 0);
            assert(encode_record(rec) =~= s.subrange(i, body + 3));
            assert(rs.skip(1) =~= rest);
            assert(rs[0] == rec);
            assert(encode_records(rs) == encode_record(rec) + encode_records(rest));
            assert(s.subrange(i, body + 3) + s.subrange(body + 3, s.len() as int) =~= s.subrange(
                i,
                s.len() as int,
            ));
        } else {
            let data = s.subrange(body, body + size);
            let rec = RecordModel::Literal { offset, data };
            let inner = decode_records_from(s, body + size);
            assert(inner is Ok && rs == seq![rec] + inner->Ok_0);
            let rest = inner->Ok_0;
            lemma_decode_records_encode(s, body + size, rest);
            lemma_be16_inverse(s[i + 3], s[i + 4]);
            assert(data.len() == size);
            assert(encode_record(rec) =~= s.subrange(i, body + size));
            assert(rs.skip(1) =~= rest);
            assert(rs[0] == rec);
            assert(encode_records(rs) == encode_record(rec) + encode_records(rest));
            assert(s.subrange(i, body + size) + s.subrange(body + size, s.len() as int)
                =~= s.subrange(i, s.len() as int));
        }
    }
}

/// Round trip: a byte stream that decodes successfully is reproduced,
/// byte for byte, by re-encoding the records it decoded to.
pub proof fn lemma_decode_encode_round_trip(s: Seq<u8>, rs: Seq<RecordModel>)
    requires
        decode(s) == Ok::<_, Error>(rs),
    ensures
        encode(rs) == s,
{
    assert(s.len() >= 5 && s.subrange(0, 5) == patch_magic());
    lemma_decode_records_encode(s, 5, rs);
    assert forall|j: int| 0 <= j < 5 implies s[j] == patch_magic()[j] by {
        assert(s.subrange(0, 5)[j] == s[j]);
    }
    assert(patch_magic() + s.subrange(5, s.len() as int) =~= s);
}

/// Applying an empty record sequence leaves the buffer unchanged.
pub proof fn lemma_apply_empty(buf: Seq<u8>)
    ensures
        apply_records(buf, Seq::<RecordModel>::empty()) == buf,
{
}

/// A literal record that writes past the buffer's end grows the buffer
/// with zero fill before writing: the result is exactly
/// `offset + data.len()` long, keeps the old bytes below `offset`, is
/// zero between the old end and `offset`, and carries `data` from
/// `offset` on.
pub proof fn lemma_literal_extends(buf: Seq<u8>, offset: int, data: Seq<u8>)
    requires
        0 <= offset,
        buf.len() < offset + data.len(),
    ensures
        ({
            let out = apply_records(buf, seq![RecordModel::Literal { offset, data }]);
            &&& out.len() == offset + data.len()
            &&& forall|i: int| 0 <= i < buf.len() && i < offset ==> out[i] == buf[i]
            &&& forall|i: int| buf.len() <= i < offset ==> out[i] == 0u8
            &&& forall|i: int|
                offset <= i < offset + data.len() ==> out[i] == data[i - offset]
        }),
{
    let rs = seq![RecordModel::Literal { offset, data }];
    assert(apply_records_from(buf, rs, 0) == apply_records_from(apply_record(buf, rs[0]), rs, 1));
    assert(apply_records(buf, rs) == apply_record(buf, rs[0]));
}

} // verus!
