//! The executable IPS types: records, patches, and the decoder.

use crate::error::Error;
use crate::model;
use crate::model::RecordModel;
use vstd::prelude::*;

verus! {

/// One patch record: a literal byte payload, or a run-length fill.
#[derive(Debug, Clone, PartialEq, Eq)]
pub enum Record {
    Literal { offset: usize, data: Vec<u8> },
    RunLength { offset: usize, length: usize, fill_value: u8 },
}

impl View for Record {
    type V = RecordModel;

    open spec fn view(&self) -> RecordModel {
        match self {
            Record::Literal { offset, data } => RecordModel::Literal {
                offset: *offset as int,
                data: data@,
            },
            Record::RunLength { offset, length, fill_value } => RecordModel::RunLength {
                offset: *offset as int,
                length: *length as int,
                fill_value: *fill_value,
            },
        }
    }
}

impl Record {
    /// The record keeps the wire format's field bounds.
    pub open spec fn wf(self) -> bool {
        self@.wf()
    }
}

/// The models of a run of records, in order.
pub open spec fn views_of(rs: Seq<Record>) -> Seq<RecordModel> {
    rs.map_values(|r: Record| r@)
}

/// A decoded patch: the records of the byte stream, in stream order.
#[derive(Debug, Clone, PartialEq, Eq)]
pub struct Patch {
    pub records: Vec<Record>,
}

impl View for Patch {
    type V = Seq<RecordModel>;

    open spec fn view(&self) -> Seq<RecordModel> {
        views_of(self.records@)
    }
}

/// `res` with `prefix` put before its records; the error unchanged.
pub open spec fn prepend_decoded(
    prefix: Seq<RecordModel>,
    res: Result<Seq<RecordModel>, Error>,
) -> Result<Seq<RecordModel>, Error> {
    match res {
        Ok(rest) => Ok(prefix + rest),
        Err(e) => Err(e),
    }
}

/// Consuming one decoded record moves the pending prefix one record
/// forward: prepending `prefix` to the decode at `i` equals prepending
/// `prefix.push(rec)` to the decode at `next`, where `rec` is the
/// record the bytes at `i..next` carry.
proof fn lemma_prefix_step(
    prefix: Seq<RecordModel>,
    rec: RecordModel,
    s: Seq<u8>,
    i: int,
    next: int,
)
    requires
        model::decode_records_from(s, i) == prepend_decoded(
            seq![rec],
            model::decode_records_from(s, next),
        ),
    ensures
        prepend_decoded(prefix, model::decode_records_from(s, i)) == prepend_decoded(
            prefix.push(rec),
            model::decode_records_from(s, next),
        ),
{
    match model::decode_records_from(s, next) {
        Ok(rest) => {
            assert(prefix + (seq![rec] + rest) =~= prefix.push(rec) + rest);
        },
        Err(_) => {},
    }
}

impl Patch {
    /// Every record keeps the wire format's field bounds. `parse`
    /// establishes this; `apply` relies on it for bounds arithmetic.
    pub open spec fn wf(self) -> bool {
        forall|k: int| 0 <= k < self.records.len() ==> (#[trigger] self.records[k]).wf()
    }

    /// Decodes a raw byte stream into a patch.
    ///
    /// Returns exactly what [`model::decode`] prescribes for the bytes:
    /// `Ok` with the records of the stream when it carries the `PATCH`
    /// magic, a well-formed record run and the `EOF` tail, and the
    /// decode error of the first structural fault otherwise.
    pub fn parse(patch: &Vec<u8>) -> (r: Result<Self, Error>)
        ensures
            model::decode(patch@) matches Ok(rs) ==> r matches Ok(p) && p@ == rs && p.wf(),
            model::decode(patch@) matches Err(e) ==> r matches Err(pe) && pe == e,
    {
        if patch.len() < 5 || !(patch[0] == 80u8 && patch[1] == 65u8 && patch[2] == 84u8
            && patch[3] == 67u8 && patch[4] == 72u8) {
            proof {
                if patch@.len() >= 5 {
                    let head = patch@.subrange(0, 5);
                    assert(head[0] == patch@[0] && head[1] == patch@[1] && head[2] == patch@[2]
                        && head[3] == patch@[3] && head[4] == patch@[4]);
                    assert(head != model::patch_magic());
                }
            }
            return Err(Error::MissingHeader);
        }
        assert(patch@.subrange(0, 5) =~= model::patch_magic());

        let ghost s = patch@;
        let mut i: usize = 5;
        let mut records: Vec<Record> = Vec::new();

        proof {
            let d = model::decode_records_from(s, 5);
            if d is Ok {
                assert(Seq::<RecordModel>::empty() + d->Ok_0 =~= d->Ok_0);
            }
            assert(views_of(records@) =~= Seq::<RecordModel>::empty());
        }

        loop
            invariant
                5 <= i <= patch.len(),
                s == patch@,
                s.len() >= 5,
                s.subrange(0, 5) == model::patch_magic(),
                forall|k: int| 0 <= k < records.len() ==> (#[trigger] records[k]).wf(),
                model::decode_records_from(s, 5) == prepend_decoded(
                    views_of(records@),
                    model::decode_records_from(s, i as int),
                ),
            decreases patch.len() - i,
        {
            let ghost prefix = views_of(records@);
            let remaining = patch.len() - i;

            if remaining == 3 && patch[i] == 69u8 && patch[i + 1] == 79u8 && patch[i + 2] == 70u8 {
                assert(s.subrange(i as int, i + 3) =~= model::eof_marker());
                assert(model::decode_records_from(s, i as int) == Ok::<_, Error>(
                    Seq::<RecordModel>::empty(),
                ));
                assert(prefix + Seq::<RecordModel>::empty() =~= prefix);
                let p = Patch { records };
                assert(p@ == prefix);
                return Ok(p);
            }
            proof {
                if remaining == 3 {
                    let tail = s.subrange(i as int, i + 3);
                    assert(tail[0] == s[i as int] && tail[1] == s[i + 1] && tail[2] == s[i + 2]);
                    assert(tail != model::eof_marker());
                }
            }

            if remaining < 3 {
                return Err(Error::TruncatedOffset { available: remaining });
            }
            let offset: usize = (patch[i] as usize) * 0x10000 + (patch[i + 1] as usize) * 0x100 + (
            patch[i + 2] as usize);
            assert(offset == model::be24(s[i as int], s[i + 1], s[i + 2]));
            let i3 = i + 3;

            if patch.len() - i3 < 2 {
                return Err(Error::TruncatedSize { available: patch.len() - i3 });
            }
            let size: usize = (patch[i3] as usize) * 0x100 + (patch[i3 + 1] as usize);
            assert(size == model::be16(s[i3 as int], s[i3 + 1]));
            let body = i3 + 2;

            if size == 0 {
                if patch.len() - body < 2 {
                    return Err(Error::TruncatedRleSize { available: patch.len() - body });
                }
                let length: usize = (patch[body] as usize) * 0x100 + (patch[body + 1] as usize);
                assert(length == model::be16(s[body as int], s[body + 1]));
                if patch.len() - (body + 2) < 1 {
                    return Err(Error::TruncatedRleValue);
                }
                let fill_value = patch[body + 2];
                let rec = Record::RunLength { offset, length, fill_value };
                proof {
                    lemma_prefix_step(prefix, rec@, s, i as int, body + 3);
                    assert(prefix.push(rec@) =~= views_of(records@.push(rec)));
                }
                records.push(rec);
                i = body + 3;
            } else {
                if patch.len() - body < size {
                    return Err(Error::TruncatedData {
                        available: patch.len() - body,
                        required: size,
                    });
                }
                let mut data: Vec<u8> = Vec::new();
                let mut j: usize = 0;
                while j < size
                    invariant
                        j <= size,
                        body + size <= patch.len(),
                        s == patch@,
                        data@ == s.subrange(body as int, body + j),
                    decreases size - j,
                {
                    data.push(patch[body + j]);
                    assert(data@ =~= s.subrange(body as int, body + j + 1));
                    j = j + 1;
                }
                let rec = Record::Literal { offset, data };
                assert(rec@ == (RecordModel::Literal {
                    offset: offset as int,
                    data: s.subrange(body as int, body + size),
                }));
                proof {
                    lemma_prefix_step(prefix, rec@, s, i as int, body + size);
                    assert(prefix.push(rec@) =~= views_of(records@.push(rec)));
                }
                records.push(rec);
                i = body + size;
            }
        }
    }

    /// Applies the patch to a copy of `ibuf` and returns the patched
    /// buffer, exactly as [`model::apply_records`] prescribes: records
    /// replayed in stream order (so later records win where ranges
    /// overlap), the buffer grown with zero fill wherever a record
    /// writes past its current end. On a well-formed patch this never
    /// fails: the result is always `Ok`.
    pub fn apply(&self, ibuf: &Vec<u8>) -> (r: Result<Vec<u8>, Error>)
        requires
            self.wf(),
        ensures
            r matches Ok(obuf) && obuf@ == model::apply_records(ibuf@, self@),
    {
        let mut obuf: Vec<u8> = ibuf.clone();
        assert(obuf@ =~= ibuf@);
        let ghost rs = self@;
        let mut k: usize = 0;
        while k < self.records.len()
            invariant
                k <= self.records.len(),
                self.wf(),
                rs == self@,
                model::apply_records(ibuf@, rs) == model::apply_records_from(obuf@, rs, k as int),
            decreases self.records.len() - k,
        {
            let ghost pre = obuf@;
            assert(self.records[k as int].wf());
            assert(rs[k as int] == self.records[k as int]@);
            let rec = &self.records[k];
            match rec {
                Record::Literal { offset, data } => {
                    splice_bytes(&mut obuf, *offset, data);
                },
                Record::RunLength { offset, length, fill_value } => {
                    fill_bytes(&mut obuf, *offset, *length, *fill_value);
                },
            }
            assert(obuf@ == model::apply_record(pre, rs[k as int]));
            k = k + 1;
        }
        assert(model::apply_records_from(obuf@, rs, rs.len() as int) == obuf@);
        Ok(obuf)
    }

    /// Lays the patch back out as bytes, exactly as [`model::encode`]
    /// prescribes: the `PATCH` magic, each record in order — a literal
    /// record as offset, payload length and payload, a run-length
    /// record as offset, a zero size, its length and its fill byte —
    /// and the `EOF` tail.
    pub fn encode(&self) -> (r: Vec<u8>)
        requires
            self.wf(),
        ensures
            r@ == model::encode(self@),
    {
        let ghost rs = self@;
        let mut out: Vec<u8> = Vec::new();
        out.push(80);
        out.push(65);
        out.push(84);
        out.push(67);
        out.push(72);
        proof {
            assert(out@ =~= model::patch_magic());
            assert(rs.skip(0) =~= rs);
        }
        let mut k: usize = 0;
        while k < self.records.len()
            invariant
                k <= self.records.len(),
                self.wf(),
                rs == self@,
                model::encode(rs) == out@ + model::encode_records(rs.skip(k as int)),
            decreases self.records.len() - k,
        {
            let ghost before = out@;
            assert(self.records[k as int].wf());
            assert(rs[k as int] == self.records[k as int]@);
            let rec = &self.records[k];
            match rec {
                Record::Literal { offset, data } => {
                    let off: usize = *offset;
                    out.push(((off / 0x10000) % 0x100) as u8);
                    out.push(((off / 0x100) % 0x100) as u8);
                    out.push((off % 0x100) as u8);
                    let dlen: usize = data.len();
                    out.push(((dlen / 0x100) % 0x100) as u8);
                    out.push((dlen % 0x100) as u8);
                    let ghost fields = out@;
                    let mut j: usize = 0;
                    while j < data.len()
                        invariant
                            j <= data.len(),
                            out@ == fields + data@.subrange(0, j as int),
                        decreases data.len() - j,
                    {
                        out.push(data[j]);
                        assert(out@ =~= fields + data@.subrange(0, j + 1));
                        j = j + 1;
                    }
                    assert(data@.subrange(0, data@.len() as int) =~= data@);
                    assert(out@ =~= before + model::encode_record(rs[k as int]));
                },
                Record::RunLength { offset, length, fill_value } => {
                    let off: usize = *offset;
                    out.push(((off / 0x10000) % 0x100) as u8);
                    out.push(((off / 0x100) % 0x100) as u8);
                    out.push((off % 0x100) as u8);
                    out.push(0);
                    out.push(0);
                    let len: usize = *length;
                    out.push(((len / 0x100) % 0x100) as u8);
                    out.push((len % 0x100) as u8);
                    out.push(*fill_value);
                    assert(out@ =~= before + model::encode_record(rs[k as int]));
                },
            }
            proof {
                assert(rs.skip(k as int).skip(1) =~= rs.skip(k + 1));
                assert(rs.skip(k as int)[0] == rs[k as int]);
                assert(model::encode_records(rs.skip(k as int)) == model::encode_record(
                    rs[k as int],
                ) + model::encode_records(rs.skip(k + 1)));
                assert(before + (model::encode_record(rs[k as int]) + model::encode_records(
                    rs.skip(k + 1),
                )) =~= out@ + model::encode_records(rs.skip(k + 1)));
            }
            k = k + 1;
        }
        proof {
            assert(rs.skip(rs.len() as int) =~= Seq::<RecordModel>::empty());
        }
        let ghost body = out@;
        out.push(69);
        out.push(79);
        out.push(70);
        assert(out@ =~= body + model::eof_marker());
        out
    }

    /// Whether every record of the patch keeps the wire format's field
    /// bounds; true of every patch `parse` returns. `apply` and
    /// `encode` ask for a patch this holds of, so a caller that built
    /// a patch by hand can test it here first.
    pub fn check_wf(&self) -> (b: bool)
        ensures
            b == self.wf(),
    {
        let mut k: usize = 0;
        while k < self.records.len()
            invariant
                k <= self.records.len(),
                forall|j: int| 0 <= j < k ==> (#[trigger] self.records[j]).wf(),
            decreases self.records.len() - k,
        {
            let ok = match &self.records[k] {
                Record::Literal { offset, data } => *offset < 0x1000000 && 1 <= data.len()
                    && data.len() <= 0xffff,
                Record::RunLength { offset, length, .. } => *offset < 0x1000000 && *length
                    <= 0xffff,
            };
            if !ok {
                assert(!self.records[k as int].wf());
                return false;
            }
            assert(self.records[k as int].wf());
            k = k + 1;
        }
        true
    }
}

/// Grows `buf` with zero bytes until it is at least `n` long.
fn grow_zero(buf: &mut Vec<u8>, n: usize)
    ensures
        final(buf)@ == model::zero_extend(old(buf)@, n as int),
{
    let ghost pre = buf@;
    while buf.len() < n
        invariant
            pre.len() <= buf@.len(),
            buf@.len() <= n || buf@ == pre,
            forall|i: int| 0 <= i < pre.len() ==> buf@[i] == pre[i],
            forall|i: int| pre.len() <= i < buf@.len() ==> buf@[i] == 0u8,
        decreases n - buf.len(),
    {
        buf.push(0);
    }
    assert(buf@ =~= model::zero_extend(pre, n as int));
}

/// Writes `data` over `buf` at `offset`, growing `buf` with zero fill
/// first where `offset + data.len()` lies past its end.
fn splice_bytes(buf: &mut Vec<u8>, offset: usize, data: &Vec<u8>)
    requires
        offset + data@.len() <= usize::MAX,
    ensures
        final(buf)@ == model::splice(old(buf)@, offset as int, data@),
{
    let ghost pre = buf@;
    let target = offset + data.len();
    grow_zero(buf, target);
    let ghost grown = buf@;
    let mut j: usize = 0;
    while j < data.len()
        invariant
            j <= data.len(),
            offset + data@.len() <= usize::MAX,
            offset + data@.len() <= buf@.len(),
            buf@.len() == grown.len(),
            forall|i: int|
                0 <= i < buf@.len() ==> buf@[i] == (if offset <= i < offset + j {
                    data@[i - offset]
                } else {
                    grown[i]
                }),
        decreases data.len() - j,
    {
        buf.set(offset + j, data[j]);
        j = j + 1;
    }
    assert(buf@ =~= model::splice(pre, offset as int, data@));
}

/// Writes `length` copies of `fill_value` over `buf` at `offset`,
/// growing `buf` with zero fill first where `offset + length` lies
/// past its end.
fn fill_bytes(buf: &mut Vec<u8>, offset: usize, length: usize, fill_value: u8)
    requires
        offset + length <= usize::MAX,
    ensures
        final(buf)@ == model::splice(old(buf)@, offset as int, model::repeat_byte(length as int, fill_value)),
{
    let ghost pre = buf@;
    let target = offset + length;
    grow_zero(buf, target);
    let ghost grown = buf@;
    let mut j: usize = 0;
    while j < length
        invariant
            j <= length,
            offset + length <= usize::MAX,
            offset + length <= buf@.len(),
            buf@.len() == grown.len(),
            forall|i: int|
                0 <= i < buf@.len() ==> buf@[i] == (if offset <= i < offset + j {
                    fill_value
                } else {
                    grown[i]
                }),
        decreases length - j,
    {
        buf.set(offset + j, fill_value);
        j = j + 1;
    }
    assert(buf@ =~= model::splice(pre, offset as int, model::repeat_byte(length as int, fill_value)));
}

} // verus!
