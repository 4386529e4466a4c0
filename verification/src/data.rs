//! Table scheme: a 16-byte header (`len`, `keysize`, `valsize`), then `len`
//! packed records, each a little-endian key followed by a little-endian value.

use vstd::prelude::*;
use vstd::slice::*;
pub use crate::codec::UInt;
use crate::codec::{
    lemma_u32_le_inverse, lemma_u32_le_roundtrip, lemma_u64_le_roundtrip, u32_from_le, u32_from_le_bytes, u32_le_bytes,
    u32_to_le_bytes, u64_from_le, u64_from_le_bytes, u64_le_bytes, u64_to_le_bytes,
};
use crate::error::Error;

verus! {

/// The size of an encoded header in bytes.
pub const HEADER_LEN: usize = 16;

/// The byte width of a key in the store's tables.
pub const BILI2_KEY_SIZE: u32 = 4;

/// The byte width of a value in the store's tables.
pub const BILI2_VAL_SIZE: u32 = 4;

/// A key with its value.
pub type Record = (u32, u32);

/// The header of a table.
#[derive(Debug, Clone, Copy, PartialEq, Eq, Structural)]
pub struct TblMeta {
    /// Number of records.
    pub len: u64,
    /// Byte width of a key.
    pub keysize: u32,
    /// Byte width of a value.
    pub valsize: u32,
}

/// The order of records in a table: by key, and by value where keys are equal.
pub open spec fn record_le(a: Record, b: Record) -> bool {
    a.0 < b.0 || (a.0 == b.0 && a.1 <= b.1)
}

/// Records never decrease along the sequence.
pub open spec fn sorted(rs: Seq<Record>) -> bool {
    forall|i: int, j: int| 0 <= i <= j < rs.len() ==> record_le(rs[i], rs[j])
}

/// Sorted sequences of the same records are the same sequence: the records
/// that a sorted table holds settle where each of them stands.
pub proof fn lemma_sorted_unique(a: Seq<Record>, b: Seq<Record>)
    requires
        sorted(a),
        sorted(b),
        a.to_multiset() == b.to_multiset(),
    ensures
        a == b,
{
    let leq = |x: Record, y: Record| record_le(x, y);
    assert(vstd::relations::total_ordering(leq));
    assert(vstd::relations::sorted_by(a, leq)) by {
        assert forall|i: int, j: int| 0 <= i < j < a.len() implies #[trigger] leq(a[i], a[j]) by {
            assert(record_le(a[i], a[j]));
        }
    }
    assert(vstd::relations::sorted_by(b, leq)) by {
        assert forall|i: int, j: int| 0 <= i < j < b.len() implies #[trigger] leq(b[i], b[j]) by {
            assert(record_le(b[i], b[j]));
        }
    }
    vstd::seq_lib::lemma_sorted_unique(a, b, leq);
}

/// In a sorted table the key of a record is never larger than the key of the
/// record after it.
pub proof fn lemma_sorted_adjacent_keys(records: Seq<Record>, i: int)
    requires
        sorted(records),
        0 <= i,
        i + 1 < records.len(),
    ensures
        records[i].0 <= records[i + 1].0,
{
    assert(record_le(records[i], records[i + 1]));
}

/// Whether `a` comes strictly before `b` in the order of records.
pub fn record_lt(a: Record, b: Record) -> (lt: bool)
    ensures
        lt == !record_le(b, a),
{
    a.0 < b.0 || (a.0 == b.0 && a.1 < b.1)
}

/// Why a field of the given width cannot be read as a 32-bit integer.
pub open spec fn width_error(width: u32) -> Option<Error> {
    if width == 4 {
        None
    } else if width == 8 {
        Some(Error::KindMismatch)
    } else {
        Some(Error::UnsupportedWidth)
    }
}

/// What a field decodes to when it is read as a 32-bit integer.
pub open spec fn spec_field(s: Seq<u8>) -> Result<u32, Error> {
    match UInt::spec_decode(s) {
        Ok(u) => u.spec_into_u32(),
        Err(e) => Err(e),
    }
}

/// The record held in the first eight bytes of `s`.
pub open spec fn spec_record(s: Seq<u8>) -> Record {
    (u32_from_le(s.subrange(0, 4)), u32_from_le(s.subrange(4, 8)))
}

/// The eight bytes of a record.
pub open spec fn spec_record_bytes(r: Record) -> Seq<u8> {
    u32_le_bytes(r.0) + u32_le_bytes(r.1)
}

/// The records packed in `s`, eight bytes each.
pub open spec fn decode_records(s: Seq<u8>) -> Seq<Record> {
    Seq::new((s.len() / 8) as nat, |i: int| spec_record(s.subrange(8 * i, 8 * i + 8)))
}

/// The packed bytes of a sequence of records.
pub open spec fn encode_records(rs: Seq<Record>) -> Seq<u8>
    decreases rs.len(),
{
    if rs.len() == 0 {
        Seq::empty()
    } else {
        encode_records(rs.drop_last()) + spec_record_bytes(rs.last())
    }
}

/// A record is eight bytes, and decodes to itself.
pub proof fn lemma_record_roundtrip(r: Record)
    ensures
        spec_record_bytes(r).len() == 8,
        spec_record(spec_record_bytes(r)) == r,
{
    lemma_u32_le_roundtrip(r.0);
    lemma_u32_le_roundtrip(r.1);
    let b = spec_record_bytes(r);
    assert(b.subrange(0, 4) =~= u32_le_bytes(r.0));
    assert(b.subrange(4, 8) =~= u32_le_bytes(r.1));
}

/// Packed records take eight bytes each.
pub proof fn lemma_encode_records_len(rs: Seq<Record>)
    ensures
        encode_records(rs).len() == 8 * rs.len(),
    decreases rs.len(),
{
    if rs.len() > 0 {
        lemma_encode_records_len(rs.drop_last());
        lemma_record_roundtrip(rs.last());
    }
}

/// The `i`-th eight bytes of packed records are the bytes of the `i`-th record.
pub proof fn lemma_encode_records_at(rs: Seq<Record>, i: int)
    requires
        0 <= i < rs.len(),
    ensures
        encode_records(rs).len() == 8 * rs.len(),
        encode_records(rs).subrange(8 * i, 8 * i + 8) == spec_record_bytes(rs[i]),
    decreases rs.len(),
{
    lemma_encode_records_len(rs);
    lemma_encode_records_len(rs.drop_last());
    lemma_record_roundtrip(rs.last());
    let head = encode_records(rs.drop_last());
    let all = encode_records(rs);
    if i == rs.len() - 1 {
        assert(all.subrange(8 * i, 8 * i + 8) =~= spec_record_bytes(rs.last()));
    } else {
        lemma_encode_records_at(rs.drop_last(), i);
        assert(all.subrange(8 * i, 8 * i + 8) =~= head.subrange(8 * i, 8 * i + 8));
    }
}

/// Unpacking what was packed gives the records back.
pub proof fn lemma_records_roundtrip(rs: Seq<Record>)
    ensures
        encode_records(rs).len() == 8 * rs.len(),
        decode_records(encode_records(rs)) == rs,
{
    lemma_encode_records_len(rs);
    let s = encode_records(rs);
    assert forall|i: int| 0 <= i < rs.len() implies decode_records(s)[i] == rs[i] by {
        lemma_encode_records_at(rs, i);
        lemma_record_roundtrip(rs[i]);
    }
    assert(decode_records(s) =~= rs);
}

/// The bytes of the record that eight bytes hold are those bytes.
pub proof fn lemma_record_inverse(s: Seq<u8>)
    requires
        s.len() == 8,
    ensures
        spec_record_bytes(spec_record(s)) == s,
{
    lemma_u32_le_inverse(s.subrange(0, 4));
    lemma_u32_le_inverse(s.subrange(4, 8));
    assert(spec_record_bytes(spec_record(s)) =~= s.subrange(0, 4) + s.subrange(4, 8));
    assert(s.subrange(0, 4) + s.subrange(4, 8) =~= s);
}

/// Packing what was unpacked gives the bytes back: the records of a table
/// settle its bytes.
pub proof fn lemma_records_inverse(s: Seq<u8>)
    requires
        s.len() % 8 == 0,
    ensures
        encode_records(decode_records(s)) == s,
    decreases s.len(),
{
    let rs = decode_records(s);
    if s.len() == 0 {
        assert(encode_records(rs) =~= s);
    } else {
        let n = s.len() - 8;
        let head = s.subrange(0, n);
        let tail = s.subrange(n, s.len() as int);
        lemma_records_inverse(head);
        lemma_record_inverse(tail);
        assert(rs.len() == s.len() / 8);
        assert(rs.drop_last() =~= decode_records(head)) by {
            assert forall|i: int| 0 <= i < rs.len() - 1 implies rs.drop_last()[i] == decode_records(
                head,
            )[i] by {
                assert(s.subrange(8 * i, 8 * i + 8) =~= head.subrange(8 * i, 8 * i + 8));
            }
        }
        assert(rs.last() == spec_record(tail)) by {
            assert(s.subrange(8 * (rs.len() - 1), 8 * (rs.len() - 1) + 8) =~= tail);
        }
        assert(head + tail =~= s);
    }
}

impl TblMeta {
    /// Bytes per record.
    pub open spec fn unit(self) -> nat {
        (self.keysize + self.valsize) as nat
    }

    /// Bytes of the record region.
    pub open spec fn data_bytes(self) -> nat {
        self.len as nat * self.unit()
    }

    /// Bytes of the whole table: header and records.
    pub open spec fn spec_tbl_bytes(self) -> nat {
        16 + self.data_bytes()
    }

    /// The error that reading a record of such a table as a pair of 32-bit
    /// integers gives, if any: the key is looked at first.
    pub open spec fn schema_error(self) -> Option<Error> {
        if width_error(self.keysize) is Some {
            width_error(self.keysize)
        } else {
            width_error(self.valsize)
        }
    }

    /// The header with another record count.
    pub open spec fn with_len(self, len: u64) -> TblMeta {
        TblMeta { len, keysize: self.keysize, valsize: self.valsize }
    }

    /// The number of records in a record region of `body` bytes under this
    /// header, where the region may hold fewer records than the header
    /// announces: the region has to hold a whole number of records and no
    /// more than announced. Where records have no width the region has to be
    /// empty, and the announced count stands.
    pub open spec fn partial_len(self, body: int) -> Option<u64> {
        if self.unit() == 0 {
            if body == 0 {
                Some(self.len)
            } else {
                None
            }
        } else if body >= 0 && body % (self.unit() as int) == 0 && body / (self.unit() as int)
            <= self.len {
            Some((body / (self.unit() as int)) as u64)
        } else {
            None
        }
    }

    /// The sixteen header bytes.
    pub open spec fn spec_encode(self) -> Seq<u8> {
        u64_le_bytes(self.len) + u32_le_bytes(self.keysize) + u32_le_bytes(
            self.valsize,
        )
    }

    /// The header held in the first sixteen bytes of `s`.
    pub open spec fn spec_decode(s: Seq<u8>) -> TblMeta {
        TblMeta {
            len: u64_from_le(s.subrange(0, 8)),
            keysize: u32_from_le(s.subrange(8, 12)),
            valsize: u32_from_le(s.subrange(12, 16)),
        }
    }

    /// The size of the table in bytes, header included.
    pub fn tbl_bytes(&self) -> (n: u64)
        requires
            self.spec_tbl_bytes() <= u64::MAX,
        ensures
            n == self.spec_tbl_bytes(),
    {
        let unit: u64 = self.keysize as u64 + self.valsize as u64;
        assert(unit * self.len == self.len as nat * self.unit()) by (nonlinear_arith)
            requires
                unit == self.unit(),
        ;
        let data: u64 = unit * self.len;
        data + 16
    }

    /// The size of the table in bytes, or `None` where it does not fit in 64 bits.
    pub fn checked_tbl_bytes(&self) -> (n: Option<u64>)
        ensures
            n is Some <==> self.spec_tbl_bytes() <= u64::MAX,
            n is Some ==> n->Some_0 == self.spec_tbl_bytes(),
    {
        let unit: u64 = self.keysize as u64 + self.valsize as u64;
        assert(unit * self.len == self.len as nat * self.unit()) by (nonlinear_arith)
            requires
                unit == self.unit(),
        ;
        match unit.checked_mul(self.len) {
            Some(data) => data.checked_add(16),
            None => None,
        }
    }

    /// The number of records in a record region of `body` bytes under this
    /// header, where the region may hold fewer records than the header
    /// announces; `None` where the region does not fit the header.
    pub fn checked_partial_len(&self, body: u64) -> (n: Option<u64>)
        ensures
            n == self.partial_len(body as int),
            n is Some ==> n->Some_0 as nat * self.unit() == body,
    {
        let unit: u64 = self.keysize as u64 + self.valsize as u64;
        if unit == 0 {
            if body != 0 {
                return None;
            }
            assert(self.len as nat * 0 == 0) by (nonlinear_arith);
            return Some(self.len);
        }
        if body % unit != 0 || body / unit > self.len {
            return None;
        }
        let count: u64 = body / unit;
        assert(count as nat * unit as nat == body) by (nonlinear_arith)
            requires
                unit > 0,
                body % unit == 0,
                count == body / unit,
        ;
        Some(count)
    }

    /// Reads a header from the first sixteen bytes of `raw`; a shorter slice is
    /// `BadHeader`.
    pub fn from_raw(raw: &[u8]) -> (r: Result<TblMeta, Error>)
        ensures
            raw@.len() < 16 ==> r == Err::<TblMeta, Error>(Error::BadHeader),
            raw@.len() >= 16 ==> r == Ok::<TblMeta, Error>(TblMeta::spec_decode(raw@)),
    {
        if raw.len() < HEADER_LEN {
            return Err(Error::BadHeader);
        }
        let len = u64_from_le_bytes(slice_subrange(raw, 0, 8));
        let keysize = u32_from_le_bytes(slice_subrange(raw, 8, 12));
        let valsize = u32_from_le_bytes(slice_subrange(raw, 12, 16));
        Ok(TblMeta { len, keysize, valsize })
    }

    /// The sixteen header bytes.
    pub fn to_le_bytes(&self) -> (out: Vec<u8>)
        ensures
            out@ == self.spec_encode(),
            out@.len() == 16,
    {
        let mut out = u64_to_le_bytes(self.len);
        let mut k = u32_to_le_bytes(self.keysize);
        let mut v = u32_to_le_bytes(self.valsize);
        out.append(&mut k);
        out.append(&mut v);
        out
    }
}

/// A header is sixteen bytes, and decodes to itself whatever follows it.
pub proof fn lemma_meta_roundtrip(meta: TblMeta, rest: Seq<u8>)
    ensures
        meta.spec_encode().len() == 16,
        TblMeta::spec_decode(meta.spec_encode() + rest) == meta,
{
    lemma_u64_le_roundtrip(meta.len);
    lemma_u32_le_roundtrip(meta.keysize);
    lemma_u32_le_roundtrip(meta.valsize);
    let s = meta.spec_encode() + rest;
    assert(s.subrange(0, 8) =~= u64_le_bytes(meta.len));
    assert(s.subrange(8, 12) =~= u32_le_bytes(meta.keysize));
    assert(s.subrange(12, 16) =~= u32_le_bytes(meta.valsize));
}

/// Whether `s` is the image of a table: a header and exactly the records that
/// the header announces.
pub open spec fn valid_image(s: Seq<u8>) -> bool {
    s.len() >= 16 && s.len() == TblMeta::spec_decode(s).spec_tbl_bytes()
}

/// A field of four bytes reads as a 32-bit integer; any other width gives the
/// error of that width.
pub proof fn lemma_field(s: Seq<u8>, width: u32)
    requires
        s.len() == width,
    ensures
        width_error(width) is None ==> spec_field(s) == Ok::<u32, Error>(
            u32_from_le(s),
        ),
        width_error(width) matches Some(e) ==> spec_field(s) == Err::<u32, Error>(e),
{
}

/// Reads one field as a 32-bit integer.
pub fn read_field(field: &[u8]) -> (r: Result<u32, Error>)
    ensures
        r == spec_field(field@),
{
    match UInt::from_slice(field) {
        Ok(u) => u.into_u32(),
        Err(e) => Err(e),
    }
}

/// The eight bytes of a record: key, then value.
pub fn record_bytes(r: Record) -> (out: Vec<u8>)
    ensures
        out@ == spec_record_bytes(r),
        out@.len() == 8,
{
    let mut out = u32_to_le_bytes(r.0);
    let mut v = u32_to_le_bytes(r.1);
    out.append(&mut v);
    out
}

/// Reads a record of a table with the given header from `unit` bytes.
pub fn read_record(meta: &TblMeta, item: &[u8]) -> (r: Result<Record, Error>)
    requires
        item@.len() == meta.unit(),
    ensures
        meta.schema_error() matches Some(e) ==> r == Err::<Record, Error>(e),
        meta.schema_error() is None ==> r == Ok::<Record, Error>(spec_record(item@)),
{
    let ks = meta.keysize as usize;
    proof {
        lemma_field(item@.subrange(0, ks as int), meta.keysize);
        lemma_field(item@.subrange(ks as int, item@.len() as int), meta.valsize);
    }
    let key = match read_field(slice_subrange(item, 0, ks)) {
        Ok(k) => k,
        Err(e) => {
            return Err(e);
        },
    };
    let val = match read_field(slice_subrange(item, ks, item.len())) {
        Ok(v) => v,
        Err(e) => {
            return Err(e);
        },
    };
    Ok((key, val))
}

/// The image of a table in memory: its header and its record bytes.
pub struct Tbl {
    meta: TblMeta,
    data: Vec<u8>,
}

impl Tbl {
    /// The header.
    pub closed spec fn spec_meta(self) -> TblMeta {
        self.meta
    }

    /// The record region: everything after the header.
    pub closed spec fn bytes(self) -> Seq<u8> {
        self.data@
    }

    /// The record region holds exactly the records that the header announces.
    pub open spec fn wf(self) -> bool {
        self.bytes().len() == self.spec_meta().data_bytes()
    }

    #[verifier::type_invariant]
    spec fn inv(self) -> bool {
        self.wf()
    }

    /// The records of a table of 32-bit keys and values.
    pub open spec fn records(self) -> Seq<Record> {
        decode_records(self.bytes())
    }

    /// The bytes of the table as a file holds them.
    pub open spec fn image(self) -> Seq<u8> {
        self.spec_meta().spec_encode() + self.bytes()
    }

    /// The error that reading the table's records gives, if any: an empty
    /// table is never read, so its widths do not matter.
    pub open spec fn read_error(self) -> Option<Error> {
        if self.spec_meta().len == 0 {
            None
        } else {
            self.spec_meta().schema_error()
        }
    }

    /// What reading record `i` gives.
    pub open spec fn spec_record_at(self, i: int) -> Result<Record, Error> {
        if i >= self.spec_meta().len {
            Err(Error::EndOfTable)
        } else {
            match self.spec_meta().schema_error() {
                Some(e) => Err(e),
                None => Ok(self.records()[i]),
            }
        }
    }

    /// Takes a table from the bytes of a file. The image must hold a header
    /// and exactly the records that the header announces; anything else is
    /// `BadHeader`.
    pub fn from_raw(raw: &[u8]) -> (r: Result<Tbl, Error>)
        ensures
            !valid_image(raw@) ==> r is Err && r->Err_0 == Error::BadHeader,
            valid_image(raw@) ==> r is Ok && r->Ok_0.wf(),
            valid_image(raw@) ==> r->Ok_0.spec_meta() == TblMeta::spec_decode(raw@),
            valid_image(raw@) ==> r->Ok_0.bytes() == raw@.subrange(16, raw@.len() as int),
    {
        let meta = match TblMeta::from_raw(raw) {
            Ok(m) => m,
            Err(e) => {
                return Err(e);
            },
        };
        let size: usize = raw.len();
        match meta.checked_tbl_bytes() {
            Some(n) => {
                if n != size as u64 {
                    return Err(Error::BadHeader);
                }
            },
            None => {
                return Err(Error::BadHeader);
            },
        }
        let data = slice_to_vec(slice_subrange(raw, HEADER_LEN, raw.len()));
        Ok(Tbl { meta, data })
    }

    /// Takes a table from the bytes of a file whose header may announce more
    /// records than the file holds, as a table that was not filled does when
    /// its header was written first. The header of the result counts the
    /// records that are there. A file shorter than a header, one that ends
    /// inside a record, and one with more records than announced are
    /// `BadHeader`.
    pub fn from_raw_partial(raw: &[u8]) -> (r: Result<Tbl, Error>)
        ensures
            r matches Err(e) ==> e == Error::BadHeader,
            r is Ok <==> partial_image(raw@),
            r matches Ok(t) ==> t.wf() && t.spec_meta() == partial_meta(raw@) && t.bytes()
                == raw@.subrange(16, raw@.len() as int),
    {
        let declared = match TblMeta::from_raw(raw) {
            Ok(m) => m,
            Err(e) => {
                return Err(e);
            },
        };
        let body: u64 = (raw.len() - HEADER_LEN) as u64;
        let count = match declared.checked_partial_len(body) {
            Some(count) => count,
            None => {
                return Err(Error::BadHeader);
            },
        };
        let meta = TblMeta { len: count, keysize: declared.keysize, valsize: declared.valsize };
        let data = slice_to_vec(slice_subrange(raw, HEADER_LEN, raw.len()));
        Ok(Tbl { meta, data })
    }

    /// Puts a header and a record region together.
    pub(crate) fn assemble(meta: TblMeta, data: Vec<u8>) -> (t: Tbl)
        requires
            data@.len() == meta.data_bytes(),
        ensures
            t.wf(),
            t.spec_meta() == meta,
            t.bytes() == data@,
    {
        Tbl { meta, data }
    }

    /// Packs records of 32-bit keys and values into a table.
    pub fn from_records(records: &Vec<Record>) -> (t: Tbl)
        ensures
            t.wf(),
            t.spec_meta() == (TblMeta { len: records@.len() as u64, keysize: 4, valsize: 4 }),
            t.bytes() == encode_records(records@),
            t.records() == records@,
    {
        let mut data: Vec<u8> = Vec::new();
        let mut i: usize = 0;
        while i < records.len()
            invariant
                i <= records@.len(),
                data@ == encode_records(records@.take(i as int)),
            decreases records@.len() - i,
        {
            let mut item = record_bytes(records[i]);
            data.append(&mut item);
            proof {
                assert(records@.take(i + 1).drop_last() =~= records@.take(i as int));
            }
            i += 1;
        }
        proof {
            assert(records@.take(i as int) =~= records@);
            lemma_records_roundtrip(records@);
            assert(records@.len() as nat * 8 == 8 * records@.len()) by (nonlinear_arith);
        }
        Tbl { meta: TblMeta { len: records.len() as u64, keysize: 4, valsize: 4 }, data }
    }

    /// The header.
    pub fn meta(&self) -> (m: TblMeta)
        ensures
            m == self.spec_meta(),
            self.wf(),
    {
        proof {
            use_type_invariant(self);
        }
        self.meta
    }

    /// The number of records.
    pub fn len(&self) -> (n: u64)
        ensures
            n == self.spec_meta().len,
    {
        self.meta.len
    }

    /// The record region.
    pub fn data(&self) -> (d: &[u8])
        ensures
            d@ == self.bytes(),
            self.wf(),
    {
        proof {
            use_type_invariant(self);
        }
        self.data.as_slice()
    }

    /// The bytes of the table as a file holds them: the header, then the
    /// records.
    pub fn to_bytes(&self) -> (out: Vec<u8>)
        ensures
            out@ == self.image(),
            out@.len() == self.spec_meta().spec_tbl_bytes(),
            valid_image(out@),
    {
        proof {
            use_type_invariant(self);
            lemma_meta_roundtrip(self.meta, self.data@);
        }
        let mut out = self.meta.to_le_bytes();
        let mut body = slice_to_vec(self.data.as_slice());
        out.append(&mut body);
        out
    }

    /// Reads record `i` as a pair of 32-bit integers. An index past the last
    /// record is `EndOfTable`; a table of other widths gives the error of its
    /// widths.
    pub fn record(&self, i: u64) -> (r: Result<Record, Error>)
        ensures
            r == self.spec_record_at(i as int),
    {
        proof {
            use_type_invariant(self);
        }
        if i >= self.meta.len {
            return Err(Error::EndOfTable);
        }
        let unit: u64 = self.meta.keysize as u64 + self.meta.valsize as u64;
        let total: usize = self.data.len();
        assert(0 <= (i as int) * (unit as int) && (i as int) * (unit as int) + (unit as int)
            <= total) by (nonlinear_arith)
            requires
                0 <= i < self.meta.len,
                0 <= unit,
                total == (self.meta.len as int) * (unit as int),
        ;
        let from: usize = (i * unit) as usize;
        let to: usize = from + unit as usize;
        let item = slice_subrange(self.data.as_slice(), from, to);
        proof {
            if self.meta.schema_error() is None {
                assert(unit == 8);
                assert(from == 8 * i && total == 8 * self.meta.len) by (nonlinear_arith)
                    requires
                        unit == 8,
                        from == (i as int) * (unit as int),
                        total == (self.meta.len as int) * (unit as int),
                ;
                assert(item@ == self.bytes().subrange(8 * i, 8 * i + 8));
                assert(self.records()[i as int] == spec_record(item@));
            }
        }
        read_record(&self.meta, item)
    }

    /// All records, in table order.
    pub fn to_records(&self) -> (r: Result<Vec<Record>, Error>)
        ensures
            self.read_error() is Some ==> r is Err && r->Err_0 == self.read_error()->Some_0,
            self.read_error() is None ==> r is Ok && r->Ok_0@ == self.records(),
    {
        proof {
            use_type_invariant(self);
        }
        let mut out: Vec<Record> = Vec::new();
        let mut i: u64 = 0;
        while i < self.meta.len
            invariant
                i <= self.spec_meta().len,
                self.meta == self.spec_meta(),
                self.wf(),
                i > 0 ==> self.spec_meta().schema_error() is None,
                out@.len() == i,
                forall|j: int| 0 <= j < i ==> out@[j] == #[trigger] self.spec_record_at(j)->Ok_0,
            decreases self.spec_meta().len - i,
        {
            match self.record(i) {
                Ok(rec) => {
                    out.push(rec);
                },
                Err(e) => {
                    return Err(e);
                },
            }
            i += 1;
        }
        proof {
            if self.meta.len > 0 {
                lemma_records_len(*self);
            } else {
                lemma_empty_table(*self);
            }
            assert(out@ =~= self.records());
        }
        Ok(out)
    }
}

/// Whether `s` holds a header and a whole number of records, no more of them
/// than the header announces.
pub open spec fn partial_image(s: Seq<u8>) -> bool {
    s.len() >= 16 && TblMeta::spec_decode(s).partial_len(s.len() - 16) is Some
}

/// The header of a partly filled image, with the count of the records that
/// are there.
pub open spec fn partial_meta(s: Seq<u8>) -> TblMeta {
    TblMeta::spec_decode(s).with_len(TblMeta::spec_decode(s).partial_len(s.len() - 16).unwrap_or(0))
}

/// The records of the tables one after the other, in catalog order.
pub open spec fn db_records(tables: Seq<Tbl>) -> Seq<Record>
    decreases tables.len(),
{
    if tables.len() == 0 {
        Seq::empty()
    } else {
        db_records(tables.drop_last()) + tables.last().records()
    }
}

/// A table whose header announces no record has none.
pub proof fn lemma_empty_table(t: Tbl)
    requires
        t.wf(),
        t.spec_meta().len == 0,
    ensures
        t.bytes().len() == 0,
        t.records() == Seq::<Record>::empty(),
{
    assert(t.spec_meta().len as nat * t.spec_meta().unit() == 0) by (nonlinear_arith)
        requires
            t.spec_meta().len == 0,
    ;
    assert(t.records() =~= Seq::<Record>::empty());
}

/// A table of 32-bit keys and values has as many records as its header says.
pub proof fn lemma_records_len(t: Tbl)
    requires
        t.wf(),
        t.spec_meta().schema_error() is None,
    ensures
        t.records().len() == t.spec_meta().len,
        t.bytes().len() == 8 * t.spec_meta().len,
{
    assert(t.spec_meta().unit() == 8);
    assert(t.bytes().len() == 8 * t.spec_meta().len) by (nonlinear_arith)
        requires
            t.bytes().len() == t.spec_meta().len as nat * t.spec_meta().unit(),
            t.spec_meta().unit() == 8,
    ;
}

/// The records of a table of 32-bit keys and values settle its bytes.
pub proof fn lemma_table_bytes(t: Tbl)
    requires
        t.wf(),
        t.spec_meta().schema_error() is None,
    ensures
        t.bytes() == encode_records(t.records()),
{
    lemma_records_len(t);
    lemma_records_inverse(t.bytes());
}

/// A table's image has the size that its header gives, and reading the image
/// gives the header and the record bytes back.
pub proof fn lemma_image_roundtrip(t: Tbl)
    requires
        t.wf(),
    ensures
        t.image().len() == t.spec_meta().spec_tbl_bytes(),
        valid_image(t.image()),
        TblMeta::spec_decode(t.image()) == t.spec_meta(),
        t.image().subrange(16, t.image().len() as int) == t.bytes(),
{
    lemma_meta_roundtrip(t.spec_meta(), t.bytes());
    assert(t.image().subrange(16, t.image().len() as int) =~= t.bytes());
}

} // verus!
