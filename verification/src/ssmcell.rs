//! The cells of a StandardStMan data file: scalars, strings and arrays.
//!
//! A string of at most eight bytes lies in its cell; a longer one lies in the
//! string buckets, and its cell refers to it. An array lies in the array
//! index file (`table.f0i`), and its cell holds the offset there.
use crate::aipsio::Cursor;
use crate::bytes;
use crate::bytes::{to_signed32, to_signed64, uint_from};
use crate::columnset::{StandardModel, StandardStMan};
use crate::record;
use crate::record::{
    data_type_name, ArrayModel, ArrayValue, DataType, RecordError, RecordFault, RecordValue,
    ValueModel,
};
use crate::recordio;
use crate::recordio::{read_array_elements, read_scalar_value};
use crate::ssm;
use crate::ssm::{
    read_i32_at, reader, u32_at, SsmError, SsmFault, SsmModel, StandardStManFile, ARRAY_REF_SIZE,
};
use crate::tabledesc::{ColumnDesc, ColumnKind, ColumnModel};
use crate::text;
use crate::text::{lossy_text, text_eq};
use vstd::prelude::*;

verus! {

/// Bytes of one element of an array in the array index file. (The elements
/// of a Bool array are bits; see [`array_bytes`].)
pub open spec fn elem_size(dt: DataType) -> nat {
    match dt {
        DataType::Bool | DataType::Char | DataType::UChar => 1,
        DataType::Short | DataType::UShort => 2,
        DataType::Int | DataType::UInt | DataType::Float => 4,
        DataType::DComplex => 16,
        _ => 8,
    }
}

pub(crate) fn array_elem_size(dt: DataType) -> (r: usize)
    ensures
        r == elem_size(dt),
        1 <= r <= 16,
{
    match dt {
        DataType::Bool | DataType::Char | DataType::UChar => 1,
        DataType::Short | DataType::UShort => 2,
        DataType::Int | DataType::UInt | DataType::Float => 4,
        DataType::DComplex => 16,
        _ => 8,
    }
}

/// Bytes of an array of `n` elements in the array index file: Bool elements
/// are packed eight to a byte.
pub open spec fn array_bytes(dt: DataType, n: nat) -> nat {
    if dt == DataType::Bool {
        (n + 7) / 8
    } else {
        n * elem_size(dt)
    }
}

/// Bytes per row of a scalar column in the bucket.
pub open spec fn cell_size(dt: DataType, max_length: i32) -> u32 {
    match dt {
        DataType::String => if max_length > 0 {
            max_length as u32
        } else {
            12
        },
        DataType::Bool | DataType::UChar | DataType::Char => 1,
        DataType::Short | DataType::UShort => 2,
        DataType::Int | DataType::UInt | DataType::Float => 4,
        DataType::Double | DataType::Int64 | DataType::Complex => 8,
        DataType::DComplex => 16,
        _ => 0,
    }
}

/// Bytes per row of a scalar column in the bucket. A variable string cell
/// holds a reference of three integers (bucket, offset, length); a short
/// string is stored over it.
pub fn scalar_cell_size(desc: &ColumnDesc) -> (r: u32)
    ensures
        r == cell_size(desc@.data_type, desc@.max_length),
{
    match desc.data_type {
        DataType::String => {
            if desc.max_length > 0 {
                desc.max_length as u32
            } else {
                12
            }
        },
        DataType::Bool | DataType::UChar | DataType::Char => 1,
        DataType::Short | DataType::UShort => 2,
        DataType::Int | DataType::UInt | DataType::Float => 4,
        DataType::Double | DataType::Int64 | DataType::Complex => 8,
        DataType::DComplex => 16,
        _ => 0,
    }
}

/// The position of the first NUL at or after `k`, or the end.
pub open spec fn nul_from(s: Seq<u8>, k: int) -> int
    decreases s.len() - k,
{
    if k >= s.len() || s[k] == 0 {
        k
    } else {
        nul_from(s, k + 1)
    }
}

/// The bytes before the first NUL.
pub open spec fn until_nul(s: Seq<u8>) -> Seq<u8> {
    s.subrange(0, nul_from(s, 0))
}

/// The name of a column that has no scalar cells.
pub open spec fn odd_column(dt: DataType, name: Seq<char>) -> Seq<char> {
    record::type_text(dt) + " ("@ + name + ")"@
}

/// The value of a variable string cell.
pub open spec fn short_string(cell: Seq<u8>, big: bool) -> Result<ValueModel, SsmFault> {
    match ssm::i32_in(cell, 8, big) {
        Err(f) => Err(f),
        Ok(len) => if len > 8 {
            Err(
                SsmFault::StringBucketUnsupported {
                    bucket: bytes::signed32(
                        bytes::uint_value(big, cell.subrange(0, 4)) as u32,
                    ),
                    len,
                },
            )
        } else {
            Ok(
                ValueModel::String(
                    text::lossy(
                        cell.subrange(
                            0,
                            if len < 0 {
                                0
                            } else {
                                len as int
                            },
                        ),
                    ),
                ),
            )
        },
    }
}

/// The value of a scalar cell.
pub open spec fn decoded(cell: Seq<u8>, desc: ColumnModel, big: bool) -> Result<
    ValueModel,
    SsmFault,
> {
    if desc.data_type == DataType::String {
        if desc.max_length > 0 {
            Ok(ValueModel::String(text::lossy(until_nul(cell))))
        } else {
            short_string(cell, big)
        }
    } else {
        match recordio::scalar_at(Cursor { data: cell, big, pos: 0 }, desc.data_type) {
            Ok((v, _)) => Ok(v),
            Err((RecordFault::AipsIo(f), _)) => Err(SsmFault::AipsIo(f)),
            Err(_) => Err(SsmFault::ArrayColumn(odd_column(desc.data_type, desc.name))),
        }
    }
}

fn nul_position(s: &[u8]) -> (r: usize)
    ensures
        r == nul_from(s@, 0),
        r <= s@.len(),
{
    let mut k: usize = 0;
    while k < s.len() && s[k] != 0
        invariant
            k <= s@.len(),
            nul_from(s@, 0) == nul_from(s@, k as int),
        decreases s@.len() - k,
    {
        k = k + 1;
    }
    k
}

/// Decode a scalar cell value for the column. A fixed-length string is
/// padded with NULs and runs to the first of them.
pub fn decode_scalar(cell: &[u8], desc: &ColumnDesc, big_endian: bool) -> (res: Result<
    RecordValue,
    SsmError,
>)
    ensures
        match decoded(cell@, desc@, big_endian) {
            Ok(v) => res is Ok && res->Ok_0@ == v,
            Err(f) => res is Err && res->Err_0@ == f,
        },
{
    if desc.data_type == DataType::String {
        if desc.max_length > 0 {
            let k: usize = nul_position(cell);
            return Ok(
                RecordValue::String(lossy_text(vstd::slice::slice_subrange(cell, 0, k))),
            );
        }
        let len: i32 = read_i32_at(cell, 8, big_endian)?;
        if len > 8 {
            let bucket: i32 = read_i32_at(cell, 0, big_endian)?;
            return Err(SsmError::StringBucketUnsupported { bucket, len });
        }
        let n: usize = if len < 0 { 0 } else { len as usize };
        return Ok(RecordValue::String(lossy_text(vstd::slice::slice_subrange(cell, 0, n))));
    }
    let mut r = reader(cell, big_endian);
    match read_scalar_value(&mut r, desc.data_type) {
        Ok(v) => Ok(v),
        Err(RecordError::AipsIo(e)) => Err(SsmError::AipsIo(e)),
        Err(_) => {
            let mut s: String = data_type_name(desc.data_type).to_owned();
            s.append(" (");
            s.append(desc.name.as_str());
            s.append(")");
            Err(SsmError::ArrayColumn(s))
        },
    }
}

/// The index number and the offset of column `col` of a storage manager.
pub open spec fn column_place(manager: StandardModel, col: int) -> Result<(u32, u32), SsmFault> {
    if col >= manager.col_index_map.len() {
        Err(SsmFault::IndexMissing { index: col, count: manager.col_index_map.len() as int })
    } else if col >= manager.column_offset.len() {
        Err(SsmFault::IndexMissing { index: col, count: manager.column_offset.len() as int })
    } else {
        Ok((manager.col_index_map[col], manager.column_offset[col]))
    }
}

impl SsmModel {
    /// The bytes of a string of which `left` bytes are still wanted, from
    /// `offset` in string bucket `b` on. A string bucket carries a header of
    /// four big-endian integers (unused, used length, deleted, next bucket);
    /// its data start at byte 16, and a string that does not fit goes on in
    /// the next bucket.
    pub open spec fn string_bytes(self, b: i32, offset: int, left: int, length: u32) -> Result<
        Seq<u8>,
        SsmFault,
    >
        decreases left,
    {
        if left <= 0 {
            Ok(Seq::empty())
        } else {
            match self.bucket(b as u32) {
                Err(f) => Err(f),
                Ok(bucket) => if bucket.len() < 16 {
                    Err(
                        SsmFault::BadStringRef {
                            bucket: b,
                            offset: offset as i32,
                            length: left as u32,
                        },
                    )
                } else {
                    let used = bytes::signed32(
                        bytes::uint_value(true, bucket.subrange(4, 8)) as u32,
                    );
                    let next = bytes::signed32(
                        bytes::uint_value(true, bucket.subrange(12, 16)) as u32,
                    );
                    let n = ssm::min(left, used - offset);
                    if used <= offset {
                        Err(
                            SsmFault::BadStringRef {
                                bucket: b,
                                offset: offset as i32,
                                length: left as u32,
                            },
                        )
                    } else if 16 + offset + n > bucket.len() || (left > n && next < 0) {
                        Err(SsmFault::BadStringRef { bucket: b, offset: offset as i32, length })
                    } else {
                        let piece = bucket.subrange(16 + offset, 16 + offset + n);
                        if left == n {
                            Ok(piece)
                        } else {
                            match self.string_bytes(next, 0, left - n, length) {
                                Err(f) => Err(f),
                                Ok(rest) => Ok(piece + rest),
                            }
                        }
                    }
                },
            }
        }
    }

    /// The string that a reference leads to.
    pub open spec fn long_string(self, bucket: i32, offset: i32, length: u32) -> Result<
        Seq<char>,
        SsmFault,
    > {
        if bucket < 0 || offset < 0 {
            Err(SsmFault::BadStringRef { bucket, offset, length })
        } else {
            match self.string_bytes(bucket, offset as int, length as int, length) {
                Err(f) => Err(f),
                Ok(b) => Ok(text::lossy(b)),
            }
        }
    }

    /// The value of a variable string cell, wherever the string lies.
    pub open spec fn string_value(self, cell: Seq<u8>) -> Result<ValueModel, SsmFault> {
        let big = self.header.big_endian;
        match ssm::i32_in(cell, 8, big) {
            Err(f) => Err(f),
            Ok(len) => if len > 8 {
                match self.long_string(
                    bytes::signed32(bytes::uint_value(big, cell.subrange(0, 4)) as u32),
                    bytes::signed32(bytes::uint_value(big, cell.subrange(4, 8)) as u32),
                    len as u32,
                ) {
                    Err(f) => Err(f),
                    Ok(s) => Ok(ValueModel::String(s)),
                }
            } else {
                short_string(cell, big)
            },
        }
    }

    /// The value of the scalar cell at `row` of column `col`.
    pub open spec fn scalar(self, manager: StandardModel, col: int, desc: ColumnModel, row: u64) -> Result<
        ValueModel,
        SsmFault,
    > {
        if desc.data_manager_type != "StandardStMan"@ {
            Err(SsmFault::NotStandardStMan(desc.name, desc.data_manager_type))
        } else if desc.kind is Array {
            Err(SsmFault::ArrayColumn(desc.name))
        } else {
            match column_place(manager, col) {
                Err(f) => Err(f),
                Ok((index, offset)) => if desc.data_type == DataType::Bool {
                    match self.bit_cell(index as int, offset, row) {
                        Err(f) => Err(f),
                        Ok(b) => Ok(ValueModel::Bool(b)),
                    }
                } else {
                    match self.cell(
                        index as int,
                        offset,
                        row,
                        cell_size(desc.data_type, desc.max_length),
                    ) {
                        Err(f) => Err(f),
                        Ok(cell) => if desc.data_type == DataType::String && desc.max_length
                            <= 0 {
                            self.string_value(cell)
                        } else {
                            decoded(cell, desc, self.header.big_endian)
                        },
                    }
                },
            }
        }
    }
}

pub(crate) fn place(manager: &StandardStMan, col_idx: usize) -> (res: Result<
    (u32, u32),
    SsmError,
>)
    ensures
        match column_place(manager@, col_idx as int) {
            Ok(p) => res == Ok::<(u32, u32), SsmError>(p),
            Err(f) => res is Err && res->Err_0@ == f,
        },
{
    if col_idx >= manager.col_index_map.len() {
        return Err(SsmError::IndexMissing { index: col_idx, count: manager.col_index_map.len() });
    }
    if col_idx >= manager.column_offset.len() {
        return Err(SsmError::IndexMissing { index: col_idx, count: manager.column_offset.len() });
    }
    Ok((manager.col_index_map[col_idx], manager.column_offset[col_idx]))
}

/// The outcome of a string of which `done` has already been read.
pub open spec fn after(done: Seq<u8>, rest: Result<Seq<u8>, SsmFault>) -> Result<
    Seq<u8>,
    SsmFault,
> {
    match rest {
        Ok(b) => Ok(done + b),
        Err(f) => Err(f),
    }
}

impl StandardStManFile {
    /// Read a string stored in the string buckets.
    fn read_long_string(&self, bucket: i32, offset: i32, length: u32) -> (res: Result<
        String,
        SsmError,
    >)
        ensures
            match self@.long_string(bucket, offset, length) {
                Ok(s) => res is Ok && res->Ok_0@ == s,
                Err(f) => res is Err && res->Err_0@ == f,
            },
    {
        if bucket < 0 || offset < 0 {
            return Err(SsmError::BadStringRef { bucket, offset, length });
        }
        let mut out: Vec<u8> = Vec::new();
        let mut b: i32 = bucket;
        let mut off: i64 = offset as i64;
        let mut left: i64 = length as i64;
        let ghost all = self@.string_bytes(b, off as int, left as int, length);
        proof {
            let rest = self@.string_bytes(b, off as int, left as int, length);
            if rest is Ok {
                assert(out@ + rest->Ok_0 =~= rest->Ok_0);
            }
        }
        while left > 0
            invariant
                0 <= left <= length,
                0 <= off <= i32::MAX,
                bucket >= 0,
                offset >= 0,
                b >= 0,
                all == self@.string_bytes(bucket, offset as int, length as int, length),
                all == after(out@, self@.string_bytes(b, off as int, left as int, length)),
            decreases left,
        {
            let bytes_ = self.bucket_bytes(b as u32)?;
            if bytes_.len() < 16 {
                return Err(
                    SsmError::BadStringRef { bucket: b, offset: off as i32, length: left as u32 },
                );
            }
            let used: i64 = to_signed32(
                uint_from(true, vstd::slice::slice_subrange(bytes_, 4, 8)) as u32,
            ) as i64;
            let next: i32 = to_signed32(
                uint_from(true, vstd::slice::slice_subrange(bytes_, 12, 16)) as u32,
            );
            let avail: i64 = used - off;
            if avail <= 0 {
                return Err(
                    SsmError::BadStringRef { bucket: b, offset: off as i32, length: left as u32 },
                );
            }
            let take: i64 = if left < avail { left } else { avail };
            let end: i64 = 16 + off + take;
            if end as u64 > bytes_.len() as u64 || (left > take && next < 0) {
                return Err(SsmError::BadStringRef { bucket: b, offset: off as i32, length });
            }
            let piece = vstd::slice::slice_subrange(bytes_, 16 + off as usize, end as usize);
            let ghost before = out@;
            out.extend_from_slice(piece);
            proof {
                assert(out@ =~= before + piece@);
                let rest = self@.string_bytes(next, 0, left - take, length);
                if left > take && rest is Ok {
                    assert((before + piece@) + rest->Ok_0 =~= before + (piece@ + rest->Ok_0));
                }
                if left == take {
                    assert(out@ + Seq::<u8>::empty() =~= out@);
                }
            }
            left = left - take;
            if left > 0 {
                b = next;
                off = 0;
            }
        }
        assert(out@ + Seq::<u8>::empty() =~= out@);
        Ok(lossy_text(out.as_slice()))
    }

    /// Decode one scalar cell for the column of table column index `col_idx`
    /// at `row`, using the offsets from `table.dat`.
    pub fn read_scalar_cell(&self, manager: &StandardStMan, col_idx: usize, desc: &ColumnDesc, row: u64) -> (res:
        Result<RecordValue, SsmError>)
        ensures
            match self@.scalar(manager@, col_idx as int, desc@, row) {
                Ok(v) => res is Ok && res->Ok_0@ == v,
                Err(f) => res is Err && res->Err_0@ == f,
            },
    {
        if !text_eq(desc.data_manager_type.as_str(), "StandardStMan") {
            return Err(
                SsmError::NotStandardStMan(
                    desc.name.clone(),
                    desc.data_manager_type.clone(),
                ),
            );
        }
        if let ColumnKind::Array = desc.kind {
            return Err(SsmError::ArrayColumn(desc.name.clone()));
        }
        let (index, offset) = place(manager, col_idx)?;
        if desc.data_type == DataType::Bool {
            return Ok(RecordValue::Bool(self.cell_bit(index as usize, offset, row)?));
        }
        let cell = self.cell_bytes(index as usize, offset, row, scalar_cell_size(desc))?;
        let big: bool = self.header().big_endian;
        if desc.data_type == DataType::String && desc.max_length <= 0 {
            let len: i32 = read_i32_at(cell, 8, big)?;
            if len > 8 {
                let bucket: i32 = read_i32_at(cell, 0, big)?;
                let start: i32 = read_i32_at(cell, 4, big)?;
                let s = self.read_long_string(bucket, start, len as u32)?;
                return Ok(RecordValue::String(s));
            }
        }
        decode_scalar(cell, desc, big)
    }
}

/// The product of the dimensions of a shape.
pub open spec fn product(dims: Seq<u32>) -> nat
    decreases dims.len(),
{
    if dims.len() == 0 {
        1
    } else {
        product(dims.drop_last()) * dims.last() as nat
    }
}

proof fn lemma_product_zero(dims: Seq<u32>, k: int)
    requires
        0 <= k < dims.len(),
        dims[k] == 0,
    ensures
        product(dims) == 0,
    decreases dims.len(),
{
    if k < dims.len() - 1 {
        lemma_product_zero(dims.drop_last(), k);
        assert(0 * (dims.last() as nat) == 0);
    } else {
        assert(product(dims.drop_last()) * 0 == 0);
    }
}

pub proof fn lemma_product_grows(dims: Seq<u32>, k: int)
    requires
        0 <= k <= dims.len(),
        forall|i: int| 0 <= i < dims.len() ==> dims[i] > 0,
    ensures
        product(dims.take(k)) <= product(dims),
    decreases dims.len() - k,
{
    if k < dims.len() {
        let a = product(dims.take(k));
        let d = dims[k] as nat;
        assert(dims.take(k + 1).drop_last() =~= dims.take(k));
        assert(a <= a * d) by (nonlinear_arith)
            requires
                d >= 1,
        ;
        lemma_product_grows(dims, k + 1);
    } else {
        assert(dims.take(k) =~= dims);
    }
}

/// The product of the dimensions, where it fits a `usize`.
pub(crate) fn element_count(dims: &[u32]) -> (r: Option<usize>)
    ensures
        match r {
            Some(n) => n == product(dims@),
            None => product(dims@) > usize::MAX,
        },
{
    let mut i: usize = 0;
    while i < dims.len()
        invariant
            i <= dims@.len(),
            forall|j: int| 0 <= j < i ==> dims@[j] > 0,
        decreases dims@.len() - i,
    {
        if dims[i] == 0 {
            proof {
                lemma_product_zero(dims@, i as int);
            }
            return Some(0);
        }
        i = i + 1;
    }
    let mut n: usize = 1;
    let mut k: usize = 0;
    assert(dims@.take(0) =~= Seq::<u32>::empty());
    while k < dims.len()
        invariant
            k <= dims@.len(),
            forall|j: int| 0 <= j < dims@.len() ==> dims@[j] > 0,
            n == product(dims@.take(k as int)),
        decreases dims@.len() - k,
    {
        proof {
            assert(dims@.take(k + 1).drop_last() =~= dims@.take(k as int));
            lemma_product_grows(dims@, k + 1);
        }
        n = match n.checked_mul(dims[k] as usize) {
            Some(m) => m,
            None => {
                return None;
            },
        };
        k = k + 1;
    }
    assert(dims@.take(k as int) =~= dims@);
    Some(n)
}

/// `n` dimensions at `p`, appended to `acc`.
pub open spec fn dims_in(data: Seq<u8>, p: int, n: nat, big: bool, acc: Seq<u32>) -> Result<
    Seq<u32>,
    SsmFault,
>
    decreases n,
{
    if n == 0 {
        Ok(acc)
    } else {
        match ssm::u32_in(data, p, big) {
            Err(f) => Err(f),
            Ok(d) => dims_in(data, p + 4, (n - 1) as nat, big, acc.push(d)),
        }
    }
}

pub(crate) fn read_dims(data: &[u8], start: usize, n: u32, big: bool) -> (res: Result<Vec<u32>, SsmError>)
    ensures
        match dims_in(data@, start as int, n as nat, big, Seq::empty()) {
            Ok(s) => res is Ok && res->Ok_0@ == s && s.len() == n && (n > 0 ==> start + 4 * n
                <= data@.len()),
            Err(f) => res is Err && res->Err_0@ == f,
        },
{
    let mut out: Vec<u32> = Vec::new();
    let mut p: usize = start;
    let mut i: u32 = 0;
    let len: usize = data.len();
    while i < n
        invariant
            len == data@.len(),
            i <= n,
            out@.len() == i,
            p == start + 4 * i,
            i > 0 ==> p <= data@.len(),
            dims_in(data@, start as int, n as nat, big, Seq::empty()) == dims_in(
                data@,
                p as int,
                (n - i) as nat,
                big,
                out@,
            ),
        decreases n - i,
    {
        let d: u32 = u32_at(data, p, big)?;
        out.push(d);
        p = p + 4;
        i = i + 1;
    }
    Ok(out)
}

/// The last `data` bytes of an array record with the dimensions `dims` (the
/// fastest varying one first), which start at `p`.
pub open spec fn array_body(f0i: Seq<u8>, big: bool, offset: i64, p: int, dims: Seq<u32>, elem:
    DataType) -> Result<ArrayModel, SsmFault> {
    let n = product(dims);
    let end = p + array_bytes(elem, n);
    if n > usize::MAX || end > f0i.len() {
        Err(SsmFault::BadArrayRef { offset, len: f0i.len() as int })
    } else if elem == DataType::String {
        Err(SsmFault::UnsupportedArrayType(elem))
    } else {
        match recordio::array_elements_at(
            Cursor { data: f0i.subrange(p, end), big, pos: 0 },
            elem,
            n,
        ) {
            Ok((data, _)) => Ok(ArrayModel { shape: dims.reverse(), data }),
            Err((RecordFault::AipsIo(f), _)) => Err(SsmFault::AipsIo(f)),
            Err(_) => Err(SsmFault::UnsupportedArrayType(elem)),
        }
    }
}

/// The array record at `offset` in the array index file: a reference count
/// where the file's version is not zero, the number of dimensions, the
/// dimensions (the fastest varying one first) and the elements.
pub open spec fn array_record(f0i: Seq<u8>, big: bool, offset: i64, elem: DataType) -> Result<
    ArrayModel,
    SsmFault,
> {
    if offset < 0 || offset >= f0i.len() {
        Err(SsmFault::BadArrayRef { offset, len: f0i.len() as int })
    } else {
        match ssm::u32_in(f0i, 0, big) {
            Err(f) => Err(f),
            Ok(version) => {
                let p: int = if version > 0 {
                    offset + 4
                } else {
                    offset as int
                };
                if version > 0 && ssm::u32_in(f0i, offset as int, big) is Err {
                    Err(ssm::u32_in(f0i, offset as int, big)->Err_0)
                } else {
                    match ssm::u32_in(f0i, p, big) {
                        Err(f) => Err(f),
                        Ok(ndim) => match dims_in(f0i, p + 4, ndim as nat, big, Seq::empty()) {
                            Err(f) => Err(f),
                            Ok(dims) => array_body(
                                f0i,
                                big,
                                offset,
                                p + 4 + 4 * ndim,
                                dims,
                                elem,
                            ),
                        },
                    }
                }
            },
        }
    }
}

fn read_array_body(
    f0i: &[u8],
    big: bool,
    offset: i64,
    p: usize,
    dims: Vec<u32>,
    elem: DataType,
) -> (res: Result<ArrayValue, SsmError>)
    requires
        p <= f0i@.len(),
    ensures
        match array_body(f0i@, big, offset, p as int, dims@, elem) {
            Ok(v) => res is Ok && res->Ok_0@ == v,
            Err(f) => res is Err && res->Err_0@ == f,
        },
{
    let len: usize = f0i.len();
    let n: usize = match element_count(dims.as_slice()) {
        Some(n) => n,
        None => {
            return Err(SsmError::BadArrayRef { offset, len });
        },
    };
    let size: usize = if elem == DataType::Bool {
        n / 8 + (if n % 8 == 0 { 0 } else { 1 })
    } else {
        match n.checked_mul(array_elem_size(elem)) {
            Some(s) => s,
            None => {
                return Err(SsmError::BadArrayRef { offset, len });
            },
        }
    };
    assert(size == array_bytes(elem, n as nat));
    if size > len - p {
        return Err(SsmError::BadArrayRef { offset, len });
    }
    if elem == DataType::String {
        return Err(SsmError::UnsupportedArrayType(elem));
    }
    let mut r = reader(vstd::slice::slice_subrange(f0i, p, p + size), big);
    match read_array_elements(&mut r, elem, n) {
        Ok(data) => {
            let shape = reversed(&dims);
            Ok(ArrayValue { shape, data })
        },
        Err(RecordError::AipsIo(e)) => Err(SsmError::AipsIo(e)),
        Err(_) => Err(SsmError::UnsupportedArrayType(elem)),
    }
}

pub(crate) fn reversed(s: &Vec<u32>) -> (r: Vec<u32>)
    ensures
        r@ == s@.reverse(),
{
    let mut out: Vec<u32> = Vec::new();
    let mut i: usize = s.len();
    while i > 0
        invariant
            i <= s@.len(),
            out@.len() == s@.len() - i,
            forall|j: int| 0 <= j < out@.len() ==> out@[j] == s@[s@.len() - 1 - j],
        decreases i,
    {
        i = i - 1;
        out.push(s[i]);
    }
    assert(out@ =~= s@.reverse());
    out
}

fn read_array_record(f0i: &[u8], big: bool, offset: i64, elem: DataType) -> (res: Result<
    ArrayValue,
    SsmError,
>)
    ensures
        match array_record(f0i@, big, offset, elem) {
            Ok(v) => res is Ok && res->Ok_0@ == v,
            Err(f) => res is Err && res->Err_0@ == f,
        },
{
    let len: usize = f0i.len();
    if offset < 0 || offset as u64 >= len as u64 {
        return Err(SsmError::BadArrayRef { offset, len });
    }
    let version: u32 = u32_at(f0i, 0, big)?;
    let mut p: usize = offset as usize;
    if version > 0 {
        let _: u32 = u32_at(f0i, p, big)?;
        p = p + 4;
    }
    let ndim: u32 = u32_at(f0i, p, big)?;
    p = p + 4;
    let dims = read_dims(f0i, p, ndim, big)?;
    proof {
        assert(p + 4 * ndim <= f0i@.len());
    }
    read_array_body(f0i, big, offset, p + 4 * ndim as usize, dims, elem)
}

impl SsmModel {
    /// The value of the array cell at `row` of column `col`.
    pub open spec fn array(self, manager: StandardModel, col: int, desc: ColumnModel, row: u64) -> Result<
        ValueModel,
        SsmFault,
    > {
        if !(desc.kind is Array) {
            Err(SsmFault::ArrayColumn(desc.name))
        } else {
            match column_place(manager, col) {
                Err(f) => Err(f),
                Ok((index, offset)) => match self.cell(index as int, offset, row, ARRAY_REF_SIZE) {
                    Err(f) => Err(f),
                    Ok(cell) => {
                        let at = bytes::signed64(
                            bytes::uint_value(self.header.big_endian, cell) as u64,
                        );
                        if at == 0 {
                            Err(SsmFault::EmptyArray { row, column: desc.name })
                        } else {
                            match self.f0i {
                                None => Err(
                                    SsmFault::MissingArrayFile(desc.name, "table.f0i"@),
                                ),
                                Some(f0i) => match array_record(
                                    f0i,
                                    self.header.big_endian,
                                    at,
                                    desc.data_type,
                                ) {
                                    Err(f) => Err(f),
                                    Ok(a) => Ok(ValueModel::Array(a)),
                                },
                            }
                        }
                    },
                },
            }
        }
    }
}

/// Decode one array cell for the column of table column index `col_idx` at
/// `row`, returning the logical (row-major) shape and element values.
///
/// The bucket cell holds an `Int64` byte offset into the array index file.
pub fn read_array_cell(
    file: &StandardStManFile,
    manager: &StandardStMan,
    col_idx: usize,
    desc: &ColumnDesc,
    row: u64,
) -> (res: Result<RecordValue, SsmError>)
    ensures
        match file@.array(manager@, col_idx as int, desc@, row) {
            Ok(v) => res is Ok && res->Ok_0@ == v,
            Err(f) => res is Err && res->Err_0@ == f,
        },
{
    match desc.kind {
        ColumnKind::Array => {},
        _ => {
            return Err(SsmError::ArrayColumn(desc.name.clone()));
        },
    }
    let (index, offset) = place(manager, col_idx)?;
    let cell = file.cell_bytes(index as usize, offset, row, ARRAY_REF_SIZE)?;
    let big: bool = file.header().big_endian;
    let at: i64 = to_signed64(uint_from(big, cell));
    if at == 0 {
        return Err(SsmError::EmptyArray { row, column: desc.name.clone() });
    }
    match file.f0i() {
        None => Err(SsmError::MissingArrayFile(desc.name.clone(), "table.f0i".to_owned())),
        Some(f0i) => Ok(
            RecordValue::Array(read_array_record(f0i, big, at, desc.data_type)?),
        ),
    }
}

} // verus!
