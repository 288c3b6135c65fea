//! The StandardStMan data file (`table.f0`) of a CASA table: reading.
//!
//! The data file is an AipsIO stream in the table's data-file endianness
//! (big or little). Layout:
//!
//! - A root `"StandardStMan"` v2/v3 object: the storage-manager header
//!   (bucket size, bucket counts, index location; v3 writes an explicit
//!   endianness flag).
//! - Buckets starting at fixed file offset 512: data bucket `b` lives at
//!   `512 + b*bucket_size`. Index buckets live in the same region.
//! - The index is a chain of index buckets (each carrying
//!   `[checkNr][nextBucket]` in its first 8 bytes); together they hold a
//!   contiguous AipsIO stream with one framed root `"SSMIndex"` object per
//!   column group.
//! - Each `SSMIndex` maps row ranges to data buckets: for the used buckets,
//!   `lastRow[i]` (ascending) and `bucketNumber[i]`. Row `r` lives in bucket
//!   `bucketNumber[i]` with `lastRow[i-1] < r <= lastRow[i]`.
//! - Within a data bucket, every column owned by the index has a contiguous
//!   region starting at the column's `columnOffset`; row `r`'s cell is at
//!   `+ (r - start_row) * cell_size`. Bool cells are one bit each, least
//!   significant bit first.
use crate::aipsio;
use crate::aipsio::{AipsIoError, AipsIoFault, Cursor, Reader, Step};
use crate::bytes;
use crate::bytes::{to_signed32, uint_from};
use crate::columnset::StandardStMan;
use crate::record::DataType;
use crate::recordio;
use crate::recordio::read_elements;
use crate::text::text_eq;
use vstd::prelude::*;

verus! {

/// Bytes between the start of the data file and the first bucket.
pub const DATA_START: usize = 512;

/// Bytes per row of an array column's cell in the bucket: always an
/// `Int64` reference into the array index file (`table.f0i`).
pub const ARRAY_REF_SIZE: u32 = 8;

/// Errors from reading a StandardStMan data file.
#[derive(Debug)]
pub enum SsmError {
    AipsIo(AipsIoError),
    UnexpectedType { expected: String, found: String },
    EndianMismatch { flag: bool, expected: bool },
    InvalidBucket(u32),
    IndexMissing { index: usize, count: usize },
    RowOutOfRange { row: u64 },
    CellOutOfRange { bucket: u32, offset: u64, len: u64 },
    StringBucketUnsupported { bucket: i32, len: i32 },
    ArrayColumn(String),
    NotStandardStMan(String, String),
    MissingArrayFile(String, String),
    EmptyArray { row: u64, column: String },
    BadArrayRef { offset: i64, len: usize },
    UnsupportedArrayType(DataType),
    BadStringRef { bucket: i32, offset: i32, length: u32 },
}

/// What an [`SsmError`] says.
pub enum SsmFault {
    AipsIo(AipsIoFault),
    UnexpectedType { expected: Seq<char>, found: Seq<char> },
    EndianMismatch { flag: bool, expected: bool },
    InvalidBucket(u32),
    IndexMissing { index: int, count: int },
    RowOutOfRange { row: u64 },
    CellOutOfRange { bucket: u32, offset: u64, len: u64 },
    StringBucketUnsupported { bucket: i32, len: i32 },
    ArrayColumn(Seq<char>),
    NotStandardStMan(Seq<char>, Seq<char>),
    MissingArrayFile(Seq<char>, Seq<char>),
    EmptyArray { row: u64, column: Seq<char> },
    BadArrayRef { offset: i64, len: int },
    UnsupportedArrayType(DataType),
    BadStringRef { bucket: i32, offset: i32, length: u32 },
}

impl View for SsmError {
    type V = SsmFault;

    open spec fn view(&self) -> SsmFault {
        match *self {
            SsmError::AipsIo(e) => SsmFault::AipsIo(e@),
            SsmError::UnexpectedType { expected, found } => SsmFault::UnexpectedType {
                expected: expected@,
                found: found@,
            },
            SsmError::EndianMismatch { flag, expected } => SsmFault::EndianMismatch {
                flag,
                expected,
            },
            SsmError::InvalidBucket(b) => SsmFault::InvalidBucket(b),
            SsmError::IndexMissing { index, count } => SsmFault::IndexMissing {
                index: index as int,
                count: count as int,
            },
            SsmError::RowOutOfRange { row } => SsmFault::RowOutOfRange { row },
            SsmError::CellOutOfRange { bucket, offset, len } => SsmFault::CellOutOfRange {
                bucket,
                offset,
                len,
            },
            SsmError::StringBucketUnsupported { bucket, len } =>
                SsmFault::StringBucketUnsupported { bucket, len },
            SsmError::ArrayColumn(s) => SsmFault::ArrayColumn(s@),
            SsmError::NotStandardStMan(a, b) => SsmFault::NotStandardStMan(a@, b@),
            SsmError::MissingArrayFile(a, b) => SsmFault::MissingArrayFile(a@, b@),
            SsmError::EmptyArray { row, column } => SsmFault::EmptyArray { row, column: column@ },
            SsmError::BadArrayRef { offset, len } => SsmFault::BadArrayRef {
                offset,
                len: len as int,
            },
            SsmError::UnsupportedArrayType(dt) => SsmFault::UnsupportedArrayType(dt),
            SsmError::BadStringRef { bucket, offset, length } => SsmFault::BadStringRef {
                bucket,
                offset,
                length,
            },
        }
    }
}

/// The `StandardStMan` header at the start of the data file.
#[derive(Debug, Clone, Copy, PartialEq)]
pub struct StandardStManHeader {
    pub version: u32,
    /// Data-file byte order.
    pub big_endian: bool,
    /// Size of one bucket in bytes.
    pub bucket_size: u32,
    /// Number of buckets present.
    pub nr_buckets: u32,
    pub pers_cache_size: u32,
    pub n_free_bucket: u32,
    pub first_free_bucket: i32,
    /// Index buckets in the bucket chain.
    pub nr_index_buckets: u32,
    pub first_index_bucket: i32,
    /// Offset of the index inside its first bucket when it fits in one
    /// bucket; 0 when the index spans several buckets.
    pub index_bucket_offset: i32,
    pub last_string_bucket: i32,
    /// Total bytes of the assembled index stream.
    pub index_length: u32,
    /// Number of `SSMIndex` objects in the index stream.
    pub nr_index: u32,
}

/// One column-group index.
#[derive(Debug, Clone, PartialEq)]
pub struct SsmIndex {
    pub rows_per_bucket: u32,
    pub nr_columns: i32,
    /// Last row number contained in each used bucket (ascending).
    pub last_row: Vec<u64>,
    /// Data bucket holding each used bucket's rows.
    pub bucket_number: Vec<u32>,
}

/// What an [`SsmIndex`] says.
pub struct IndexModel {
    pub rows_per_bucket: u32,
    pub nr_columns: i32,
    pub last_row: Seq<u64>,
    pub bucket_number: Seq<u32>,
}

impl View for SsmIndex {
    type V = IndexModel;

    open spec fn view(&self) -> IndexModel {
        IndexModel {
            rows_per_bucket: self.rows_per_bucket,
            nr_columns: self.nr_columns,
            last_row: self.last_row@,
            bucket_number: self.bucket_number@,
        }
    }
}

/// A row range mapped to a data bucket.
#[derive(Debug, Clone, Copy, PartialEq, Eq)]
pub struct IndexedBucket {
    pub number: u32,
    pub start_row: u64,
    pub end_row: u64,
}

/// The position in `last[lo..hi]` where the values change from below `row` to
/// at least `row`, found by bisection.
pub open spec fn bisect(last: Seq<u64>, row: u64, lo: int, hi: int) -> int
    decreases hi - lo,
{
    if lo >= hi {
        lo
    } else {
        let mid = (lo + hi) / 2;
        if last[mid] < row {
            bisect(last, row, mid + 1, hi)
        } else {
            bisect(last, row, lo, mid)
        }
    }
}

/// The values never decrease.
pub open spec fn ascending(last: Seq<u64>) -> bool {
    forall|i: int, j: int| 0 <= i <= j < last.len() ==> #[trigger] last[i] <= #[trigger] last[j]
}

pub proof fn lemma_bisect(last: Seq<u64>, row: u64, lo: int, hi: int)
    requires
        0 <= lo <= hi <= last.len(),
        lo > 0 ==> last[lo - 1] < row,
        hi < last.len() ==> last[hi] >= row,
    ensures
        lo <= bisect(last, row, lo, hi) <= hi,
        bisect(last, row, lo, hi) > 0 ==> last[bisect(last, row, lo, hi) - 1] < row,
        bisect(last, row, lo, hi) < last.len() ==> last[bisect(last, row, lo, hi)] >= row,
    decreases hi - lo,
{
    if lo < hi {
        let mid = (lo + hi) / 2;
        if last[mid] < row {
            lemma_bisect(last, row, mid + 1, hi);
        } else {
            lemma_bisect(last, row, lo, mid);
        }
    }
}

impl IndexModel {
    /// The bucket holding `row`.
    pub open spec fn find(self, row: u64) -> Option<IndexedBucket> {
        let i = bisect(self.last_row, row, 0, self.last_row.len() as int);
        if i < self.last_row.len() && i < self.bucket_number.len() {
            Some(
                IndexedBucket {
                    number: self.bucket_number[i],
                    start_row: if i == 0 {
                        0
                    } else {
                        (self.last_row[i - 1] + 1) as u64
                    },
                    end_row: self.last_row[i],
                },
            )
        } else {
            None
        }
    }
}

/// In an index with ascending last rows and a bucket for each, a row is found
/// exactly when it is not past the last one, and then in the first bucket
/// whose last row is not before it.
pub proof fn law_find(index: IndexModel, row: u64, k: int)
    requires
        ascending(index.last_row),
        index.bucket_number.len() == index.last_row.len(),
        0 <= k < index.last_row.len(),
    ensures
        index.find(row) is Some <==> row <= index.last_row.last(),
        row <= index.last_row[k] && (k > 0 ==> index.last_row[k - 1] < row) ==> index.find(row)
            == Some(
            IndexedBucket {
                number: index.bucket_number[k],
                start_row: if k == 0 {
                    0
                } else {
                    (index.last_row[k - 1] + 1) as u64
                },
                end_row: index.last_row[k],
            },
        ),
        index.find(row) matches Some(b) ==> b.start_row <= row <= b.end_row,
{
    let last = index.last_row;
    let n = last.len() as int;
    lemma_bisect(last, row, 0, n);
    let i = bisect(last, row, 0, n);
    if i < n {
        assert(last[i] <= last[n - 1]);
        if i < k {
            assert(last[i] <= last[k - 1]);
        }
        if k < i {
            assert(last[k] <= last[i - 1]);
        }
    } else {
        assert(last[k] <= last[n - 1]);
    }
}

impl SsmIndex {
    /// The bucket holding `row`, if any: the first used bucket whose
    /// `last_row` is >= `row`, found by bisection.
    pub fn find(&self, row: u64) -> (r: Option<IndexedBucket>)
        ensures
            r == self@.find(row),
            r matches Some(b) ==> b.start_row <= row <= b.end_row,
    {
        let n: usize = self.last_row.len();
        let mut lo: usize = 0;
        let mut hi: usize = n;
        while lo < hi
            invariant
                lo <= hi <= n,
                n == self.last_row@.len(),
                bisect(self.last_row@, row, 0, n as int) == bisect(
                    self.last_row@,
                    row,
                    lo as int,
                    hi as int,
                ),
            decreases hi - lo,
        {
            let mid: usize = lo + (hi - lo) / 2;
            if self.last_row[mid] < row {
                lo = mid + 1;
            } else {
                hi = mid;
            }
        }
        proof {
            lemma_bisect(self.last_row@, row, 0, n as int);
        }
        if lo >= n || lo >= self.bucket_number.len() {
            return None;
        }
        let start_row: u64 = if lo == 0 { 0 } else { self.last_row[lo - 1] + 1 };
        Some(
            IndexedBucket {
                number: self.bucket_number[lo],
                start_row,
                end_row: self.last_row[lo],
            },
        )
    }
}

/// A parsed StandardStMan data file: header, decoded index, and the raw
/// file contents for direct cell access.
#[derive(Debug)]
pub struct StandardStManFile {
    pub header: StandardStManHeader,
    pub indices: Vec<SsmIndex>,
    data: Vec<u8>,
    /// Optional `table.f*{seq}i` array index file.
    f0i: Option<Vec<u8>>,
}

/// What a [`StandardStManFile`] says.
pub struct SsmModel {
    pub header: StandardStManHeader,
    pub indices: Seq<IndexModel>,
    pub data: Seq<u8>,
    pub f0i: Option<Seq<u8>>,
}

pub open spec fn index_models(s: Seq<SsmIndex>) -> Seq<IndexModel> {
    s.map_values(|m: SsmIndex| m@)
}

impl View for StandardStManFile {
    type V = SsmModel;

    closed spec fn view(&self) -> SsmModel {
        SsmModel {
            header: self.header,
            indices: index_models(self.indices@),
            data: self.data@,
            f0i: match self.f0i {
                Some(b) => Some(b@),
                None => None,
            },
        }
    }
}

/// A stream fault as a data file fault.
pub open spec fn lift<T>(s: Step<T, AipsIoFault>) -> Step<T, SsmFault> {
    match s {
        Ok(v) => Ok(v),
        Err((f, c)) => Err((SsmFault::AipsIo(f), c)),
    }
}

pub(crate) fn io<T>(r: Result<T, AipsIoError>) -> (q: Result<T, SsmError>)
    ensures
        match r {
            Ok(v) => q == Ok::<T, SsmError>(v),
            Err(e) => q == Err::<T, SsmError>(SsmError::AipsIo(e)),
        },
{
    match r {
        Ok(v) => Ok(v),
        Err(e) => Err(SsmError::AipsIo(e)),
    }
}

/// The object header at the cursor, which must be of the expected type.
pub open spec fn expect_at(c: Cursor, root: bool, expected: Seq<char>) -> Step<
    aipsio::ObjectHead,
    SsmFault,
> {
    match lift(c.object_start(root)) {
        Err(e) => Err(e),
        Ok((head, c)) => if head.object_type == expected {
            Ok((head, c))
        } else {
            Err((SsmFault::UnexpectedType { expected, found: head.object_type }, c))
        },
    }
}

fn read_expected(r: &mut Reader<'_>, root: bool, expected: &str) -> (res: Result<
    aipsio::ObjectStart,
    SsmError,
>)
    ensures
        aipsio::reads(res, final(r)@, expect_at(old(r)@, root, expected@)),
{
    let obj = io(r.read_object_start(root))?;
    if !text_eq(obj.object_type.as_str(), expected) {
        return Err(
            SsmError::UnexpectedType { expected: expected.to_owned(), found: obj.object_type },
        );
    }
    Ok(obj)
}

/// The eleven numbers of a data file header.
pub struct HeaderNumbers {
    pub bucket_size: u32,
    pub nr_buckets: u32,
    pub pers_cache_size: u32,
    pub n_free_bucket: u32,
    pub first_free_bucket: i32,
    pub nr_index_buckets: u32,
    pub first_index_bucket: i32,
    pub index_bucket_offset: i32,
    pub last_string_bucket: i32,
    pub index_length: u32,
    pub nr_index: u32,
}

#[verifier::opaque]
pub open spec fn header_numbers_at(c: Cursor) -> Step<HeaderNumbers, AipsIoFault> {
    match c.u32() {
        Err(e) => Err(e),
        Ok((bucket_size, c)) => match c.u32() {
            Err(e) => Err(e),
            Ok((nr_buckets, c)) => match c.u32() {
                Err(e) => Err(e),
                Ok((pers_cache_size, c)) => match c.u32() {
                    Err(e) => Err(e),
                    Ok((n_free_bucket, c)) => match c.i32() {
                        Err(e) => Err(e),
                        Ok((first_free_bucket, c)) => match c.u32() {
                            Err(e) => Err(e),
                            Ok((nr_index_buckets, c)) => match c.i32() {
                                Err(e) => Err(e),
                                Ok((first_index_bucket, c)) => match c.i32() {
                                    Err(e) => Err(e),
                                    Ok((index_bucket_offset, c)) => match c.i32() {
                                        Err(e) => Err(e),
                                        Ok((last_string_bucket, c)) => match c.u32() {
                                            Err(e) => Err(e),
                                            Ok((index_length, c)) => match c.u32() {
                                                Err(e) => Err(e),
                                                Ok((nr_index, c)) => Ok(
                                                    (
                                                        HeaderNumbers {
                                                            bucket_size,
                                                            nr_buckets,
                                                            pers_cache_size,
                                                            n_free_bucket,
                                                            first_free_bucket,
                                                            nr_index_buckets,
                                                            first_index_bucket,
                                                            index_bucket_offset,
                                                            last_string_bucket,
                                                            index_length,
                                                            nr_index,
                                                        },
                                                        c,
                                                    ),
                                                ),
                                            },
                                        },
                                    },
                                },
                            },
                        },
                    },
                },
            },
        },
    }
}

/// A header with the given numbers.
pub open spec fn header_with(version: u32, big: bool, n: HeaderNumbers) -> StandardStManHeader {
    StandardStManHeader {
        version,
        big_endian: big,
        bucket_size: n.bucket_size,
        nr_buckets: n.nr_buckets,
        pers_cache_size: n.pers_cache_size,
        n_free_bucket: n.n_free_bucket,
        first_free_bucket: n.first_free_bucket,
        nr_index_buckets: n.nr_index_buckets,
        first_index_bucket: n.first_index_bucket,
        index_bucket_offset: n.index_bucket_offset,
        last_string_bucket: n.last_string_bucket,
        index_length: n.index_length,
        nr_index: n.nr_index,
    }
}

/// The stored endianness flag, from version 3 on; it must match the table's.
pub open spec fn endian_at(c: Cursor, version: u32, big: bool) -> Step<(), SsmFault> {
    if version >= 3 {
        match lift(c.bool()) {
            Err(e) => Err(e),
            Ok((flag, c)) => if flag == big {
                Ok(((), c))
            } else {
                Err((SsmFault::EndianMismatch { flag, expected: big }, c))
            },
        }
    } else {
        Ok(((), c))
    }
}

/// The header of a data file of the given endianness.
pub open spec fn header_of(data: Seq<u8>, big: bool) -> Result<StandardStManHeader, SsmFault> {
    let c = Cursor { data, big, pos: 0 };
    match expect_at(c, true, "StandardStMan"@) {
        Err((f, _)) => Err(f),
        Ok((head, c)) => match endian_at(c, head.version, big) {
            Err((f, _)) => Err(f),
            Ok((_, c)) => match lift(header_numbers_at(c)) {
                Err((f, _)) => Err(f),
                Ok((n, _)) => Ok(header_with(head.version, big, n)),
            },
        },
    }
}

/// A reader of the given endianness at the start of `data`.
pub(crate) fn reader(data: &[u8], big_endian: bool) -> (r: Reader<'_>)
    ensures
        r@ == (Cursor { data: data@, big: big_endian, pos: 0 }),
{
    if big_endian {
        Reader::new(data)
    } else {
        Reader::new_le(data)
    }
}

fn read_header(data: &[u8], big: bool) -> (res: Result<StandardStManHeader, SsmError>)
    ensures
        match header_of(data@, big) {
            Ok(h) => res == Ok::<StandardStManHeader, SsmError>(h),
            Err(f) => res is Err && res->Err_0@ == f,
        },
{
    let mut r = reader(data, big);
    let obj = read_expected(&mut r, true, "StandardStMan")?;
    let version = obj.version;
    if version >= 3 {
        let flag = io(r.read_bool())?;
        if flag != big {
            return Err(SsmError::EndianMismatch { flag, expected: big });
        }
    }
    proof {
        reveal(header_numbers_at);
    }
    let bucket_size = io(r.read_u32())?;
    let nr_buckets = io(r.read_u32())?;
    let pers_cache_size = io(r.read_u32())?;
    let n_free_bucket = io(r.read_u32())?;
    let first_free_bucket = io(r.read_i32())?;
    let nr_index_buckets = io(r.read_u32())?;
    let first_index_bucket = io(r.read_i32())?;
    let index_bucket_offset = io(r.read_i32())?;
    let last_string_bucket = io(r.read_i32())?;
    let index_length = io(r.read_u32())?;
    let nr_index = io(r.read_u32())?;
    Ok(
        StandardStManHeader {
            version,
            big_endian: big,
            bucket_size,
            nr_buckets,
            pers_cache_size,
            n_free_bucket,
            first_free_bucket,
            nr_index_buckets,
            first_index_bucket,
            index_bucket_offset,
            last_string_bucket,
            index_length,
            nr_index,
        },
    )
}

/// Last rows: 32-bit in a version-1 index, 64-bit later.
pub open spec fn last_rows_at(c: Cursor, version: u32) -> Step<Seq<u64>, SsmFault> {
    match expect_at(c, false, "Block"@) {
        Err(e) => Err(e),
        Ok((_, c)) => match lift(c.u32()) {
            Err(e) => Err(e),
            Ok((n, c)) => if version == 1 {
                match lift(recordio::elements_at::<u32>(c, n as nat, Seq::empty())) {
                    Err(e) => Err(e),
                    Ok((s, c)) => Ok((widened(s), c)),
                }
            } else {
                lift(recordio::elements_at::<u64>(c, n as nat, Seq::empty()))
            },
        },
    }
}

/// 32-bit integers as 64-bit ones.
pub open spec fn widened(s: Seq<u32>) -> Seq<u64> {
    s.map_values(|v: u32| v as u64)
}

/// A block of bucket numbers.
pub open spec fn numbers_at(c: Cursor) -> Step<Seq<u32>, SsmFault> {
    match expect_at(c, false, "Block"@) {
        Err(e) => Err(e),
        Ok((_, c)) => match lift(c.u32()) {
            Err(e) => Err(e),
            Ok((n, c)) => lift(recordio::elements_at::<u32>(c, n as nat, Seq::empty())),
        },
    }
}

/// The free-space map of an index, which is passed over.
pub open spec fn free_map_at(c: Cursor) -> Step<(), SsmFault> {
    match expect_at(c, false, "SimpleOrderedMap"@) {
        Err(e) => Err(e),
        Ok((_, c)) => match lift(c.i32()) {
            Err(e) => Err(e),
            Ok((_, c)) => match lift(c.u32()) {
                Err(e) => Err(e),
                Ok((n, c)) => match lift(c.u32()) {
                    Err(e) => Err(e),
                    Ok((_, c)) => match lift(
                        recordio::elements_at::<(i32, i32)>(c, n as nat, Seq::empty()),
                    ) {
                        Err(e) => Err(e),
                        Ok((_, c)) => Ok(((), c)),
                    },
                },
            },
        },
    }
}

/// The free-space map, the last rows and the bucket numbers of an index.
#[verifier::opaque]
pub open spec fn index_rest_at(c: Cursor, version: u32) -> Step<(Seq<u64>, Seq<u32>), SsmFault> {
    match free_map_at(c) {
        Err(e) => Err(e),
        Ok((_, c)) => match last_rows_at(c, version) {
            Err(e) => Err(e),
            Ok((last_row, c)) => match numbers_at(c) {
                Err(e) => Err(e),
                Ok((bucket_number, c)) => Ok(((last_row, bucket_number), c)),
            },
        },
    }
}

/// A framed root `"SSMIndex"` object.
#[verifier::opaque]
pub open spec fn index_at(c: Cursor) -> Step<IndexModel, SsmFault> {
    match expect_at(c, true, "SSMIndex"@) {
        Err(e) => Err(e),
        Ok((head, c)) => match lift(c.u32()) {
            Err(e) => Err(e),
            Ok((_, c)) => match lift(c.u32()) {
                Err(e) => Err(e),
                Ok((rows_per_bucket, c)) => match lift(c.i32()) {
                    Err(e) => Err(e),
                    Ok((nr_columns, c)) => match index_rest_at(c, head.version) {
                        Err(e) => Err(e),
                        Ok(((last_row, bucket_number), c)) => Ok(
                            (
                                IndexModel { rows_per_bucket, nr_columns, last_row, bucket_number },
                                c,
                            ),
                        ),
                    },
                },
            },
        },
    }
}

/// `n` indices, appended to `acc`.
pub open spec fn indices_at(c: Cursor, n: nat, acc: Seq<IndexModel>) -> Step<
    Seq<IndexModel>,
    SsmFault,
>
    decreases n,
{
    if n == 0 {
        Ok((acc, c))
    } else {
        match index_at(c) {
            Err(e) => Err(e),
            Ok((m, c)) => indices_at(c, (n - 1) as nat, acc.push(m)),
        }
    }
}

fn read_last_rows(r: &mut Reader<'_>, version: u32) -> (res: Result<Vec<u64>, SsmError>)
    ensures
        aipsio::reads(res, final(r)@, last_rows_at(old(r)@, version)),
{
    let _obj = read_expected(r, false, "Block")?;
    let n: u32 = io(r.read_u32())?;
    if version == 1 {
        let narrow = io(read_elements::<u32>(r, n as usize))?;
        let mut out: Vec<u64> = Vec::new();
        let mut i: usize = 0;
        while i < narrow.len()
            invariant
                i <= narrow@.len(),
                out@.len() == i,
                forall|k: int| 0 <= k < i ==> out@[k] == narrow@[k] as u64,
            decreases narrow@.len() - i,
        {
            out.push(narrow[i] as u64);
            i = i + 1;
        }
        assert(out@ =~= widened(recordio::views(narrow@)));
        Ok(out)
    } else {
        let out = io(read_elements::<u64>(r, n as usize))?;
        assert(recordio::views(out@) =~= out@);
        Ok(out)
    }
}

fn read_numbers(r: &mut Reader<'_>) -> (res: Result<Vec<u32>, SsmError>)
    ensures
        aipsio::reads(res, final(r)@, numbers_at(old(r)@)),
{
    let _obj = read_expected(r, false, "Block")?;
    let n: u32 = io(r.read_u32())?;
    let out = io(read_elements::<u32>(r, n as usize))?;
    assert(recordio::views(out@) =~= out@);
    Ok(out)
}

fn read_free_map(r: &mut Reader<'_>) -> (res: Result<(), SsmError>)
    ensures
        match free_map_at(old(r)@) {
            Ok((_, c)) => res is Ok && final(r)@ == c,
            Err((f, c)) => res is Err && res->Err_0@ == f && final(r)@ == c,
        },
{
    let _obj = read_expected(r, false, "SimpleOrderedMap")?;
    let _default = io(r.read_i32())?;
    let n: u32 = io(r.read_u32())?;
    let _increment = io(r.read_u32())?;
    let _pairs: Vec<(i32, i32)> = io(read_elements::<(i32, i32)>(r, n as usize))?;
    Ok(())
}

/// Decode one framed root `"SSMIndex"` object.
fn read_index_object(r: &mut Reader<'_>) -> (res: Result<SsmIndex, SsmError>)
    ensures
        aipsio::reads(res, final(r)@, index_at(old(r)@)),
{
    proof {
        reveal(index_at);
        reveal(index_rest_at);
    }
    let obj = read_expected(r, true, "SSMIndex")?;
    let _used = io(r.read_u32())?;
    let rows_per_bucket = io(r.read_u32())?;
    let nr_columns = io(r.read_i32())?;
    read_free_map(r)?;
    let last_row = read_last_rows(r, obj.version)?;
    let bucket_number = read_numbers(r)?;
    Ok(SsmIndex { rows_per_bucket, nr_columns, last_row, bucket_number })
}

fn read_indices(r: &mut Reader<'_>, n: u32) -> (res: Result<Vec<SsmIndex>, SsmError>)
    ensures
        match indices_at(old(r)@, n as nat, Seq::empty()) {
            Ok((v, c)) => res is Ok && index_models(res->Ok_0@) == v && final(r)@ == c,
            Err((f, c)) => res is Err && res->Err_0@ == f && final(r)@ == c,
        },
{
    let mut out: Vec<SsmIndex> = Vec::new();
    let mut i: u32 = 0;
    let ghost all = indices_at(r@, n as nat, Seq::empty());
    assert(index_models(out@) =~= Seq::<IndexModel>::empty());
    while i < n
        invariant
            i <= n,
            all == indices_at(old(r)@, n as nat, Seq::empty()),
            all == indices_at(r@, (n - i) as nat, index_models(out@)),
        decreases n - i,
    {
        let ghost before = out@;
        let index = read_index_object(r)?;
        out.push(index);
        assert(index_models(out@) =~= index_models(before).push(index@));
        i = i + 1;
    }
    Ok(out)
}

/// Where bucket `number` starts.
pub open spec fn bucket_start(size: u32, number: u32) -> int {
    DATA_START + number * size
}

/// The bytes of bucket `number`, where the file holds it whole.
pub open spec fn bucket_of(data: Seq<u8>, size: u32, number: u32) -> Option<Seq<u8>> {
    let start = bucket_start(size, number);
    if start + size <= data.len() {
        Some(data.subrange(start, start + size))
    } else {
        None
    }
}

/// The bytes of bucket `number`, where the file holds it whole.
pub(crate) fn bucket_slice(data: &[u8], size: u32, number: u32) -> (r: Option<&[u8]>)
    ensures
        match bucket_of(data@, size, number) {
            Some(b) => r is Some && r->0@ == b,
            None => r is None,
        },
{
    proof {
        lemma_u32_product(number, size);
    }
    let start: u64 = 512 + number as u64 * size as u64;
    let end: u64 = start + size as u64;
    if end <= data.len() as u64 {
        Some(vstd::slice::slice_subrange(data, start as usize, end as usize))
    } else {
        None
    }
}

pub proof fn lemma_u32_product(a: u32, b: u32)
    ensures
        0 <= a * b <= 0xffff_ffff * 0xffff_ffff,
{
    assert(0 <= a * b <= 0xffff_ffff * 0xffff_ffff) by (nonlinear_arith)
        requires
            0 <= a <= 0xffff_ffff,
            0 <= b <= 0xffff_ffff,
    ;
}

/// The 32-bit integer at `offset`, where there is one.
pub open spec fn i32_in(data: Seq<u8>, offset: int, big: bool) -> Result<i32, SsmFault> {
    if offset + 4 <= data.len() {
        Ok(
            bytes::signed32(
                bytes::uint_value(big, data.subrange(offset, offset + 4)) as u32,
            ),
        )
    } else {
        Err(SsmFault::CellOutOfRange { bucket: 0, offset: offset as u64, len: 4 })
    }
}

pub(crate) fn read_i32_at(data: &[u8], offset: usize, big_endian: bool) -> (res: Result<
    i32,
    SsmError,
>)
    ensures
        match i32_in(data@, offset as int, big_endian) {
            Ok(v) => res == Ok::<i32, SsmError>(v),
            Err(f) => res is Err && res->Err_0@ == f,
        },
{
    match u32_at(data, offset, big_endian) {
        Ok(v) => Ok(to_signed32(v)),
        Err(e) => Err(e),
    }
}

/// The unsigned 32-bit integer at `offset`, where there is one.
pub open spec fn u32_in(data: Seq<u8>, offset: int, big: bool) -> Result<u32, SsmFault> {
    if offset + 4 <= data.len() {
        Ok(bytes::uint_value(big, data.subrange(offset, offset + 4)) as u32)
    } else {
        Err(SsmFault::CellOutOfRange { bucket: 0, offset: offset as u64, len: 4 })
    }
}

pub(crate) fn u32_at(data: &[u8], offset: usize, big_endian: bool) -> (res: Result<u32, SsmError>)
    ensures
        match u32_in(data@, offset as int, big_endian) {
            Ok(v) => res == Ok::<u32, SsmError>(v),
            Err(f) => res is Err && res->Err_0@ == f,
        },
{
    if data.len() >= 4 && offset <= data.len() - 4 {
        let b = vstd::slice::slice_subrange(data, offset, offset + 4);
        let v: u64 = uint_from(big_endian, b);
        proof {
            bytes::lemma_spans();
        }
        Ok(v as u32)
    } else {
        Err(SsmError::CellOutOfRange { bucket: 0, offset: offset as u64, len: 4 })
    }
}

pub open spec fn min(a: int, b: int) -> int {
    if a < b {
        a
    } else {
        b
    }
}

/// The index bytes in at most `k` index buckets, starting with bucket `nr`,
/// of which `left` bytes are still wanted.
pub open spec fn chain(data: Seq<u8>, h: StandardStManHeader, k: nat, nr: u32, left: int) -> Result<
    Seq<u8>,
    SsmFault,
>
    decreases k,
{
    if k == 0 {
        Ok(Seq::empty())
    } else {
        match bucket_of(data, h.bucket_size, nr) {
            None => Err(SsmFault::InvalidBucket(nr)),
            Some(bucket) => match i32_in(bucket, 4, h.big_endian) {
                Err(f) => Err(f),
                Ok(next) => {
                    let off: int = if h.index_bucket_offset > 0 {
                        h.index_bucket_offset as int
                    } else {
                        8
                    };
                    if off > bucket.len() {
                        Err(SsmFault::InvalidBucket(nr))
                    } else {
                        let n = min(left, bucket.len() - off);
                        let piece = bucket.subrange(off, off + n);
                        if next < 0 {
                            Ok(piece)
                        } else {
                            match chain(data, h, (k - 1) as nat, next as u32, left - n) {
                                Err(f) => Err(f),
                                Ok(rest) => Ok(piece + rest),
                            }
                        }
                    }
                },
            },
        }
    }
}

/// The outcome of a chain of which `done` has already been read.
pub open spec fn prefixed(done: Seq<u8>, rest: Result<Seq<u8>, SsmFault>) -> Result<
    Seq<u8>,
    SsmFault,
> {
    match rest {
        Ok(b) => Ok(done + b),
        Err(f) => Err(f),
    }
}

fn read_chain(data: &[u8], h: &StandardStManHeader, first: u32) -> (res: Result<Vec<u8>, SsmError>)
    requires
        h.index_length >= 0,
    ensures
        match chain(data@, *h, h.nr_index_buckets as nat, first, h.index_length as int) {
            Ok(b) => res is Ok && res->Ok_0@ == b,
            Err(f) => res is Err && res->Err_0@ == f,
        },
{
    let mut stream: Vec<u8> = Vec::new();
    let mut left: usize = h.index_length as usize;
    let mut nr: u32 = first;
    let mut k: u32 = h.nr_index_buckets;
    let ghost all = chain(data@, *h, k as nat, first, left as int);
    proof {
        let rest = chain(data@, *h, k as nat, nr, left as int);
        if rest is Ok {
            assert(stream@ + rest->Ok_0 =~= rest->Ok_0);
        }
    }
    while k > 0
        invariant
            all == chain(data@, *h, h.nr_index_buckets as nat, first, h.index_length as int),
            all == prefixed(stream@, chain(data@, *h, k as nat, nr, left as int)),
        decreases k,
    {
        let bucket = match bucket_slice(data, h.bucket_size, nr) {
            Some(b) => b,
            None => {
                return Err(SsmError::InvalidBucket(nr));
            },
        };
        let next: i32 = read_i32_at(bucket, 4, h.big_endian)?;
        let off: usize = if h.index_bucket_offset > 0 {
            h.index_bucket_offset as usize
        } else {
            8
        };
        if off > bucket.len() {
            return Err(SsmError::InvalidBucket(nr));
        }
        let room: usize = bucket.len() - off;
        let n: usize = if left < room { left } else { room };
        let piece = vstd::slice::slice_subrange(bucket, off, off + n);
        let ghost before = stream@;
        stream.extend_from_slice(piece);
        proof {
            assert(stream@ =~= before + piece@);
            if next >= 0 {
                let rest = chain(data@, *h, (k - 1) as nat, next as u32, left - n);
                if rest is Ok {
                    assert((before + piece@) + rest->Ok_0 =~= before + (piece@ + rest->Ok_0));
                }
            }
        }
        if next < 0 {
            return Ok(stream);
        }
        left = left - n;
        nr = next as u32;
        k = k - 1;
    }
    assert(stream@ + Seq::<u8>::empty() =~= stream@);
    Ok(stream)
}

/// The indices of a data file with header `h`.
pub open spec fn indices_of(data: Seq<u8>, h: StandardStManHeader) -> Result<
    Seq<IndexModel>,
    SsmFault,
> {
    if h.nr_index == 0 {
        Ok(Seq::empty())
    } else if h.first_index_bucket < 0 {
        Err(SsmFault::InvalidBucket(0))
    } else {
        match chain(
            data,
            h,
            h.nr_index_buckets as nat,
            h.first_index_bucket as u32,
            h.index_length as int,
        ) {
            Err(f) => Err(f),
            Ok(stream) => match indices_at(
                Cursor { data: stream, big: h.big_endian, pos: 0 },
                h.nr_index as nat,
                Seq::empty(),
            ) {
                Err((f, _)) => Err(f),
                Ok((s, _)) => Ok(s),
            },
        }
    }
}

/// Build the contiguous index stream from the index-bucket chain and decode
/// the `SSMIndex` objects.
fn read_index(data: &[u8], header: &StandardStManHeader) -> (res: Result<Vec<SsmIndex>, SsmError>)
    ensures
        match indices_of(data@, *header) {
            Ok(s) => res is Ok && index_models(res->Ok_0@) == s,
            Err(f) => res is Err && res->Err_0@ == f,
        },
{
    if header.nr_index == 0 {
        let none: Vec<SsmIndex> = Vec::new();
        assert(index_models(none@) =~= Seq::<IndexModel>::empty());
        return Ok(none);
    }
    if header.first_index_bucket < 0 {
        return Err(SsmError::InvalidBucket(0));
    }
    let stream = read_chain(data, header, header.first_index_bucket as u32)?;
    let mut r = reader(stream.as_slice(), header.big_endian);
    read_indices(&mut r, header.nr_index)
}

/// What a data file of the given endianness says, without an array file.
pub open spec fn parsed(data: Seq<u8>, big: bool) -> Result<SsmModel, SsmFault> {
    match header_of(data, big) {
        Err(f) => Err(f),
        Ok(header) => match indices_of(data, header) {
            Err(f) => Err(f),
            Ok(indices) => Ok(SsmModel { header, indices, data, f0i: None }),
        },
    }
}

impl SsmModel {
    /// Bytes of bucket `number`.
    pub open spec fn bucket(self, number: u32) -> Result<Seq<u8>, SsmFault> {
        match bucket_of(self.data, self.header.bucket_size, number) {
            Some(b) => Ok(b),
            None => Err(SsmFault::InvalidBucket(number)),
        }
    }

    /// The bucket that index `index_nr` gives for `row`.
    pub open spec fn locate(self, index_nr: int, row: u64) -> Result<IndexedBucket, SsmFault> {
        if index_nr >= self.indices.len() {
            Err(SsmFault::IndexMissing { index: index_nr, count: self.indices.len() as int })
        } else {
            match self.indices[index_nr].find(row) {
                Some(b) => Ok(b),
                None => Err(SsmFault::RowOutOfRange { row }),
            }
        }
    }

    /// `len` bytes at `offset` in a bucket.
    pub open spec fn bytes_at(self, bucket: u32, offset: int, len: int) -> Result<
        Seq<u8>,
        SsmFault,
    > {
        let start = bucket_start(self.header.bucket_size, bucket) + offset;
        if start + len <= self.data.len() {
            Ok(self.data.subrange(start, start + len))
        } else {
            Err(
                SsmFault::CellOutOfRange {
                    bucket,
                    offset: (offset % 0x1_0000_0000_0000_0000) as u64,
                    len: len as u64,
                },
            )
        }
    }

    /// The cell of `row` in a column whose region starts at `column_offset`,
    /// with `cell_size` bytes per row.
    pub open spec fn cell(self, index_nr: int, column_offset: u32, row: u64, cell_size: u32) -> Result<
        Seq<u8>,
        SsmFault,
    > {
        match self.locate(index_nr, row) {
            Err(f) => Err(f),
            Ok(b) => self.bytes_at(
                b.number,
                column_offset + (row - b.start_row) * cell_size,
                cell_size as int,
            ),
        }
    }

    /// The bit of `row` in a column of bits whose region starts at
    /// `column_offset`.
    pub open spec fn bit_cell(self, index_nr: int, column_offset: u32, row: u64) -> Result<
        bool,
        SsmFault,
    > {
        match self.locate(index_nr, row) {
            Err(f) => Err(f),
            Ok(b) => match self.bytes_at(
                b.number,
                column_offset + (row - b.start_row) / 8,
                1,
            ) {
                Err(f) => Err(f),
                Ok(s) => Ok(bytes::bit(s[0], (row - b.start_row) % 8)),
            },
        }
    }
}

impl StandardStManFile {
    /// Parse a StandardStMan data file. `table_big_endian` is the data-file
    /// endianness flag from the `table.dat` header; for header version >= 3
    /// the stored flag must match it.
    pub fn parse(data: &[u8], table_big_endian: bool) -> (res: Result<StandardStManFile, SsmError>)
        ensures
            match parsed(data@, table_big_endian) {
                Ok(m) => res is Ok && res->Ok_0@ == m,
                Err(f) => res is Err && res->Err_0@ == f,
            },
    {
        let header = read_header(data, table_big_endian)?;
        let indices = read_index(data, &header)?;
        Ok(
            StandardStManFile { header, indices, data: vstd::slice::slice_to_vec(data), f0i: None },
        )
    }

    /// The file with the contents of its array index file.
    pub fn with_array_file(self, f0i: Vec<u8>) -> (r: StandardStManFile)
        ensures
            r@ == (SsmModel { f0i: Some(f0i@), ..self@ }),
    {
        StandardStManFile { header: self.header, indices: self.indices, data: self.data, f0i: Some(
            f0i,
        ) }
    }

    /// The optional array index file (`table.f0i`) contents, if present.
    pub fn f0i(&self) -> (r: Option<&[u8]>)
        ensures
            match self@.f0i {
                Some(b) => r is Some && r->0@ == b,
                None => r is None,
            },
    {
        match &self.f0i {
            Some(b) => Some(b.as_slice()),
            None => None,
        }
    }

    /// The header of the file.
    pub fn header(&self) -> (r: StandardStManHeader)
        ensures
            r == self@.header,
    {
        self.header
    }

    /// The column-group indices of the file.
    pub fn indices(&self) -> (r: &[SsmIndex])
        ensures
            index_models(r@) == self@.indices,
    {
        self.indices.as_slice()
    }

    /// Raw bytes of bucket `number`.
    pub fn bucket_bytes(&self, number: u32) -> (res: Result<&[u8], SsmError>)
        ensures
            match self@.bucket(number) {
                Ok(b) => res is Ok && res->Ok_0@ == b,
                Err(f) => res is Err && res->Err_0@ == f,
            },
    {
        match bucket_slice(self.data.as_slice(), self.header.bucket_size, number) {
            Some(b) => Ok(b),
            None => Err(SsmError::InvalidBucket(number)),
        }
    }

    fn locate(&self, index_nr: usize, row: u64) -> (res: Result<IndexedBucket, SsmError>)
        ensures
            match self@.locate(index_nr as int, row) {
                Ok(b) => res == Ok::<IndexedBucket, SsmError>(b) && b.start_row <= row,
                Err(f) => res is Err && res->Err_0@ == f,
            },
    {
        if index_nr >= self.indices.len() {
            return Err(SsmError::IndexMissing { index: index_nr, count: self.indices.len() });
        }
        assert(self@.indices[index_nr as int] == self.indices@[index_nr as int]@);
        match self.indices[index_nr].find(row) {
            Some(b) => Ok(b),
            None => Err(SsmError::RowOutOfRange { row }),
        }
    }

    /// `len` bytes at `column_offset + extra` in a bucket.
    fn cell_bytes_in_bucket(&self, bucket: u32, column_offset: u32, extra: u128, len: u32) -> (res:
        Result<&[u8], SsmError>)
        requires
            extra <= 0x1_0000_0000_0000_0000_0000_0000,
        ensures
            match self@.bytes_at(bucket, column_offset + extra, len as int) {
                Ok(b) => res is Ok && res->Ok_0@ == b && b.len() == len,
                Err(f) => res is Err && res->Err_0@ == f,
            },
    {
        proof {
            lemma_u32_product(bucket, self.header.bucket_size);
        }
        let offset: u128 = column_offset as u128 + extra;
        let base: u64 = 512 + bucket as u64 * self.header.bucket_size as u64;
        let start: u128 = base as u128 + offset;
        let end: u128 = start + len as u128;
        if end <= self.data.len() as u128 {
            Ok(
                vstd::slice::slice_subrange(self.data.as_slice(), start as usize, end as usize),
            )
        } else {
            Err(
                SsmError::CellOutOfRange {
                    bucket,
                    offset: (offset % 0x1_0000_0000_0000_0000) as u64,
                    len: len as u64,
                },
            )
        }
    }

    /// Bytes of one row's cell in the given column group's index.
    ///
    /// `index_nr` is the index for the column (column `col_index_map[col]`),
    /// `column_offset` its start within the bucket, `cell_size` the bytes
    /// per row.
    pub fn cell_bytes(&self, index_nr: usize, column_offset: u32, row: u64, cell_size: u32) -> (res:
        Result<&[u8], SsmError>)
        ensures
            match self@.cell(index_nr as int, column_offset, row, cell_size) {
                Ok(b) => res is Ok && res->Ok_0@ == b && b.len() == cell_size,
                Err(f) => res is Err && res->Err_0@ == f,
            },
    {
        let b = self.locate(index_nr, row)?;
        let d: u64 = row - b.start_row;
        proof {
            assert(0 <= d * cell_size <= 0xffff_ffff_ffff_ffff * 0xffff_ffff) by (nonlinear_arith)
                requires
                    0 <= d <= 0xffff_ffff_ffff_ffff,
                    0 <= cell_size <= 0xffff_ffff,
            ;
        }
        let extra: u128 = d as u128 * cell_size as u128;
        self.cell_bytes_in_bucket(b.number, column_offset, extra, cell_size)
    }

    /// The bit of one row in a column of bits.
    pub(crate) fn cell_bit(&self, index_nr: usize, column_offset: u32, row: u64) -> (res: Result<
        bool,
        SsmError,
    >)
        ensures
            match self@.bit_cell(index_nr as int, column_offset, row) {
                Ok(b) => res == Ok::<bool, SsmError>(b),
                Err(f) => res is Err && res->Err_0@ == f,
            },
    {
        let b = self.locate(index_nr, row)?;
        let d: u64 = row - b.start_row;
        let cell = self.cell_bytes_in_bucket(b.number, column_offset, (d / 8) as u128, 1)?;
        let k: u8 = (d % 8) as u8;
        Ok((cell[0] >> k) & 1u8 == 1u8)
    }
}

/// A row past the last one of an index has no cell.
pub proof fn law_no_such_row(m: SsmModel, index_nr: int, offset: u32, row: u64, size: u32)
    requires
        0 <= index_nr < m.indices.len(),
        ascending(m.indices[index_nr].last_row),
        m.indices[index_nr].bucket_number.len() == m.indices[index_nr].last_row.len(),
        m.indices[index_nr].last_row.len() > 0 ==> row > m.indices[index_nr].last_row.last(),
    ensures
        m.cell(index_nr, offset, row, size) == Err::<Seq<u8>, SsmFault>(
            SsmFault::RowOutOfRange { row },
        ),
        m.bit_cell(index_nr, offset, row) == Err::<bool, SsmFault>(
            SsmFault::RowOutOfRange { row },
        ),
{
    let index = m.indices[index_nr];
    if index.last_row.len() > 0 {
        law_find(index, row, 0);
    }
}

/// The cells of two rows in one bucket lie apart, as far from each other as the
/// rows, and inside the bucket that the index gives.
pub proof fn law_cells_apart(
    m: SsmModel,
    index_nr: int,
    offset: u32,
    r: u64,
    s: u64,
    size: u32,
    k: int,
)
    requires
        0 <= index_nr < m.indices.len(),
        ascending(m.indices[index_nr].last_row),
        m.indices[index_nr].bucket_number.len() == m.indices[index_nr].last_row.len(),
        0 <= k < m.indices[index_nr].last_row.len(),
        k > 0 ==> m.indices[index_nr].last_row[k - 1] < r,
        r < s <= m.indices[index_nr].last_row[k],
        m.cell(index_nr, offset, r, size) is Ok,
        m.cell(index_nr, offset, s, size) is Ok,
    ensures
        ({
            let first = if k == 0 {
                0
            } else {
                m.indices[index_nr].last_row[k - 1] + 1
            };
            let from = bucket_start(
                m.header.bucket_size,
                m.indices[index_nr].bucket_number[k],
            ) + offset;
            let a = from + (r - first) * size;
            let b = from + (s - first) * size;
            &&& b - a == (s - r) * size && b - a >= size
            &&& m.cell(index_nr, offset, r, size)->Ok_0 == m.data.subrange(a, a + size)
            &&& m.cell(index_nr, offset, s, size)->Ok_0 == m.data.subrange(b, b + size)
        }),
{
    let index = m.indices[index_nr];
    law_find(index, r, k);
    law_find(index, s, k);
    let first = if k == 0 {
        0
    } else {
        index.last_row[k - 1] + 1
    };
    assert((s - first) * size - (r - first) * size == (s - r) * size && (s - r) * size >= size)
        by (nonlinear_arith)
        requires
            s - r >= 1,
            size >= 0,
    ;
}

} // verus!
