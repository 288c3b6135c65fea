//! The IncrementalStMan data file (`table.f0`) of a CASA table: reading.
//!
//! The data file is an AipsIO stream in the table's data-file endianness
//! (big or little). Layout:
//!
//! - A root `"IncrementalStMan"` v4/v5 object: bucket size and counts.
//! - Buckets from fixed offset 512: data bucket `b` at `512 + b*bucket_size`.
//! - The `"ISMIndex"` object immediately after the last bucket: the
//!   bucket-boundary rows (ascending row numbers, one more than there are
//!   buckets) and the bucket number per range.
//! - Every bucket holds the offset of its index (the high bits tell the
//!   row-number width), the raw data area, and a per-column index: for each
//!   column the number of intervals, their first rows and their data offsets.
//!   An interval covers the rows from its first row to the next interval's
//!   first row and stores one value, so that a value repeated over
//!   consecutive rows is stored once.
use crate::aipsio;
use crate::aipsio::{AipsIoError, AipsIoFault, Cursor, Reader, Step};
use crate::bytes;
use crate::record::{DataType, RecordValue, ValueModel};
use crate::recordio;
use crate::recordio::read_elements;
use crate::ssm;
use crate::ssm::{bucket_slice, reader, u32_at, SsmError, SsmFault};
use crate::ssmcell;
use crate::ssmcell::{decode_scalar, read_dims, scalar_cell_size};
use crate::tabledesc::{ColumnDesc, ColumnModel};
use crate::text::text_eq;
use vstd::prelude::*;

verus! {

/// Errors from reading an IncrementalStMan data file.
#[derive(Debug)]
pub enum IsmError {
    AipsIo(AipsIoError),
    UnexpectedType { expected: String, found: String },
    EndianMismatch { flag: bool, expected: bool },
    RowOutOfRange { row: u64 },
    InvalidBucket(u32, u32),
    ColumnEmpty { column: usize, row: u64 },
    Ssm(SsmError),
    StringUnsupported,
    NotScalar(String),
}

/// What an [`IsmError`] says.
pub enum IsmFault {
    AipsIo(AipsIoFault),
    UnexpectedType { expected: Seq<char>, found: Seq<char> },
    EndianMismatch { flag: bool, expected: bool },
    RowOutOfRange { row: u64 },
    InvalidBucket(u32, u32),
    ColumnEmpty { column: int, row: u64 },
    Ssm(SsmFault),
    StringUnsupported,
    NotScalar(Seq<char>),
}

impl View for IsmError {
    type V = IsmFault;

    open spec fn view(&self) -> IsmFault {
        match *self {
            IsmError::AipsIo(e) => IsmFault::AipsIo(e@),
            IsmError::UnexpectedType { expected, found } => IsmFault::UnexpectedType {
                expected: expected@,
                found: found@,
            },
            IsmError::EndianMismatch { flag, expected } => IsmFault::EndianMismatch {
                flag,
                expected,
            },
            IsmError::RowOutOfRange { row } => IsmFault::RowOutOfRange { row },
            IsmError::InvalidBucket(a, b) => IsmFault::InvalidBucket(a, b),
            IsmError::ColumnEmpty { column, row } => IsmFault::ColumnEmpty {
                column: column as int,
                row,
            },
            IsmError::Ssm(e) => IsmFault::Ssm(e@),
            IsmError::StringUnsupported => IsmFault::StringUnsupported,
            IsmError::NotScalar(s) => IsmFault::NotScalar(s@),
        }
    }
}

/// The `IncrementalStMan` header at the start of the data file.
#[derive(Debug, Clone, Copy, PartialEq)]
pub struct IsmHeader {
    pub version: u32,
    /// Data-file byte order.
    pub big_endian: bool,
    /// Size of one bucket in bytes.
    pub bucket_size: u32,
    /// Number of data buckets (the index object follows them).
    pub nbucket: u32,
    pub pers_cache_size: u32,
    pub uniq_nr: u32,
    pub n_free_bucket: u32,
    pub first_free_bucket: i32,
}

/// The row-to-bucket index at the end of the file.
#[derive(Debug, Clone, PartialEq)]
pub struct IsmIndex {
    /// Ascending row boundaries: bucket `i` holds rows
    /// `rows[i] .. rows[i+1] - 1`.
    pub rows: Vec<u64>,
    /// Data bucket holding each row range.
    pub bucket_numbers: Vec<u32>,
}

/// What an [`IsmIndex`] says.
pub struct IsmIndexModel {
    pub rows: Seq<u64>,
    pub bucket_numbers: Seq<u32>,
}

impl View for IsmIndex {
    type V = IsmIndexModel;

    open spec fn view(&self) -> IsmIndexModel {
        IsmIndexModel { rows: self.rows@, bucket_numbers: self.bucket_numbers@ }
    }
}

/// The interval that `row` falls in: the one that starts at `row`, or the
/// last one that starts before it.
pub open spec fn interval(rows: Seq<u64>, row: u64) -> Option<int> {
    let lb = ssm::bisect(rows, row, 0, rows.len() as int);
    if lb < rows.len() && rows[lb] == row {
        Some(lb)
    } else if lb > 0 {
        Some(lb - 1)
    } else {
        None
    }
}

/// The values increase.
pub open spec fn increasing(rows: Seq<u64>) -> bool {
    forall|i: int, j: int| 0 <= i < j < rows.len() ==> #[trigger] rows[i] < #[trigger] rows[j]
}

/// Among increasing first rows, a row falls in the interval that starts at
/// or before it and ends after it.
pub proof fn law_interval(rows: Seq<u64>, row: u64, k: int)
    requires
        increasing(rows),
        0 <= k < rows.len(),
        rows[k] <= row,
        k + 1 < rows.len() ==> row < rows[k + 1],
    ensures
        interval(rows, row) == Some(k),
{
    let n = rows.len() as int;
    ssm::lemma_bisect(rows, row, 0, n);
    let lb = ssm::bisect(rows, row, 0, n);
    if lb < k {
        assert(rows[lb] < rows[k]);
    }
    if lb > k + 1 {
        if k + 1 < lb - 1 {
            assert(rows[k + 1] < rows[lb - 1]);
        }
    }
    if lb == k + 1 && lb < n {
        assert(row < rows[k + 1]);
    }
}

impl IsmIndexModel {
    /// The bucket of `row`, the row within the bucket and the number of rows
    /// of the bucket.
    pub open spec fn bucket_for(self, row: u64) -> Option<(u32, u64, u64)> {
        let lb = ssm::bisect(self.rows, row, 0, self.rows.len() as int);
        if lb == self.rows.len() {
            None
        } else {
            match interval(self.rows, row) {
                None => None,
                Some(i) => if i + 1 >= self.rows.len() || i >= self.bucket_numbers.len()
                    || self.rows[i + 1] < self.rows[i] {
                    None
                } else {
                    Some(
                        (
                            self.bucket_numbers[i],
                            (row - self.rows[i]) as u64,
                            (self.rows[i + 1] - self.rows[i]) as u64,
                        ),
                    )
                },
            }
        }
    }
}

/// In an index with increasing boundaries and a bucket for each range, a row
/// is found exactly when it lies between the first and the last boundary,
/// and then in the range that holds it.
pub proof fn law_bucket_for(index: IsmIndexModel, row: u64, k: int)
    requires
        increasing(index.rows),
        index.rows.len() == index.bucket_numbers.len() + 1,
        0 <= k < index.bucket_numbers.len(),
    ensures
        index.bucket_for(row) is Some <==> index.rows[0] <= row < index.rows.last(),
        index.rows[k] <= row < index.rows[k + 1] ==> index.bucket_for(row) == Some(
            (
                index.bucket_numbers[k],
                (row - index.rows[k]) as u64,
                (index.rows[k + 1] - index.rows[k]) as u64,
            ),
        ),
{
    let rows = index.rows;
    let n = rows.len() as int;
    ssm::lemma_bisect(rows, row, 0, n);
    let lb = ssm::bisect(rows, row, 0, n);
    if rows[k] <= row < rows[k + 1] {
        law_interval(rows, row, k);
        assert(rows[k] < rows[k + 1]);
        if lb == n && k + 1 < n - 1 {
            assert(rows[k + 1] < rows[n - 1]);
        }
    }
    if 0 < lb < n {
        assert(lb - 1 == 0 || rows[0] < rows[lb - 1]);
        assert(lb == n - 1 || rows[lb] < rows[n - 1]);
        assert(rows[lb - 1] < rows[lb]);
        if lb + 1 < n {
            assert(rows[lb] < rows[lb + 1]);
        }
    }
    if lb == 0 {
        assert(rows[0] < rows[n - 1]);
        assert(rows[0] < rows[1]);
    }
    if lb == n {
        assert(rows[n - 1] < row);
    }
}

/// The position of the first value in `rows` that is not below `row`.
fn lower_bound(rows: &Vec<u64>, row: u64) -> (r: usize)
    ensures
        r == ssm::bisect(rows@, row, 0, rows@.len() as int),
        r <= rows@.len(),
        r > 0 ==> rows@[r - 1] < row,
        r < rows@.len() ==> rows@[r as int] >= row,
{
    let n: usize = rows.len();
    let mut lo: usize = 0;
    let mut hi: usize = n;
    while lo < hi
        invariant
            lo <= hi <= n,
            n == rows@.len(),
            ssm::bisect(rows@, row, 0, n as int) == ssm::bisect(rows@, row, lo as int, hi as int),
        decreases hi - lo,
    {
        let mid: usize = lo + (hi - lo) / 2;
        if rows[mid] < row {
            lo = mid + 1;
        } else {
            hi = mid;
        }
    }
    proof {
        ssm::lemma_bisect(rows@, row, 0, n as int);
    }
    lo
}

fn find_interval(rows: &Vec<u64>, row: u64) -> (r: Option<usize>)
    ensures
        match interval(rows@, row) {
            Some(i) => r == Some(i as usize) && 0 <= i < rows@.len() && rows@[i] <= row,
            None => r is None,
        },
{
    let lb: usize = lower_bound(rows, row);
    if lb < rows.len() && rows[lb] == row {
        Some(lb)
    } else if lb > 0 {
        Some(lb - 1)
    } else {
        None
    }
}

impl IsmIndex {
    /// Bucket for `row`, plus the intra-bucket row and bucket row count.
    pub fn bucket_for(&self, row: u64) -> (r: Option<(u32, u64, u64)>)
        ensures
            r == self@.bucket_for(row),
    {
        if lower_bound(&self.rows, row) == self.rows.len() {
            return None;
        }
        match find_interval(&self.rows, row) {
            None => None,
            Some(i) => {
                if self.rows.len() - i <= 1 || i >= self.bucket_numbers.len() || self.rows[i + 1]
                    < self.rows[i] {
                    return None;
                }
                Some((self.bucket_numbers[i], row - self.rows[i], self.rows[i + 1] - self.rows[i]))
            },
        }
    }
}

/// A parsed IncrementalStMan data file.
#[derive(Debug)]
pub struct IsmFile {
    pub header: IsmHeader,
    pub index: IsmIndex,
    data: Vec<u8>,
}

/// What an [`IsmFile`] says.
pub struct IsmModel {
    pub header: IsmHeader,
    pub index: IsmIndexModel,
    pub data: Seq<u8>,
}

impl View for IsmFile {
    type V = IsmModel;

    closed spec fn view(&self) -> IsmModel {
        IsmModel { header: self.header, index: self.index@, data: self.data@ }
    }
}

/// A stream fault as a data file fault.
pub open spec fn lift<T>(s: Step<T, AipsIoFault>) -> Step<T, IsmFault> {
    match s {
        Ok(v) => Ok(v),
        Err((f, c)) => Err((IsmFault::AipsIo(f), c)),
    }
}

fn io<T>(r: Result<T, AipsIoError>) -> (q: Result<T, IsmError>)
    ensures
        match r {
            Ok(v) => q == Ok::<T, IsmError>(v),
            Err(e) => q == Err::<T, IsmError>(IsmError::AipsIo(e)),
        },
{
    match r {
        Ok(v) => Ok(v),
        Err(e) => Err(IsmError::AipsIo(e)),
    }
}

/// The object header at the cursor, which must be of the expected type.
pub open spec fn expect_at(c: Cursor, root: bool, expected: Seq<char>) -> Step<
    aipsio::ObjectHead,
    IsmFault,
> {
    match lift(c.object_start(root)) {
        Err(e) => Err(e),
        Ok((head, c)) => if head.object_type == expected {
            Ok((head, c))
        } else {
            Err((IsmFault::UnexpectedType { expected, found: head.object_type }, c))
        },
    }
}

fn read_expected(r: &mut Reader<'_>, root: bool, expected: &str) -> (res: Result<
    aipsio::ObjectStart,
    IsmError,
>)
    ensures
        aipsio::reads(res, final(r)@, expect_at(old(r)@, root, expected@)),
{
    let obj = io(r.read_object_start(root))?;
    if !text_eq(obj.object_type.as_str(), expected) {
        return Err(
            IsmError::UnexpectedType { expected: expected.to_owned(), found: obj.object_type },
        );
    }
    Ok(obj)
}

/// The stored endianness flag, from version 5 on; it must match the table's.
pub open spec fn endian_at(c: Cursor, version: u32, big: bool) -> Step<(), IsmFault> {
    if version >= 5 {
        match lift(c.bool()) {
            Err(e) => Err(e),
            Ok((flag, c)) => if flag == big {
                Ok(((), c))
            } else {
                Err((IsmFault::EndianMismatch { flag, expected: big }, c))
            },
        }
    } else {
        Ok(((), c))
    }
}

/// The numbers of a header.
#[verifier::opaque]
pub open spec fn numbers_at(c: Cursor, version: u32) -> Step<IsmHeader, AipsIoFault> {
    match c.u32() {
        Err(e) => Err(e),
        Ok((bucket_size, d)) => match d.u32() {
            Err(e) => Err(e),
            Ok((nbucket, d)) => match d.u32() {
                Err(e) => Err(e),
                Ok((pers_cache_size, d)) => match d.u32() {
                    Err(e) => Err(e),
                    Ok((uniq_nr, d)) => match d.u32() {
                        Err(e) => Err(e),
                        Ok((n_free_bucket, d)) => match d.i32() {
                            Err(e) => Err(e),
                            Ok((first_free_bucket, d)) => Ok(
                                (
                                    IsmHeader {
                                        version,
                                        big_endian: c.big,
                                        bucket_size,
                                        nbucket,
                                        pers_cache_size,
                                        uniq_nr,
                                        n_free_bucket,
                                        first_free_bucket,
                                    },
                                    d,
                                ),
                            ),
                        },
                    },
                },
            },
        },
    }
}

/// The header of a data file of the given endianness.
pub open spec fn header_of(data: Seq<u8>, big: bool) -> Result<IsmHeader, IsmFault> {
    let c = Cursor { data, big, pos: 0 };
    match expect_at(c, true, "IncrementalStMan"@) {
        Err((f, _)) => Err(f),
        Ok((head, c)) => match endian_at(c, head.version, big) {
            Err((f, _)) => Err(f),
            Ok((_, c)) => match lift(numbers_at(c, head.version)) {
                Err((f, _)) => Err(f),
                Ok((h, _)) => Ok(h),
            },
        },
    }
}

fn read_header(data: &[u8], big: bool) -> (res: Result<IsmHeader, IsmError>)
    ensures
        match header_of(data@, big) {
            Ok(h) => res == Ok::<IsmHeader, IsmError>(h),
            Err(f) => res is Err && res->Err_0@ == f,
        },
{
    broadcast use aipsio::group_cursor;

    let mut r = reader(data, big);
    let obj = read_expected(&mut r, true, "IncrementalStMan")?;
    let version = obj.version;
    if version >= 5 {
        let flag = io(r.read_bool())?;
        if flag != big {
            return Err(IsmError::EndianMismatch { flag, expected: big });
        }
    }
    proof {
        reveal(numbers_at);
        assert(r@.big == big);
    }
    let bucket_size = io(r.read_u32())?;
    let nbucket = io(r.read_u32())?;
    let pers_cache_size = io(r.read_u32())?;
    let uniq_nr = io(r.read_u32())?;
    let n_free_bucket = io(r.read_u32())?;
    let first_free_bucket = io(r.read_i32())?;
    Ok(
        IsmHeader {
            version,
            big_endian: big,
            bucket_size,
            nbucket,
            pers_cache_size,
            uniq_nr,
            n_free_bucket,
            first_free_bucket,
        },
    )
}

/// A block of row boundaries: 32-bit in a version-1 index, 64-bit later.
pub open spec fn boundaries_at(c: Cursor, version: u32) -> Step<Seq<u64>, IsmFault> {
    match expect_at(c, false, "Block"@) {
        Err(e) => Err(e),
        Ok((_, c)) => match lift(c.u32()) {
            Err(e) => Err(e),
            Ok((n, c)) => if version > 1 {
                lift(recordio::elements_at::<u64>(c, n as nat, Seq::empty()))
            } else {
                match lift(recordio::elements_at::<u32>(c, n as nat, Seq::empty())) {
                    Err(e) => Err(e),
                    Ok((s, c)) => Ok((ssm::widened(s), c)),
                }
            },
        },
    }
}

/// A block of bucket numbers.
pub open spec fn bucket_numbers_at(c: Cursor) -> Step<Seq<u32>, IsmFault> {
    match expect_at(c, false, "Block"@) {
        Err(e) => Err(e),
        Ok((_, c)) => match lift(c.u32()) {
            Err(e) => Err(e),
            Ok((n, c)) => lift(recordio::elements_at::<u32>(c, n as nat, Seq::empty())),
        },
    }
}

/// At most the first `n` numbers.
pub open spec fn cut(s: Seq<u32>, n: int) -> Seq<u32> {
    if n < s.len() {
        s.take(n)
    } else {
        s
    }
}

/// The index object.
#[verifier::opaque]
pub open spec fn index_at(c: Cursor) -> Step<IsmIndexModel, IsmFault> {
    match lift(c.object(true, "ISMIndex"@)) {
        Err(e) => Err(e),
        Ok((head, c)) => match lift(c.u32()) {
            Err(e) => Err(e),
            Ok((used, c)) => match boundaries_at(c, head.version) {
                Err(e) => Err(e),
                Ok((rows, c)) => match bucket_numbers_at(c) {
                    Err(e) => Err(e),
                    Ok((numbers, c)) => Ok(
                        (IsmIndexModel { rows, bucket_numbers: cut(numbers, used as int) }, c),
                    ),
                },
            },
        },
    }
}

/// The index of a data file, which follows the last bucket.
pub open spec fn index_of(data: Seq<u8>, h: IsmHeader) -> Result<IsmIndexModel, IsmFault> {
    let at = ssm::bucket_start(h.bucket_size, h.nbucket);
    if at > data.len() {
        Err(IsmFault::InvalidBucket(h.nbucket, h.nbucket))
    } else {
        match index_at(
            Cursor { data: data.subrange(at, data.len() as int), big: h.big_endian, pos: 0 },
        ) {
            Err((f, _)) => Err(f),
            Ok((m, _)) => Ok(m),
        }
    }
}

fn read_boundaries(r: &mut Reader<'_>, version: u32) -> (res: Result<Vec<u64>, IsmError>)
    ensures
        aipsio::reads(res, final(r)@, boundaries_at(old(r)@, version)),
{
    let _obj = read_expected(r, false, "Block")?;
    let n: u32 = io(r.read_u32())?;
    if version > 1 {
        let out = io(read_elements::<u64>(r, n as usize))?;
        assert(recordio::views(out@) =~= out@);
        Ok(out)
    } else {
        let narrow = io(read_elements::<u32>(r, n as usize))?;
        assert(recordio::views(narrow@) =~= narrow@);
        Ok(widen(&narrow))
    }
}

fn widen(narrow: &Vec<u32>) -> (out: Vec<u64>)
    ensures
        out@ == ssm::widened(narrow@),
{
    let mut out: Vec<u64> = Vec::new();
    let mut i: usize = 0;
    while i < narrow.len()
        invariant
            i <= narrow@.len(),
            out@.len() == i,
            forall|k: int| 0 <= k < i ==> out@[k] == narrow@[k] as u64,
        decreases narrow@.len() - i,
    {
        out.push(narrow[i] as u64);
        i = i + 1;
    }
    assert(out@ =~= ssm::widened(narrow@));
    out
}

fn read_bucket_numbers(r: &mut Reader<'_>) -> (res: Result<Vec<u32>, IsmError>)
    ensures
        aipsio::reads(res, final(r)@, bucket_numbers_at(old(r)@)),
{
    let _obj = read_expected(r, false, "Block")?;
    let n: u32 = io(r.read_u32())?;
    let out = io(read_elements::<u32>(r, n as usize))?;
    assert(recordio::views(out@) =~= out@);
    Ok(out)
}

fn read_index_object(r: &mut Reader<'_>) -> (res: Result<IsmIndex, IsmError>)
    ensures
        aipsio::reads(res, final(r)@, index_at(old(r)@)),
{
    proof {
        reveal(index_at);
    }
    let (version, _obj) = io(r.read_object(true, "ISMIndex"))?;
    let used: u32 = io(r.read_u32())?;
    let rows = read_boundaries(r, version)?;
    let mut numbers = read_bucket_numbers(r)?;
    let ghost all = numbers@;
    numbers.truncate(used as usize);
    assert(numbers@ =~= cut(all, used as int));
    Ok(IsmIndex { rows, bucket_numbers: numbers })
}

fn read_index(data: &[u8], h: &IsmHeader) -> (res: Result<IsmIndex, IsmError>)
    ensures
        match index_of(data@, *h) {
            Ok(m) => res is Ok && res->Ok_0@ == m,
            Err(f) => res is Err && res->Err_0@ == f,
        },
{
    proof {
        ssm::lemma_u32_product(h.nbucket, h.bucket_size);
    }
    let at: u64 = 512 + h.nbucket as u64 * h.bucket_size as u64;
    if at > data.len() as u64 {
        return Err(IsmError::InvalidBucket(h.nbucket, h.nbucket));
    }
    let tail = vstd::slice::slice_subrange(data, at as usize, data.len());
    let mut r = reader(tail, h.big_endian);
    read_index_object(&mut r)
}

/// What a data file of the given endianness says.
pub open spec fn parsed(data: Seq<u8>, big: bool) -> Result<IsmModel, IsmFault> {
    match header_of(data, big) {
        Err(f) => Err(f),
        Ok(header) => match index_of(data, header) {
            Err(f) => Err(f),
            Ok(index) => Ok(IsmModel { header, index, data }),
        },
    }
}

/// `n` 64-bit integers at `p`, appended to `acc`.
pub open spec fn wide_in(data: Seq<u8>, p: int, n: nat, big: bool, acc: Seq<u64>) -> Option<
    Seq<u64>,
>
    decreases n,
{
    if n == 0 {
        Some(acc)
    } else if p + 8 > data.len() {
        None
    } else {
        wide_in(
            data,
            p + 8,
            (n - 1) as nat,
            big,
            acc.push(bytes::uint_value(big, data.subrange(p, p + 8)) as u64),
        )
    }
}

/// The first rows and the data offsets of the intervals of a column, whose
/// index stands at `p`.
pub open spec fn entries_in(b: Seq<u8>, p: int, wide: bool, big: bool) -> Option<
    (Seq<u64>, Seq<u32>),
> {
    match ssm::u32_in(b, p, big) {
        Err(_) => None,
        Ok(n) => {
            let rows = if wide {
                wide_in(b, p + 4, n as nat, big, Seq::empty())
            } else {
                match ssmcell::dims_in(b, p + 4, n as nat, big, Seq::empty()) {
                    Ok(s) => Some(ssm::widened(s)),
                    Err(_) => None,
                }
            };
            let q = p + 4 + n * row_width(wide);
            match rows {
                None => None,
                Some(rows) => match ssmcell::dims_in(b, q, n as nat, big, Seq::empty()) {
                    Ok(offsets) => Some((rows, offsets)),
                    Err(_) => None,
                },
            }
        },
    }
}

/// Bytes of a row number.
pub open spec fn row_width(wide: bool) -> int {
    if wide {
        8
    } else {
        4
    }
}

/// Where the index of column `column` stands, given that of column 0.
pub open spec fn entries_place(b: Seq<u8>, p: int, column: nat, wide: bool, big: bool) -> Option<
    int,
>
    decreases column,
{
    if column == 0 {
        Some(p)
    } else {
        match ssm::u32_in(b, p, big) {
            Err(_) => None,
            Ok(n) => entries_place(
                b,
                p + 4 + n * (row_width(wide) + 4),
                (column - 1) as nat,
                wide,
                big,
            ),
        }
    }
}

/// The intervals of a column in a bucket: the bucket begins with the offset
/// of the index in the low 28 bits, and the high bits are zero for 32-bit
/// row numbers.
pub open spec fn column_entries(b: Seq<u8>, column: nat, big: bool) -> Option<(Seq<u64>, Seq<u32>)> {
    match ssm::u32_in(b, 0, big) {
        Err(_) => None,
        Ok(v) => {
            let wide = v as int / 0x1000_0000 != 0;
            match entries_place(b, v as int % 0x1000_0000, column, wide, big) {
                None => None,
                Some(p) => entries_in(b, p, wide, big),
            }
        },
    }
}

fn read_wide(data: &[u8], start: usize, n: u32, big: bool) -> (res: Option<Vec<u64>>)
    ensures
        match wide_in(data@, start as int, n as nat, big, Seq::empty()) {
            Some(s) => res is Some && res->0@ == s && s.len() == n && (n > 0 ==> start + 8 * n
                <= data@.len()),
            None => res is None,
        },
{
    let mut out: Vec<u64> = Vec::new();
    let mut p: usize = start;
    let mut i: u32 = 0;
    let len: usize = data.len();
    while i < n
        invariant
            len == data@.len(),
            i <= n,
            out@.len() == i,
            p == start + 8 * i,
            i > 0 ==> p <= len,
            wide_in(data@, start as int, n as nat, big, Seq::empty()) == wide_in(
                data@,
                p as int,
                (n - i) as nat,
                big,
                out@,
            ),
        decreases n - i,
    {
        if len < 8 || p > len - 8 {
            return None;
        }
        let v: u64 = bytes::uint_from(big, vstd::slice::slice_subrange(data, p, p + 8));
        out.push(v);
        p = p + 8;
        i = i + 1;
    }
    Some(out)
}

fn read_entries(b: &[u8], p: usize, wide: bool, big: bool) -> (res: Option<(Vec<u64>, Vec<u32>)>)
    ensures
        match entries_in(b@, p as int, wide, big) {
            Some((rows, offsets)) => (res matches Some(x) && x.0@ == rows && x.1@ == offsets)
                && rows.len() == offsets.len(),
            None => res is None,
        },
{
    let len: usize = b.len();
    let n: u32 = match u32_at(b, p, big) {
        Ok(n) => n,
        Err(_) => {
            return None;
        },
    };
    let rows: Vec<u64> = if wide {
        match read_wide(b, p + 4, n, big) {
            Some(s) => s,
            None => {
                return None;
            },
        }
    } else {
        match read_dims(b, p + 4, n, big) {
            Ok(s) => widen(&s),
            Err(_) => {
                return None;
            },
        }
    };
    let w: usize = if wide { 8 } else { 4 };
    assert(p + 4 + n * w <= len && n * w >= 0) by {
        assert(n * 8 == 8 * n && n * 4 == 4 * n);
    }
    match read_dims(b, p + 4 + n as usize * w, n, big) {
        Ok(offsets) => Some((rows, offsets)),
        Err(_) => None,
    }
}

fn read_column_entries(b: &[u8], column: usize, big: bool) -> (res: Option<(Vec<u64>, Vec<u32>)>)
    requires
        b@.len() <= u32::MAX,
    ensures
        match column_entries(b@, column as nat, big) {
            Some((rows, offsets)) => (res matches Some(x) && x.0@ == rows && x.1@ == offsets)
                && rows.len() == offsets.len(),
            None => res is None,
        },
{
    let v: u32 = match u32_at(b, 0, big) {
        Ok(v) => v,
        Err(_) => {
            return None;
        },
    };
    let wide: bool = v / 0x1000_0000 != 0;
    let w: u64 = if wide { 8 } else { 4 };
    let len: u64 = b.len() as u64;
    let mut p: u64 = (v % 0x1000_0000) as u64;
    let mut c: usize = 0;
    while c < column
        invariant
            c <= column,
            b@.len() <= u32::MAX,
            len == b@.len(),
            w == row_width(wide),
            ssm::u32_in(b@, 0, big) == Ok::<u32, SsmFault>(v),
            wide == (v as int / 0x1000_0000 != 0),
            0 <= p <= 0x1000_0000_0000,
            entries_place(b@, v as int % 0x1000_0000, column as nat, wide, big) == entries_place(
                b@,
                p as int,
                (column - c) as nat,
                wide,
                big,
            ),
        decreases column - c,
    {
        if p > len {
            return None;
        }
        let n: u32 = match u32_at(b, p as usize, big) {
            Ok(n) => n,
            Err(_) => {
                return None;
            },
        };
        assert(n * (w + 4) <= 0xffff_ffff * 12) by (nonlinear_arith)
            requires
                0 <= n <= 0xffff_ffff,
                0 <= w <= 8,
        ;
        p = p + 4 + n as u64 * (w + 4);
        c = c + 1;
    }
    if p > len {
        return None;
    }
    read_entries(b, p as usize, wide, big)
}

impl IsmModel {
    /// The bytes of the cell at `row` of column `column`, with up to 32 bytes.
    pub open spec fn cell(self, column: int, row: u64) -> Result<Seq<u8>, IsmFault> {
        match self.index.bucket_for(row) {
            None => Err(IsmFault::RowOutOfRange { row }),
            Some((bucket, intra, _)) => match ssm::bucket_of(
                self.data,
                self.header.bucket_size,
                bucket,
            ) {
                None => Err(IsmFault::InvalidBucket(bucket, self.header.nbucket)),
                Some(b) => match column_entries(b, column as nat, self.header.big_endian) {
                    None => Err(IsmFault::InvalidBucket(bucket, self.header.nbucket)),
                    Some((rows, offsets)) => match interval(rows, intra) {
                        None => Err(IsmFault::ColumnEmpty { column, row }),
                        Some(i) => {
                            let at = 4 + offsets[i];
                            if at + 32 > b.len() {
                                Err(IsmFault::ColumnEmpty { column, row })
                            } else {
                                Ok(b.subrange(at, at + 32))
                            }
                        },
                    },
                },
            },
        }
    }

    /// The value of the scalar cell at `row` of column `column`.
    pub open spec fn scalar(self, column: int, desc: ColumnModel, row: u64) -> Result<
        ValueModel,
        IsmFault,
    > {
        if desc.data_type == DataType::String {
            Err(IsmFault::StringUnsupported)
        } else {
            match self.cell(column, row) {
                Err(f) => Err(f),
                Ok(cell) => match ssmcell::decoded(
                    cell.subrange(
                        0,
                        ssmcell::cell_size(desc.data_type, desc.max_length) as int,
                    ),
                    desc,
                    self.header.big_endian,
                ) {
                    Err(f) => Err(IsmFault::Ssm(f)),
                    Ok(v) => Ok(v),
                },
            }
        }
    }
}

impl IsmFile {
    /// Parse an IncrementalStMan data file. `table_big_endian` is the
    /// data-file endianness flag from the `table.dat` header; for header
    /// version >= 5 the stored flag must match it.
    pub fn parse(data: &[u8], table_big_endian: bool) -> (res: Result<IsmFile, IsmError>)
        ensures
            match parsed(data@, table_big_endian) {
                Ok(m) => res is Ok && res->Ok_0@ == m,
                Err(f) => res is Err && res->Err_0@ == f,
            },
    {
        let header = read_header(data, table_big_endian)?;
        let index = read_index(data, &header)?;
        Ok(IsmFile { header, index, data: vstd::slice::slice_to_vec(data) })
    }

    /// The header of the file.
    pub fn header(&self) -> (r: &IsmHeader)
        ensures
            *r == self@.header,
    {
        &self.header
    }

    /// The row-to-bucket index of the file.
    pub fn index(&self) -> (r: &IsmIndex)
        ensures
            r@ == self@.index,
    {
        &self.index
    }

    pub(crate) fn cell_bytes(&self, column: usize, row: u64) -> (res: Result<&[u8], IsmError>)
        ensures
            match self@.cell(column as int, row) {
                Ok(b) => res is Ok && res->Ok_0@ == b && b.len() == 32,
                Err(f) => res is Err && res->Err_0@ == f,
            },
    {
        let (bucket, intra, _rows) = match self.index.bucket_for(row) {
            Some(x) => x,
            None => {
                return Err(IsmError::RowOutOfRange { row });
            },
        };
        let b = match bucket_slice(self.data.as_slice(), self.header.bucket_size, bucket) {
            Some(b) => b,
            None => {
                return Err(IsmError::InvalidBucket(bucket, self.header.nbucket));
            },
        };
        proof {
            ssm::lemma_u32_product(bucket, self.header.bucket_size);
            assert(b@.len() == self.header.bucket_size);
        }
        let (rows, offsets) = match read_column_entries(b, column, self.header.big_endian) {
            Some(x) => x,
            None => {
                return Err(IsmError::InvalidBucket(bucket, self.header.nbucket));
            },
        };
        match find_interval(&rows, intra) {
            None => Err(IsmError::ColumnEmpty { column, row }),
            Some(i) => {
                let at: u64 = 4 + offsets[i] as u64;
                if at + 32 > b.len() as u64 {
                    return Err(IsmError::ColumnEmpty { column, row });
                }
                Ok(vstd::slice::slice_subrange(b, at as usize, at as usize + 32))
            },
        }
    }

    /// Read the scalar value for `column` (index within this data manager)
    /// at `row`. The value is the interval entry covering `row`.
    pub fn read_scalar_cell(&self, column: usize, desc: &ColumnDesc, row: u64) -> (res: Result<
        RecordValue,
        IsmError,
    >)
        ensures
            match self@.scalar(column as int, desc@, row) {
                Ok(v) => res is Ok && res->Ok_0@ == v,
                Err(f) => res is Err && res->Err_0@ == f,
            },
    {
        if desc.data_type == DataType::String {
            return Err(IsmError::StringUnsupported);
        }
        let cell = self.cell_bytes(column, row)?;
        let want: usize = scalar_cell_size(desc) as usize;
        match decode_scalar(
            vstd::slice::slice_subrange(cell, 0, want),
            desc,
            self.header.big_endian,
        ) {
            Ok(v) => Ok(v),
            Err(e) => Err(IsmError::Ssm(e)),
        }
    }
}

/// A row before the first or behind the last boundary of an index has no cell.
pub proof fn law_no_such_row(m: IsmModel, column: int, row: u64)
    requires
        increasing(m.index.rows),
        m.index.bucket_numbers.len() > 0,
        m.index.rows.len() == m.index.bucket_numbers.len() + 1,
        row < m.index.rows[0] || row >= m.index.rows.last(),
    ensures
        m.cell(column, row) == Err::<Seq<u8>, IsmFault>(IsmFault::RowOutOfRange { row }),
{
    law_bucket_for(m.index, row, 0);
}

/// Rows between two stored ones have the value of the earlier one: where the
/// entries of a column in a bucket hold no row between `r` and `s`, nor `s`, the
/// two rows have the same cell.
pub proof fn law_value_holds_on(m: IsmModel, column: int, r: u64, s: u64, k: int, i: int)
    requires
        increasing(m.index.rows),
        m.index.rows.len() == m.index.bucket_numbers.len() + 1,
        0 <= k < m.index.bucket_numbers.len(),
        m.index.rows[k] <= r < s < m.index.rows[k + 1],
        ({
            let b = ssm::bucket_of(m.data, m.header.bucket_size, m.index.bucket_numbers[k]);
            b is Some && (column_entries(b->0, column as nat, m.header.big_endian) matches Some(
                (rows, _),
            ) && increasing(rows) && 0 <= i < rows.len() && rows[i] <= r - m.index.rows[k] && (i + 1
                < rows.len() ==> s - m.index.rows[k] < rows[i + 1]))
        }),
    ensures
        m.cell(column, r) is Ok == m.cell(column, s) is Ok,
        m.cell(column, r) is Ok ==> m.cell(column, r) == m.cell(column, s),
{
    let b = ssm::bucket_of(m.data, m.header.bucket_size, m.index.bucket_numbers[k])->0;
    let (rows, _) = column_entries(b, column as nat, m.header.big_endian)->0;
    law_bucket_for(m.index, r, k);
    law_bucket_for(m.index, s, k);
    law_interval(rows, (r - m.index.rows[k]) as u64, i);
    law_interval(rows, (s - m.index.rows[k]) as u64, i);
}

} // verus!
