//! Writing a StandardStMan data file: cells, array records, the bucket
//! layout, the index and the whole file.
use crate::aipsio;
use crate::aipsio::Writer;
use crate::bytes;
use crate::bytes::{length32, pack_bits, resize, to_signed32};
use crate::columnset;
use crate::columnset::write_block_u32;
use crate::items;
use crate::items::write_items;
use crate::record::{
    ArrayData, ArrayModel, ArrayValue, DataType, ElementsModel, RecordValue, ValueModel,
};
use crate::recordio;
use crate::recordout;
use crate::recordout::write_scalar_value;
use crate::ssm;
use crate::ssm::{SsmError, SsmFault};
use crate::ssmcell;
use crate::ssmcell::{reversed, scalar_cell_size};
use crate::tabledesc::ColumnDesc;
use crate::text;
use crate::text::bytes_of;
use vstd::prelude::*;

verus! {

/// An empty stream of the given endianness.
pub(crate) fn writer(big_endian: bool) -> (w: Writer)
    ensures
        w@ == (aipsio::Sheet { big: big_endian, open: Seq::empty(), body: Seq::empty() }),
{
    if big_endian {
        Writer::new()
    } else {
        Writer::new_le()
    }
}

/// The text of a string value; any other value stands as the empty string.
pub open spec fn value_text(v: ValueModel) -> Seq<char> {
    match v {
        ValueModel::String(s) => s,
        _ => Seq::empty(),
    }
}

/// Whether a value counts as true.
pub open spec fn value_bit(v: ValueModel) -> bool {
    match v {
        ValueModel::Bool(b) => b,
        ValueModel::UChar(u) => u != 0,
        _ => false,
    }
}

/// The cell of a variable string of at most eight bytes.
pub open spec fn short_cell(big: bool, s: Seq<u8>) -> Seq<u8> {
    bytes::resized(s, 8) + aipsio::i32_bytes(big, s.len() as i32)
}

/// The cell of a scalar value.
pub open spec fn scalar_cell(big: bool, dt: DataType, max_length: i32, v: ValueModel) -> Result<
    Seq<u8>,
    SsmFault,
> {
    let want = ssmcell::cell_size(dt, max_length) as nat;
    match dt {
        DataType::Bool => Ok(aipsio::bool_bytes(value_bit(v))),
        DataType::String => {
            let s = text::text_bytes(value_text(v));
            if max_length > 0 {
                Ok(bytes::resized(s, want))
            } else if s.len() > 8 {
                Err(
                    SsmFault::StringBucketUnsupported {
                        bucket: 0,
                        len: bytes::signed32(bytes::low32(s.len() as int)),
                    },
                )
            } else {
                Ok(short_cell(big, s))
            }
        },
        _ => Ok(bytes::resized(recordout::scalar_bytes(big, dt, v), want)),
    }
}

/// Every cell has the size of its column's cells.
pub proof fn lemma_scalar_cell_len(big: bool, dt: DataType, max_length: i32, v: ValueModel)
    ensures
        scalar_cell(big, dt, max_length, v) matches Ok(b) ==> b.len() == ssmcell::cell_size(
            dt,
            max_length,
        ),
{
    let s = text::text_bytes(value_text(v));
    bytes::lemma_uint_bytes_len(big, bytes::pattern32(s.len() as i32) as nat, 4);
}

fn text_of(value: &RecordValue) -> (r: Vec<u8>)
    ensures
        r@ == text::text_bytes(value_text(value@)),
{
    match value {
        RecordValue::String(s) => bytes_of(s.as_str()),
        _ => {
            proof {
                reveal_strlit("");
                assert(""@ =~= Seq::<char>::empty());
            }
            bytes_of("")
        },
    }
}

/// Encode one scalar cell for `desc` and `value` into the exact
/// `scalar_cell_size(desc)` bytes stored in a bucket. Variable-length strings
/// of up to eight bytes are stored inline; longer ones need the string
/// buckets.
pub fn encode_scalar_cell(big_endian: bool, desc: &ColumnDesc, value: &RecordValue) -> (res: Result<
    Vec<u8>,
    SsmError,
>)
    requires
        !recordout::needs_float_cast(desc@.data_type, value@),
    ensures
        match scalar_cell(big_endian, desc@.data_type, desc@.max_length, value@) {
            Ok(b) => res is Ok && res->Ok_0@ == b && b.len() == ssmcell::cell_size(
                desc@.data_type,
                desc@.max_length,
            ),
            Err(f) => res is Err && res->Err_0@ == f,
        },
{
    proof {
        lemma_scalar_cell_len(big_endian, desc@.data_type, desc@.max_length, value@);
    }
    let mut w = writer(big_endian);
    match desc.data_type {
        DataType::Bool => {
            let b = match value {
                RecordValue::Bool(b) => *b,
                RecordValue::UChar(u) => *u != 0,
                _ => false,
            };
            w.put_bool(b);
            let cell = w.into_bytes();
            assert(cell@ =~= aipsio::bool_bytes(value_bit(value@)));
            Ok(cell)
        },
        DataType::String => {
            let s = text_of(value);
            if desc.max_length > 0 {
                return Ok(resize(s.as_slice(), desc.max_length as usize));
            }
            if s.len() > 8 {
                return Err(
                    SsmError::StringBucketUnsupported {
                        bucket: 0,
                        len: to_signed32(length32(s.len())),
                    },
                );
            }
            let front = resize(s.as_slice(), 8);
            w.put_raw(front.as_slice());
            w.put_i32(s.len() as i32);
            let cell = w.into_bytes();
            assert(cell@ =~= short_cell(big_endian, s@));
            Ok(cell)
        },
        dt => {
            write_scalar_value(&mut w, dt, value);
            let cell = w.into_bytes();
            assert(cell@ =~= recordout::scalar_bytes(big_endian, dt, value@));
            Ok(resize(cell.as_slice(), scalar_cell_size(desc) as usize))
        },
    }
}

/// The bytes of the elements of an array in the array index file.
pub open spec fn elements_bytes(big: bool, e: ElementsModel) -> Seq<u8> {
    match e {
        ElementsModel::Bool(s) => bytes::packed(s),
        ElementsModel::UChar(s) => items::items_bytes::<u8>(big, s, s.len()),
        ElementsModel::Short(s) => items::items_bytes::<i16>(big, s, s.len()),
        ElementsModel::UShort(s) => items::items_bytes::<u16>(big, s, s.len()),
        ElementsModel::Int(s) => items::items_bytes::<i32>(big, s, s.len()),
        ElementsModel::UInt(s) => items::items_bytes::<u32>(big, s, s.len()),
        ElementsModel::Int64(s) => items::items_bytes::<i64>(big, s, s.len()),
        ElementsModel::Float(s) => items::items_bytes::<u32>(big, s, s.len()),
        ElementsModel::Double(s) => items::items_bytes::<u64>(big, s, s.len()),
        ElementsModel::Complex(s) => items::items_bytes::<(u32, u32)>(big, s, s.len()),
        ElementsModel::DComplex(s) => items::items_bytes::<(u64, u64)>(big, s, s.len()),
        ElementsModel::String(_) => Seq::empty(),
    }
}

/// The record of an array in the array index file: the number of dimensions,
/// the dimensions (the fastest varying one first) and the elements.
pub open spec fn array_bytes(big: bool, a: ArrayModel) -> Seq<u8> {
    aipsio::u32_bytes(big, bytes::low32(a.shape.len() as int)) + items::items_bytes::<u32>(
        big,
        a.shape.reverse(),
        a.shape.len(),
    ) + elements_bytes(big, a.data)
}

fn write_elements(w: &mut Writer, data: &ArrayData)
    ensures
        final(w)@ == old(w)@.put(elements_bytes(old(w)@.big, data@)),
{
    match data {
        ArrayData::Bool(v) => {
            let p = pack_bits(v.as_slice());
            w.put_raw(p.as_slice());
        },
        ArrayData::UChar(v) => {
            assert(recordio::views(v@) =~= v@);
            write_items::<u8>(w, v.as_slice());
        },
        ArrayData::Short(v) => {
            assert(recordio::views(v@) =~= v@);
            write_items::<i16>(w, v.as_slice());
        },
        ArrayData::UShort(v) => {
            assert(recordio::views(v@) =~= v@);
            write_items::<u16>(w, v.as_slice());
        },
        ArrayData::Int(v) => {
            assert(recordio::views(v@) =~= v@);
            write_items::<i32>(w, v.as_slice());
        },
        ArrayData::UInt(v) => {
            assert(recordio::views(v@) =~= v@);
            write_items::<u32>(w, v.as_slice());
        },
        ArrayData::Int64(v) => {
            assert(recordio::views(v@) =~= v@);
            write_items::<i64>(w, v.as_slice());
        },
        ArrayData::Float(v) => {
            assert(recordio::views(v@) =~= v@);
            write_items::<u32>(w, v.as_slice());
        },
        ArrayData::Double(v) => {
            assert(recordio::views(v@) =~= v@);
            write_items::<u64>(w, v.as_slice());
        },
        ArrayData::Complex(v) => {
            assert(recordio::views(v@) =~= v@);
            write_items::<(u32, u32)>(w, v.as_slice());
        },
        ArrayData::DComplex(v) => {
            assert(recordio::views(v@) =~= v@);
            write_items::<(u64, u64)>(w, v.as_slice());
        },
        ArrayData::String(_) => {
            proof {
                aipsio::lemma_sheet_put_nothing(w@);
            }
        },
    }
}

/// Encode one array value into its array index file record: `[ndim]`, the
/// dimensions from the last to the first, and the element data, in the
/// table's data-file endianness. String arrays have no such record.
pub fn encode_array_record(big_endian: bool, elem: DataType, value: &ArrayValue) -> (res: Result<
    Vec<u8>,
    SsmError,
>)
    requires
        elem != DataType::String ==> !(value@.data is String),
    ensures
        if elem == DataType::String {
            res is Err && res->Err_0@ == SsmFault::UnsupportedArrayType(DataType::String)
        } else {
            res is Ok && res->Ok_0@ == array_bytes(big_endian, value@)
        },
{
    if elem == DataType::String {
        return Err(SsmError::UnsupportedArrayType(DataType::String));
    }
    let mut w = writer(big_endian);
    let ghost s = w@;
    w.put_u32(length32(value.shape.len()));
    let dims = reversed(&value.shape);
    write_items::<u32>(&mut w, dims.as_slice());
    write_elements(&mut w, &value.data);
    proof {
        assert(recordio::views(dims@) =~= dims@);
        let a = aipsio::u32_bytes(big_endian, bytes::low32(value@.shape.len() as int));
        let b = items::items_bytes::<u32>(big_endian, dims@, dims@.len());
        let c = elements_bytes(big_endian, value@.data);
        aipsio::lemma_sheet_put3(s, a, b, c);
        assert(s.put(a + b + c).body =~= a + b + c);
    }
    Ok(w.into_bytes())
}

/// The raw cells of one column of a data file.
pub struct WriteColumn<'a> {
    /// Bytes per row cell in the bucket.
    pub cell_size: u32,
    /// 1 where the cells are single bits; any other value means whole bytes.
    pub cell_bits: u32,
    /// The cells of all rows: `cell_size` bytes for each row, or one bit for
    /// each row, least significant first.
    pub bytes: &'a [u8],
}

/// What a [`WriteColumn`] says.
pub struct CellsModel {
    pub cell_size: u32,
    pub cell_bits: u32,
    pub bytes: Seq<u8>,
}

impl<'a> View for WriteColumn<'a> {
    type V = CellsModel;

    open spec fn view(&self) -> CellsModel {
        CellsModel { cell_size: self.cell_size, cell_bits: self.cell_bits, bytes: self.bytes@ }
    }
}

/// Layout of a bucket of `rows_per_bucket` rows: each column owns a region
/// of whole bytes, one after the other from offset 0.
#[derive(Debug)]
pub struct StandardStManLayout {
    pub rows_per_bucket: u32,
    pub bucket_size: u32,
    /// Byte offset of each column's region in every data bucket.
    pub column_offset: Vec<u32>,
}

/// What a [`StandardStManLayout`] says.
pub struct LayoutModel {
    pub rows_per_bucket: u32,
    pub bucket_size: u32,
    pub column_offset: Seq<u32>,
}

impl View for StandardStManLayout {
    type V = LayoutModel;

    open spec fn view(&self) -> LayoutModel {
        LayoutModel {
            rows_per_bucket: self.rows_per_bucket,
            bucket_size: self.bucket_size,
            column_offset: self.column_offset@,
        }
    }
}

/// Bytes of the region of a column with `bits` bits per cell.
pub open spec fn region(rows_per_bucket: u32, bits: u32) -> nat {
    ((rows_per_bucket * bits + 7) / 8) as nat
}

/// Bytes of the regions of the first `n` columns.
pub open spec fn regions(rows_per_bucket: u32, cell_bits: Seq<u32>, n: nat) -> nat
    decreases n,
{
    if n == 0 {
        0
    } else {
        regions(rows_per_bucket, cell_bits, (n - 1) as nat) + region(
            rows_per_bucket,
            cell_bits[n - 1],
        )
    }
}

/// The regions of fewer columns take no more bytes.
pub proof fn lemma_regions_grow(rows_per_bucket: u32, cell_bits: Seq<u32>, a: nat, b: nat)
    requires
        a <= b,
    ensures
        regions(rows_per_bucket, cell_bits, a) <= regions(rows_per_bucket, cell_bits, b),
    decreases b - a,
{
    if a < b {
        lemma_regions_grow(rows_per_bucket, cell_bits, a, (b - 1) as nat);
    }
}

/// The layout of columns with the given bits per cell.
pub open spec fn layout_of(rows_per_bucket: u32, cell_bits: Seq<u32>) -> LayoutModel {
    let n = regions(rows_per_bucket, cell_bits, cell_bits.len());
    LayoutModel {
        rows_per_bucket,
        bucket_size: if n == 0 {
            1
        } else {
            n as u32
        },
        column_offset: Seq::new(
            cell_bits.len(),
            |i: int| regions(rows_per_bucket, cell_bits, i as nat) as u32,
        ),
    }
}

/// Compute the bucket layout for the given per-column bit sizes.
pub fn layout(rows_per_bucket: u32, cell_bits: &[u32]) -> (r: StandardStManLayout)
    requires
        regions(rows_per_bucket, cell_bits@, cell_bits@.len()) <= u32::MAX,
    ensures
        r@ == layout_of(rows_per_bucket, cell_bits@),
{
    let mut offset: u32 = 0;
    let mut column_offset: Vec<u32> = Vec::new();
    let mut i: usize = 0;
    while i < cell_bits.len()
        invariant
            i <= cell_bits@.len(),
            regions(rows_per_bucket, cell_bits@, cell_bits@.len()) <= u32::MAX,
            offset == regions(rows_per_bucket, cell_bits@, i as nat),
            column_offset@.len() == i,
            forall|k: int|
                0 <= k < i ==> column_offset@[k] == regions(
                    rows_per_bucket,
                    cell_bits@,
                    k as nat,
                ) as u32,
        decreases cell_bits@.len() - i,
    {
        column_offset.push(offset);
        let bits: u32 = cell_bits[i];
        proof {
            ssm::lemma_u32_product(rows_per_bucket, bits);
            lemma_regions_grow(rows_per_bucket, cell_bits@, (i + 1) as nat, cell_bits@.len());
        }
        let n: u64 = (rows_per_bucket as u64 * bits as u64 + 7) / 8;
        offset = offset + n as u32;
        i = i + 1;
    }
    assert(column_offset@ =~= layout_of(rows_per_bucket, cell_bits@).column_offset);
    let bucket_size: u32 = if offset == 0 { 1 } else { offset };
    StandardStManLayout { rows_per_bucket, bucket_size, column_offset }
}

/// The number of pieces of `size` that hold `n`.
pub open spec fn pieces(n: int, size: int) -> int {
    n / size + if n % size == 0 {
        0int
    } else {
        1int
    }
}

/// `n` lies within its pieces and not within fewer.
pub proof fn lemma_pieces(n: int, size: int)
    requires
        0 <= n,
        0 < size,
    ensures
        0 <= pieces(n, size) <= n,
        n <= pieces(n, size) * size < n + size,
        pieces(n, size) == 0 <==> n == 0,
{
    let q = n / size;
    vstd::arithmetic::div_mod::lemma_fundamental_div_mod(n, size);
    vstd::arithmetic::div_mod::lemma_mod_bound(n, size);
    vstd::arithmetic::div_mod::lemma_div_pos_is_pos(n, size);
    assert(q <= n && (q + 1) * size == size * q + size && q * size == size * q && (q > 0 ==> size
        * q >= size) && (n % size > 0 ==> q < n) && (q == 0 ==> n == n % size)) by (nonlinear_arith)
        requires
            0 <= q,
            0 < size,
            n == size * q + n % size,
            0 <= n % size < size,
    ;
}

pub(crate) fn piece_count(n: u64, size: u64) -> (r: u64)
    requires
        size > 0,
    ensures
        r == pieces(n as int, size as int),
{
    proof {
        lemma_pieces(n as int, size as int);
    }
    if n % size == 0 {
        n / size
    } else {
        n / size + 1
    }
}

/// The last row of each bucket.
pub open spec fn last_rows(n_rows: u64, rows_per_bucket: u32) -> Seq<u32> {
    Seq::new(
        pieces(n_rows as int, rows_per_bucket as int) as nat,
        |b: int| bytes::low32(ssm::min((b + 1) * rows_per_bucket, n_rows as int) - 1),
    )
}

/// The numbers of the data buckets.
pub open spec fn bucket_numbers(n_rows: u64, rows_per_bucket: u32) -> Seq<u32> {
    Seq::new(
        pieces(n_rows as int, rows_per_bucket as int) as nat,
        |b: int| bytes::low32(b),
    )
}

/// The free-space map of an index: empty.
pub open spec fn free_map_bytes(big: bool) -> Seq<u8> {
    aipsio::object_bytes(
        big,
        false,
        "SimpleOrderedMap"@,
        1,
        aipsio::i32_bytes(big, 0) + aipsio::u32_bytes(big, 0) + aipsio::u32_bytes(big, 1),
    )
}

/// The content of an index with the given last rows and bucket numbers.
pub open spec fn index_body(
    big: bool,
    rows_per_bucket: u32,
    nr_columns: nat,
    last: Seq<u32>,
    numbers: Seq<u32>,
) -> Seq<u8> {
    (aipsio::u32_bytes(big, bytes::low32(last.len() as int)) + aipsio::u32_bytes(
        big,
        rows_per_bucket,
    ) + aipsio::i32_bytes(big, bytes::signed32(bytes::low32(nr_columns as int)))) + (
    free_map_bytes(big) + columnset::block_bytes(big, last) + columnset::block_bytes(big, numbers))
}

/// An index with the given last rows and bucket numbers.
pub open spec fn listed_index(
    big: bool,
    rows_per_bucket: u32,
    nr_columns: nat,
    last: Seq<u32>,
    numbers: Seq<u32>,
) -> Seq<u8> {
    aipsio::object_bytes(
        big,
        true,
        "SSMIndex"@,
        1,
        index_body(big, rows_per_bucket, nr_columns, last, numbers),
    )
}

/// The index of `n_rows` rows.
pub open spec fn index_stream(big: bool, n_rows: u64, rows_per_bucket: u32, nr_columns: nat) -> Seq<
    u8,
> {
    listed_index(
        big,
        rows_per_bucket,
        nr_columns,
        last_rows(n_rows, rows_per_bucket),
        bucket_numbers(n_rows, rows_per_bucket),
    )
}

fn last_row_list(n_rows: u64, rows_per_bucket: u32) -> (r: Vec<u32>)
    requires
        rows_per_bucket > 0,
        n_rows + rows_per_bucket <= u64::MAX,
    ensures
        r@ == last_rows(n_rows, rows_per_bucket),
{
    let count: u64 = piece_count(n_rows, rows_per_bucket as u64);
    let mut out: Vec<u32> = Vec::new();
    let mut b: u64 = 0;
    let mut end: u64 = 0;
    proof {
        lemma_pieces(n_rows as int, rows_per_bucket as int);
    }
    assert(end == b * rows_per_bucket);
    while b < count
        invariant
            b <= count,
            rows_per_bucket > 0,
            n_rows + rows_per_bucket <= u64::MAX,
            count == pieces(n_rows as int, rows_per_bucket as int),
            n_rows <= count * rows_per_bucket < n_rows + rows_per_bucket,
            end == b * rows_per_bucket,
            out@.len() == b,
            forall|k: int|
                0 <= k < b ==> out@[k] == last_rows(n_rows, rows_per_bucket)[k],
        decreases count - b,
    {
        proof {
            let p = rows_per_bucket as int;
            assert((b + 1) * p == b * p + p && (b + 1) * p <= count * p && b * p >= 0)
                by (nonlinear_arith)
                requires
                    0 <= b < count,
                    p > 0,
            ;
        }
        end = end + rows_per_bucket as u64;
        let last: u64 = (if end < n_rows { end } else { n_rows }) - 1;
        out.push((last % 0x1_0000_0000) as u32);
        b = b + 1;
    }
    assert(out@ =~= last_rows(n_rows, rows_per_bucket));
    out
}

fn bucket_number_list(n_rows: u64, rows_per_bucket: u32) -> (r: Vec<u32>)
    requires
        rows_per_bucket > 0,
    ensures
        r@ == bucket_numbers(n_rows, rows_per_bucket),
{
    let count: u64 = piece_count(n_rows, rows_per_bucket as u64);
    let mut out: Vec<u32> = Vec::new();
    let mut b: u64 = 0;
    while b < count
        invariant
            b <= count,
            out@.len() == b,
            forall|k: int| 0 <= k < b ==> out@[k] == bytes::low32(k),
        decreases count - b,
    {
        out.push((b % 0x1_0000_0000) as u32);
        b = b + 1;
    }
    assert(out@ =~= bucket_numbers(n_rows, rows_per_bucket));
    out
}

/// Serialize an `SSMIndex` stream: the last row and the number of each
/// bucket.
pub fn encode_ssm_index(
    big_endian: bool,
    rows_per_bucket: u32,
    nr_columns: usize,
    last: &[u32],
    numbers: &[u32],
) -> (r: Vec<u8>)
    ensures
        r@ == listed_index(big_endian, rows_per_bucket, nr_columns as nat, last@, numbers@),
{
    let mut w = writer(big_endian);
    let ghost outer = w@;
    w.put_root_object_start("SSMIndex", 1);
    let ghost inner = w@;
    w.put_u32(length32(last.len()));
    w.put_u32(rows_per_bucket);
    w.put_i32(to_signed32(length32(nr_columns)));
    let ghost mid = w@;
    w.put_object_start("SimpleOrderedMap", 1);
    let ghost map = w@;
    w.put_i32(0);
    w.put_u32(0);
    w.put_u32(1);
    w.put_object_end();
    proof {
        let a = aipsio::i32_bytes(big_endian, 0);
        let b = aipsio::u32_bytes(big_endian, 0);
        let c = aipsio::u32_bytes(big_endian, 1);
        aipsio::lemma_sheet_put3(map, a, b, c);
        aipsio::lemma_sheet_object(mid, false, "SimpleOrderedMap"@, 1, a + b + c);
    }
    write_block_u32(&mut w, last);
    write_block_u32(&mut w, numbers);
    w.put_object_end();
    proof {
        let a = aipsio::u32_bytes(big_endian, bytes::low32(last@.len() as int));
        let b = aipsio::u32_bytes(big_endian, rows_per_bucket);
        let c = aipsio::i32_bytes(
            big_endian,
            bytes::signed32(bytes::low32(nr_columns as int)),
        );
        let d = free_map_bytes(big_endian);
        let e = columnset::block_bytes(big_endian, last@);
        let f = columnset::block_bytes(big_endian, numbers@);
        aipsio::lemma_sheet_put3(inner, a, b, c);
        aipsio::lemma_sheet_put3(mid, d, e, f);
        aipsio::lemma_sheet_put(inner, a + b + c, d + e + f);
        aipsio::lemma_sheet_object(outer, true, "SSMIndex"@, 1, (a + b + c) + (d + e + f));
        let all = listed_index(
            big_endian,
            rows_per_bucket,
            nr_columns as nat,
            last@,
            numbers@,
        );
        assert(outer.put(all).body =~= all);
    }
    w.into_bytes()
}

/// Serialize the `SSMIndex` stream for the layout: one index over all rows,
/// with the data buckets in row order.
pub fn build_index_stream(
    big_endian: bool,
    n_rows: u64,
    layout: &StandardStManLayout,
    nr_columns: usize,
) -> (r: Vec<u8>)
    requires
        layout@.rows_per_bucket > 0,
        n_rows + layout@.rows_per_bucket <= u64::MAX,
    ensures
        r@ == index_stream(big_endian, n_rows, layout@.rows_per_bucket, nr_columns as nat),
{
    let rpb: u32 = layout.rows_per_bucket;
    let last = last_row_list(n_rows, rpb);
    let numbers = bucket_number_list(n_rows, rpb);
    encode_ssm_index(big_endian, rpb, nr_columns, last.as_slice(), numbers.as_slice())
}

/// Number of index buckets a stream of `index_len` bytes needs, given the
/// bucket size: each holds all but its first eight bytes.
pub fn index_bucket_count(index_len: usize, bucket_size: u32) -> (r: usize)
    requires
        bucket_size > 8,
    ensures
        r == pieces(index_len as int, bucket_size - 8),
{
    proof {
        lemma_pieces(index_len as int, bucket_size - 8);
    }
    piece_count(index_len as u64, (bucket_size - 8) as u64) as usize
}

} // verus!
