//! Building the data file of one StandardStMan manager from column values,
//! with its array index file and its spec.
use crate::aipsio;
use crate::bytes;
use crate::bytes::{length32, pack_bits, push_uint, to_pattern32, to_pattern64, to_signed32};
use crate::celllaw;
use crate::columnset::{StandardModel, StandardStMan};
use crate::json;
use crate::json::{FloatModel, FloatTexts};
use crate::record;
use crate::record::{DataType, RecordValue, ValueModel};
use crate::recordout;
use crate::ssm::ARRAY_REF_SIZE;
use crate::ssmcell;
use crate::ssmcell::scalar_cell_size;
use crate::ssmfile;
use crate::ssmfile::write_standard_stman_file;
use crate::ssmout;
use crate::ssmout::{
    build_index_stream, encode_array_record, encode_scalar_cell, index_bucket_count, layout,
    piece_count, CellsModel, LayoutModel, StandardStManLayout, WriteColumn,
};
use crate::strings::{Shelf, StringBuckets};
use crate::table::{CreateFault, TableCreateError};
use crate::tabledesc::{ColumnDesc, ColumnKind, ColumnModel, KindModel, TableDesc, TableDescModel};
use crate::text;
use crate::text::bytes_of;
use vstd::prelude::*;

verus! {

/// Rows in a bucket.
pub const ROWS_PER_BUCKET: u32 = 32;

/// Bytes per cell of a column in the bucket.
pub open spec fn column_size(cd: ColumnModel) -> u32 {
    match cd.kind {
        KindModel::Scalar(_) => ssmcell::cell_size(cd.data_type, cd.max_length),
        KindModel::Array => if cd.data_type == DataType::String {
            12
        } else {
            ARRAY_REF_SIZE
        },
        KindModel::Record => 12,
    }
}

/// Whether the cells of a column are single bits.
pub open spec fn is_bits(cd: ColumnModel) -> bool {
    cd.kind is Scalar && cd.data_type == DataType::Bool
}

/// Bits per cell of a column in the bucket.
pub open spec fn column_bits(cd: ColumnModel) -> int {
    if is_bits(cd) {
        1
    } else {
        8 * column_size(cd)
    }
}

/// The content of a cell of an array column of strings, which goes into the
/// string buckets as it is.
#[derive(Debug)]
pub struct CellContent {
    pub column: usize,
    pub row: u64,
    pub bytes: Vec<u8>,
}

/// What a [`CellContent`] says.
pub struct ContentModel {
    pub column: int,
    pub row: int,
    pub bytes: Seq<u8>,
}

impl View for CellContent {
    type V = ContentModel;

    open spec fn view(&self) -> ContentModel {
        ContentModel { column: self.column as int, row: self.row as int, bytes: self.bytes@ }
    }
}

pub open spec fn content_models(s: Seq<CellContent>) -> Seq<ContentModel> {
    s.map_values(|c: CellContent| c@)
}

/// The first content, from `i` on, of a cell.
pub open spec fn content_of(s: Seq<ContentModel>, column: int, row: int, i: int) -> Option<Seq<u8>>
    decreases s.len() - i,
{
    if i < 0 || i >= s.len() {
        None
    } else if s[i].column == column && s[i].row == row {
        Some(s[i].bytes)
    } else {
        content_of(s, column, row, i + 1)
    }
}

/// What is supplied along with the values of a table: the texts of the
/// numbers in record cells and the contents of string-array cells.
pub struct Supplied {
    pub texts: FloatModel,
    pub contents: Seq<ContentModel>,
}

pub open spec fn supplied(numbers: &FloatTexts, contents: Seq<CellContent>) -> Supplied {
    Supplied { texts: numbers@, contents: content_models(contents) }
}

fn find_content(contents: &[CellContent], column: usize, row: u64) -> (r: Option<usize>)
    ensures
        match r {
            Some(i) => i < contents@.len() && content_of(
                content_models(contents@),
                column as int,
                row as int,
                0,
            ) == Some(contents@[i as int].bytes@),
            None => content_of(content_models(contents@), column as int, row as int, 0) is None,
        },
{
    let ghost all = content_models(contents@);
    let mut i: usize = 0;
    while i < contents.len()
        invariant
            i <= contents@.len(),
            all == content_models(contents@),
            content_of(all, column as int, row as int, 0) == content_of(
                all,
                column as int,
                row as int,
                i as int,
            ),
        decreases contents@.len() - i,
    {
        assert(all[i as int] == contents@[i as int]@);
        if contents[i].column == column && contents[i].row == row {
            return Some(i);
        }
        i = i + 1;
    }
    None
}

/// What has been laid aside while the cells are built: the string buckets and
/// the array records.
#[verifier::ext_equal]
pub struct Aside {
    pub shelf: Shelf,
    pub arrays: Seq<u8>,
    pub strings: bool,
    pub arrayed: bool,
}

impl Aside {
    /// With one more string.
    pub open spec fn with_string(self, b: Seq<u8>) -> Aside {
        Aside { shelf: self.shelf.put(b), strings: true, ..self }
    }

    /// With one more array record.
    pub open spec fn with_array(self, b: Seq<u8>) -> Aside {
        Aside { arrays: self.arrays + b, arrayed: true, ..self }
    }

    /// The cell that refers to a string which is laid aside next.
    pub open spec fn string_ref(self, big: bool, b: Seq<u8>) -> Seq<u8> {
        celllaw::ref_cell(big, self.shelf.place(b), b.len() as int)
    }

    /// The cell that refers to an array record which is laid aside next.
    pub open spec fn array_ref(self, big: bool) -> Seq<u8> {
        aipsio::i64_bytes(big, (16 + self.arrays.len()) as i64)
    }
}

/// The name of a column with its table, and what is said of it.
pub open spec fn complaint(table: Seq<char>, column: Seq<char>, what: Seq<char>) -> Seq<char> {
    table + "."@ + column + what
}

/// The kind of a value.
pub open spec fn kind_text(v: ValueModel) -> Seq<char> {
    match v {
        ValueModel::Bool(_) => "Bool"@,
        ValueModel::UChar(_) => "UChar"@,
        ValueModel::Short(_) => "Short"@,
        ValueModel::UShort(_) => "UShort"@,
        ValueModel::Int(_) => "Int"@,
        ValueModel::UInt(_) => "UInt"@,
        ValueModel::Int64(_) => "Int64"@,
        ValueModel::Float(_) => "Float"@,
        ValueModel::Double(_) => "Double"@,
        ValueModel::Complex(_, _) => "Complex"@,
        ValueModel::DComplex(_, _) => "DComplex"@,
        ValueModel::String(_) => "String"@,
        ValueModel::Table(_) => "Table"@,
        ValueModel::Record(_) => "Record"@,
        ValueModel::Array(_) => "Array"@,
    }
}

/// A value with its kind, as it is shown in an error.
pub open spec fn value_text(v: ValueModel, t: FloatModel) -> Seq<char> {
    kind_text(v) + "("@ + json::value_json(v, None, t) + ")"@
}

fn kind_name(v: &RecordValue) -> (r: &'static str)
    ensures
        r@ == kind_text(v@),
{
    match v {
        RecordValue::Bool(_) => "Bool",
        RecordValue::UChar(_) => "UChar",
        RecordValue::Short(_) => "Short",
        RecordValue::UShort(_) => "UShort",
        RecordValue::Int(_) => "Int",
        RecordValue::UInt(_) => "UInt",
        RecordValue::Int64(_) => "Int64",
        RecordValue::Float(_) => "Float",
        RecordValue::Double(_) => "Double",
        RecordValue::Complex(_, _) => "Complex",
        RecordValue::DComplex(_, _) => "DComplex",
        RecordValue::String(_) => "String",
        RecordValue::Table(_) => "Table",
        RecordValue::Record(_) => "Record",
        RecordValue::Array(_) => "Array",
    }
}

fn not_a_record(table: &str, column: &str, v: &RecordValue, numbers: &FloatTexts) -> (s: String)
    ensures
        s@ == complaint(table@, column@, ": expected a record cell, got "@) + value_text(
            v@,
            numbers@,
        ),
{
    let mut s = complain(table, column, ": expected a record cell, got ");
    let ghost start = s@;
    s.append(kind_name(v));
    s.append("(");
    let value = v.to_json_string(numbers);
    s.append(value.as_str());
    s.append(")");
    assert(s@ =~= start + value_text(v@, numbers@));
    s
}

/// Whether a value is a string that does not fit its cell.
pub open spec fn is_long(cd: ColumnModel, v: ValueModel) -> bool {
    cd.data_type == DataType::String && cd.max_length <= 0 && (v matches ValueModel::String(s)
        && text::text_bytes(s).len() > 8)
}

/// The cell of a value, and what is laid aside after it. The content of a
/// string array is the one that is given.
pub open spec fn cell_step(
    big: bool,
    table: Seq<char>,
    cd: ColumnModel,
    v: ValueModel,
    given: Option<Seq<u8>>,
    st: Aside,
    t: Supplied,
) -> Result<(Seq<u8>, Aside), CreateFault> {
    match cd.kind {
        KindModel::Scalar(_) => if is_long(cd, v) {
            let b = text::text_bytes(v->String_0);
            Ok((st.string_ref(big, b), st.with_string(b)))
        } else {
            match ssmout::scalar_cell(big, cd.data_type, cd.max_length, v) {
                Ok(c) => Ok((c, st)),
                Err(_) => Err(CreateFault::LongString(cd.name)),
            }
        },
        KindModel::Array => match v {
            ValueModel::Array(a) => if cd.data_type == DataType::String {
                match given {
                    Some(b) => Ok((st.string_ref(big, b), st.with_string(b))),
                    None => Err(
                        CreateFault::Io(
                            complaint(
                                table,
                                cd.name,
                                ": no content is given for a string array"@,
                            ),
                        ),
                    ),
                }
            } else {
                Ok((st.array_ref(big), st.with_array(ssmout::array_bytes(big, a))))
            },
            _ => Err(
                CreateFault::NotScalar(
                    complaint(
                        table,
                        cd.name,
                        ": expected an array value for an array column"@,
                    ),
                ),
            ),
        },
        KindModel::Record => match v {
            ValueModel::Record(r) => {
                let b = text::text_bytes(json::record_json(r, None, t.texts));
                Ok((st.string_ref(big, b), st.with_string(b)))
            },
            _ => Err(
                CreateFault::NotScalar(
                    complaint(table, cd.name, ": expected a record cell, got "@) + value_text(
                        v,
                        t.texts,
                    ),
                ),
            ),
        },
    }
}

/// The cells of a column's values from row `i` on, after `acc`.
pub open spec fn column_cells(
    big: bool,
    table: Seq<char>,
    c: int,
    cd: ColumnModel,
    list: Seq<ValueModel>,
    i: int,
    acc: Seq<u8>,
    st: Aside,
    t: Supplied,
) -> Result<(Seq<u8>, Aside), CreateFault>
    decreases list.len() - i,
{
    if i >= list.len() {
        Ok((acc, st))
    } else {
        match cell_step(big, table, cd, list[i], content_of(t.contents, c, i, 0), st, t) {
            Err(f) => Err(f),
            Ok((b, st)) => column_cells(big, table, c, cd, list, i + 1, acc + b, st, t),
        }
    }
}

/// The bytes of a column as they are stored: cells of single bits are packed.
pub open spec fn stored_cells(cd: ColumnModel, b: Seq<u8>) -> Seq<u8> {
    if is_bits(cd) {
        bytes::packed(b.map_values(|x: u8| x != 0))
    } else {
        b
    }
}

/// The cells of the columns of a manager from its column `k` on, after
/// `acc`.
pub open spec fn all_cells(
    big: bool,
    desc: TableDescModel,
    values: Seq<Seq<ValueModel>>,
    dm_cols: Seq<usize>,
    k: int,
    acc: Seq<CellsModel>,
    st: Aside,
    t: Supplied,
) -> Result<(Seq<CellsModel>, Aside), CreateFault>
    decreases dm_cols.len() - k,
{
    if k >= dm_cols.len() {
        Ok((acc, st))
    } else {
        let c = dm_cols[k] as int;
        let cd = desc.columns[c];
        match column_cells(big, desc.name, c, cd, values[c], 0, Seq::empty(), st, t) {
            Err(f) => Err(f),
            Ok((b, st)) => all_cells(
                big,
                desc,
                values,
                dm_cols,
                k + 1,
                acc.push(
                    CellsModel {
                        cell_size: column_size(cd),
                        cell_bits: if is_bits(cd) {
                            1
                        } else {
                            0
                        },
                        bytes: stored_cells(cd, b),
                    },
                ),
                st,
                t,
            ),
        }
    }
}

/// The bits per cell of the columns of a manager.
pub open spec fn manager_bits(desc: TableDescModel, dm_cols: Seq<usize>) -> Seq<u32> {
    Seq::new(dm_cols.len(), |k: int| column_bits(desc.columns[dm_cols[k] as int]) as u32)
}

/// The size of the buckets of a manager whose cells would leave no room in
/// them for the index.
pub const SMALL_BUCKET: u32 = 128;

/// A layout with buckets that have room for the index.
pub open spec fn roomy(layout: LayoutModel) -> LayoutModel {
    if layout.bucket_size <= 8 {
        LayoutModel { bucket_size: SMALL_BUCKET, ..layout }
    } else {
        layout
    }
}

/// The bucket layout of a manager.
pub open spec fn manager_layout(desc: TableDescModel, dm_cols: Seq<usize>) -> LayoutModel {
    roomy(ssmout::layout_of(ROWS_PER_BUCKET, manager_bits(desc, dm_cols)))
}

/// The number of data and index buckets of a manager.
pub open spec fn plain_buckets(big: bool, nrow: u64, layout: LayoutModel, columns: nat) -> int {
    ssmfile::data_count(layout, nrow) + ssmfile::index_count(
        layout,
        ssmout::index_stream(big, nrow, layout.rows_per_bucket, columns).len() as int,
    )
}

/// Bytes of the region of a column in a layout.
pub open spec fn region_of(layout: LayoutModel, cd: ColumnModel) -> int {
    (layout.rows_per_bucket * column_bits(cd) + 7) / 8
}

/// The regions of two columns of a layout do not overlap.
pub open spec fn columns_apart(
    layout: LayoutModel,
    desc: TableDescModel,
    dm_cols: Seq<usize>,
    i: int,
    j: int,
) -> bool {
    let a = layout.column_offset[i] as int;
    let b = layout.column_offset[j] as int;
    a + region_of(layout, desc.columns[dm_cols[i] as int]) <= b || b + region_of(
        layout,
        desc.columns[dm_cols[j] as int],
    ) <= a
}

/// A column lies in the buckets of a layout, which have room for the strings
/// of its cells.
pub open spec fn column_inside(layout: LayoutModel, cd: ColumnModel, offset: u32) -> bool {
    &&& offset + region_of(layout, cd) <= layout.bucket_size
    &&& needs_room(cd) ==> 16 < layout.bucket_size
}

/// The columns of a manager can be stored in a layout.
pub open spec fn holds(
    layout: LayoutModel,
    desc: TableDescModel,
    dm_cols: Seq<usize>,
    nrow: u64,
) -> bool {
    &&& layout.rows_per_bucket > 0
    &&& layout.bucket_size > 8
    &&& layout.column_offset.len() == dm_cols.len()
    &&& nrow <= 0xffff_ffff_ffff
    &&& forall|k: int|
        0 <= k < dm_cols.len() ==> column_inside(
            layout,
            desc.columns[#[trigger] dm_cols[k] as int],
            layout.column_offset[k],
        )
    &&& forall|i: int, j: int|
        0 <= i < j < dm_cols.len() ==> #[trigger] columns_apart(layout, desc, dm_cols, i, j)
}

/// The sizes of the buckets and their numbers fit: the manager can be stored.
pub open spec fn storable_layout(desc: TableDescModel, dm_cols: Seq<usize>, nrow: u64) -> bool {
    &&& forall|k: int|
        0 <= k < dm_cols.len() ==> column_bits(desc.columns[#[trigger] dm_cols[k] as int])
            <= u32::MAX
    &&& ssmout::regions(ROWS_PER_BUCKET, manager_bits(desc, dm_cols), dm_cols.len()) <= u32::MAX
    &&& nrow <= 0xffff_ffff_ffff
}

/// Whether a manager has an array column with records in the array index
/// file.
pub open spec fn has_arrays(desc: TableDescModel, dm_cols: Seq<usize>) -> bool {
    exists|k: int|
        0 <= k < dm_cols.len() && {
            let cd = desc.columns[#[trigger] dm_cols[k] as int];
            cd.kind is Array && cd.data_type != DataType::String
        }
}

/// Nothing laid aside yet.
pub open spec fn nothing_aside(
    big: bool,
    nrow: u64,
    desc: TableDescModel,
    dm_cols: Seq<usize>,
    layout: LayoutModel,
) -> Aside {
    Aside {
        shelf: Shelf {
            size: layout.bucket_size as int,
            first: bytes::signed32(
                bytes::low32(plain_buckets(big, nrow, layout, dm_cols.len())),
            ),
            buckets: Seq::empty(),
        },
        arrays: Seq::empty(),
        strings: false,
        arrayed: has_arrays(desc, dm_cols),
    }
}

/// The array index file: its version, its length and four bytes that are not
/// used, in the data-file byte order, and the records.
pub open spec fn array_file(big: bool, arrays: Seq<u8>) -> Seq<u8> {
    aipsio::u32_bytes(big, 0) + aipsio::u64_bytes(
        big,
        ((16 + arrays.len()) % 0x1_0000_0000_0000_0000) as u64,
    ) + bytes::resized(Seq::empty(), 4) + arrays
}

/// The header of an array index file holds its version and its length.
pub proof fn law_array_file_header(big: bool, arrays: Seq<u8>)
    requires
        16 + arrays.len() <= u64::MAX,
    ensures
        ({
            let f = array_file(big, arrays);
            &&& f.len() == 16 + arrays.len()
            &&& bytes::uint_value(big, f.subrange(0, 4)) == 0
            &&& bytes::uint_value(big, f.subrange(4, 12)) == f.len()
            &&& f.subrange(16, f.len() as int) == arrays
        }),
{
    let f = array_file(big, arrays);
    let n = (16 + arrays.len()) as nat;
    bytes::lemma_spans();
    bytes::lemma_uint_bytes_len(big, 0, 4);
    bytes::lemma_uint_bytes_len(big, n, 8);
    bytes::law_uint_round_trip(big, 0, 4);
    bytes::law_uint_round_trip(big, n, 8);
    assert(f.subrange(0, 4) =~= aipsio::u32_bytes(big, 0));
    assert(f.subrange(4, 12) =~= aipsio::u64_bytes(big, n as u64));
    assert(f.subrange(16, f.len() as int) =~= arrays);
}

/// What a manager's columns are stored as.
pub struct SsmOutput {
    pub file: Seq<u8>,
    pub f0i: Option<Seq<u8>>,
    pub manager: StandardModel,
}

/// The string buckets of a file.
pub open spec fn string_buckets(st: Aside) -> Seq<Seq<u8>> {
    if st.strings {
        st.shelf.images()
    } else {
        Seq::empty()
    }
}

/// A manager's data file, array index file and spec.
pub open spec fn ssm_output(
    big: bool,
    nrow: u64,
    name: Seq<char>,
    layout: LayoutModel,
    cols: Seq<CellsModel>,
    st: Aside,
) -> SsmOutput {
    SsmOutput {
        file: ssmfile::file_bytes(big, nrow, cols, layout, string_buckets(st)),
        f0i: if st.arrayed {
            Some(array_file(big, st.arrays))
        } else {
            None
        },
        manager: StandardModel {
            data_manager_name: name,
            column_offset: layout.column_offset,
            col_index_map: Seq::new(cols.len(), |k: int| 0u32),
        },
    }
}

/// What the columns of a manager are stored as in a layout, or why they
/// cannot be.
pub open spec fn ssm_data_in(
    big: bool,
    nrow: u64,
    name: Seq<char>,
    desc: TableDescModel,
    values: Seq<Seq<ValueModel>>,
    dm_cols: Seq<usize>,
    layout: LayoutModel,
    t: Supplied,
) -> Result<SsmOutput, CreateFault> {
    match all_cells(
        big,
        desc,
        values,
        dm_cols,
        0,
        Seq::empty(),
        nothing_aside(big, nrow, desc, dm_cols, layout),
        t,
    ) {
        Err(f) => Err(f),
        Ok((cols, st)) => if plain_buckets(big, nrow, layout, dm_cols.len()) + string_buckets(
            st,
        ).len() > u32::MAX {
            Err(CreateFault::Io("too many buckets for the columns of "@ + name))
        } else {
            Ok(ssm_output(big, nrow, name, layout, cols, st))
        },
    }
}

/// What the columns of a manager are stored as, or why they cannot be.
pub open spec fn ssm_data(
    big: bool,
    nrow: u64,
    name: Seq<char>,
    desc: TableDescModel,
    values: Seq<Seq<ValueModel>>,
    dm_cols: Seq<usize>,
    t: Supplied,
) -> Result<SsmOutput, CreateFault> {
    if !storable_layout(desc, dm_cols, nrow) {
        Err(CreateFault::Io("no bucket layout for the columns of "@ + name))
    } else {
        ssm_data_in(
            big,
            nrow,
            name,
            desc,
            values,
            dm_cols,
            manager_layout(desc, dm_cols),
            t,
        )
    }
}

/// The values of the columns.
pub open spec fn value_lists(values: Seq<Vec<RecordValue>>) -> Seq<Seq<ValueModel>> {
    values.map_values(|v: Vec<RecordValue>| record::value_models(v@))
}

/// A value that its column's encoder takes as it is: floats have the
/// column's width, and an array in a column of numbers holds no strings.
pub open spec fn value_ready(cd: ColumnModel, v: ValueModel) -> bool {
    &&& cd.kind is Scalar ==> !recordout::needs_float_cast(cd.data_type, v)
    &&& cd.kind is Array && cd.data_type != DataType::String ==> !(v matches ValueModel::Array(a)
        && a.data is String)
}

/// Every column of the manager exists and has a ready value for every row.
pub open spec fn values_ready(
    desc: TableDescModel,
    values: Seq<Seq<ValueModel>>,
    dm_cols: Seq<usize>,
    nrow: u64,
) -> bool {
    forall|k: int|
        0 <= k < dm_cols.len() ==> {
            let c = #[trigger] dm_cols[k] as int;
            &&& 0 <= c < desc.columns.len()
            &&& c < values.len()
            &&& values[c].len() == nrow
            &&& forall|r: int|
                0 <= r < values[c].len() ==> value_ready(
                    desc.columns[c],
                    #[trigger] values[c][r],
                )
        }
}

struct AsideBuf {
    shelf: StringBuckets,
    arrays: Vec<u8>,
    strings: bool,
    arrayed: bool,
}

impl View for AsideBuf {
    type V = Aside;

    closed spec fn view(&self) -> Aside {
        Aside {
            shelf: self.shelf@,
            arrays: self.arrays@,
            strings: self.strings,
            arrayed: self.arrayed,
        }
    }
}

/// Whether cells of a column may lay strings aside.
pub open spec fn needs_room(cd: ColumnModel) -> bool {
    (cd.kind is Scalar && cd.data_type == DataType::String && cd.max_length <= 0) || (
    cd.kind is Array && cd.data_type == DataType::String) || cd.kind is Record
}

/// Buckets that can hold strings hold no more than fits.
pub open spec fn in_order(st: Aside) -> bool {
    16 < st.shelf.size ==> st.shelf.sound()
}

pub(crate) fn complain(table: &str, column: &str, what: &str) -> (r: String)
    ensures
        r@ == complaint(table@, column@, what@),
{
    let mut s: String = table.to_owned();
    s.append(".");
    s.append(column);
    s.append(what);
    s
}

/// The cell that refers to a string.
fn ref_cell(big: bool, place: (i32, u32), len: usize) -> (r: Vec<u8>)
    ensures
        r@ == celllaw::ref_cell(big, place, len as int),
        r@.len() == 12,
{
    let mut out: Vec<u8> = Vec::new();
    let n: i32 = to_signed32(length32(len));
    push_uint(&mut out, big, to_pattern32(place.0) as u64, 4);
    push_uint(&mut out, big, place.1 as u64, 4);
    push_uint(&mut out, big, to_pattern32(n) as u64, 4);
    proof {
        bytes::lemma_uint_bytes_len(big, bytes::pattern32(place.0) as nat, 4);
        bytes::lemma_uint_bytes_len(big, place.1 as nat, 4);
        bytes::lemma_uint_bytes_len(big, bytes::pattern32(n) as nat, 4);
        assert(out@ =~= celllaw::ref_cell(big, place, len as int));
    }
    out
}

impl AsideBuf {
    fn put_string(&mut self, big: bool, b: &[u8]) -> (r: Vec<u8>)
        requires
            old(self)@.shelf.sound(),
        ensures
            r@ == old(self)@.string_ref(big, b@),
            final(self)@ == old(self)@.with_string(b@),
            in_order(final(self)@),
            final(self)@.shelf.size == old(self)@.shelf.size,
            r@.len() == 12,
    {
        proof {
            crate::strings::lemma_grown_put(self@.shelf, b@);
        }
        let place = self.shelf.put(b);
        self.strings = true;
        ref_cell(big, place, b.len())
    }

    fn put_array(&mut self, big: bool, record: &[u8]) -> (r: Vec<u8>)
        ensures
            r@ == old(self)@.array_ref(big),
            final(self)@ == old(self)@.with_array(record@),
            r@.len() == 8,
    {
        let ghost before = self.arrays@;
        let mut out: Vec<u8> = Vec::new();
        let v: i64 = (self.arrays.len() as u128 + 16) as i64;
        push_uint(&mut out, big, to_pattern64(v), 8);
        self.arrays.extend_from_slice(record);
        self.arrayed = true;
        proof {
            assert(self.arrays@ =~= before + record@);
            bytes::lemma_uint_bytes_len(big, bytes::pattern64(v) as nat, 8);
            assert(out@ =~= old(self)@.array_ref(big));
        }
        out
    }
}

fn encode_cell(
    st: &mut AsideBuf,
    big: bool,
    table: &str,
    column: usize,
    row: u64,
    cd: &ColumnDesc,
    v: &RecordValue,
    numbers: &FloatTexts,
    contents: &[CellContent],
) -> (res: Result<Vec<u8>, TableCreateError>)
    requires
        value_ready(cd@, v@),
        in_order(old(st)@),
        needs_room(cd@) ==> 16 < old(st)@.shelf.size,
    ensures
        match cell_step(
            big,
            table@,
            cd@,
            v@,
            content_of(content_models(contents@), column as int, row as int, 0),
            old(st)@,
            supplied(numbers, contents@),
        ) {
            Ok((c, s)) => res is Ok && res->Ok_0@ == c && final(st)@ == s && in_order(s)
                && s.shelf.size == old(st)@.shelf.size && c.len() == column_size(cd@),
            Err(f) => res is Err && res->Err_0@ == f,
        },
{
    match &cd.kind {
        ColumnKind::Scalar(_) => {
            if let DataType::String = cd.data_type {
                if cd.max_length <= 0 {
                    if let RecordValue::String(s) = v {
                        let b = bytes_of(s.as_str());
                        if b.len() > 8 {
                            return Ok(st.put_string(big, b.as_slice()));
                        }
                    }
                }
            }
            match encode_scalar_cell(big, cd, v) {
                Ok(c) => Ok(c),
                Err(_) => Err(TableCreateError::LongString(cd.name.clone())),
            }
        },
        ColumnKind::Array => match v {
            RecordValue::Array(a) => {
                if let DataType::String = cd.data_type {
                    return match find_content(contents, column, row) {
                        Some(i) => Ok(st.put_string(big, contents[i].bytes.as_slice())),
                        None => Err(
                            TableCreateError::Io(
                                complain(
                                    table,
                                    cd.name.as_str(),
                                    ": no content is given for a string array",
                                ),
                            ),
                        ),
                    };
                }
                match encode_array_record(big, cd.data_type, a) {
                    Ok(b) => Ok(st.put_array(big, b.as_slice())),
                    Err(_) => {
                        assert(false);
                        Err(TableCreateError::LongString(cd.name.clone()))
                    },
                }
            },
            _ => Err(
                TableCreateError::NotScalar(
                    complain(
                        table,
                        cd.name.as_str(),
                        ": expected an array value for an array column",
                    ),
                ),
            ),
        },
        ColumnKind::Record => match v {
            RecordValue::Record(r) => {
                let text = r.to_json_string(numbers);
                let b = bytes_of(text.as_str());
                Ok(st.put_string(big, b.as_slice()))
            },
            _ => Err(
                TableCreateError::NotScalar(not_a_record(table, cd.name.as_str(), v, numbers)),
            ),
        },
    }
}

fn encode_column(
    st: &mut AsideBuf,
    big: bool,
    table: &str,
    column: usize,
    cd: &ColumnDesc,
    list: &Vec<RecordValue>,
    numbers: &FloatTexts,
    contents: &[CellContent],
) -> (res: Result<Vec<u8>, TableCreateError>)
    requires
        forall|r: int|
            0 <= r < list@.len() ==> value_ready(
                cd@,
                #[trigger] record::value_models(list@)[r],
            ),
        in_order(old(st)@),
        needs_room(cd@) ==> 16 < old(st)@.shelf.size,
    ensures
        match column_cells(
            big,
            table@,
            column as int,
            cd@,
            record::value_models(list@),
            0,
            Seq::empty(),
            old(st)@,
            supplied(numbers, contents@),
        ) {
            Ok((c, s)) => res is Ok && res->Ok_0@ == c && final(st)@ == s && in_order(s)
                && s.shelf.size == old(st)@.shelf.size && c.len() == list@.len() * column_size(
                cd@,
            ),
            Err(f) => res is Err && res->Err_0@ == f,
        },
{
    let ghost models = record::value_models(list@);
    let mut out: Vec<u8> = Vec::new();
    let ghost t = supplied(numbers, contents@);
    let ghost all = column_cells(
        big,
        table@,
        column as int,
        cd@,
        models,
        0,
        Seq::empty(),
        st@,
        t,
    );
    let mut i: usize = 0;
    assert(out@ =~= Seq::<u8>::empty());
    proof {
        assert(0 * column_size(cd@) == 0);
    }
    while i < list.len()
        invariant
            i <= list@.len(),
            models == record::value_models(list@),
            models.len() == list@.len(),
            forall|r: int| 0 <= r < list@.len() ==> value_ready(cd@, #[trigger] models[r]),
            in_order(st@),
            needs_room(cd@) ==> 16 < st@.shelf.size,
            st@.shelf.size == old(st)@.shelf.size,
            t == supplied(numbers, contents@),
            all == column_cells(
                big,
                table@,
                column as int,
                cd@,
                models,
                0,
                Seq::empty(),
                old(st)@,
                t,
            ),
            all == column_cells(
                big,
                table@,
                column as int,
                cd@,
                models,
                i as int,
                out@,
                st@,
                t,
            ),
            out@.len() == i * column_size(cd@),
        decreases list@.len() - i,
    {
        assert(models[i as int] == list@[i as int]@);
        let ghost before = out@;
        let cell = encode_cell(
            st,
            big,
            table,
            column,
            i as u64,
            cd,
            &list[i],
            numbers,
            contents,
        )?;
        out.extend_from_slice(cell.as_slice());
        proof {
            assert(out@ =~= before + cell@);
            let n = column_size(cd@) as int;
            assert((i + 1) * n == i * n + n) by (nonlinear_arith);
        }
        i = i + 1;
    }
    Ok(out)
}

fn flags(b: &Vec<u8>) -> (r: Vec<bool>)
    ensures
        r@ == b@.map_values(|x: u8| x != 0),
{
    let mut out: Vec<bool> = Vec::new();
    let mut i: usize = 0;
    while i < b.len()
        invariant
            i <= b@.len(),
            out@.len() == i,
            forall|k: int| 0 <= k < i ==> out@[k] == (b@[k] != 0),
        decreases b@.len() - i,
    {
        out.push(b[i] != 0);
        i = i + 1;
    }
    assert(out@ =~= b@.map_values(|x: u8| x != 0));
    out
}

/// The cells of one column.
struct ColumnCells {
    size: u32,
    bits: u32,
    bytes: Vec<u8>,
}

impl ColumnCells {
    spec fn model(self) -> CellsModel {
        CellsModel { cell_size: self.size, cell_bits: self.bits, bytes: self.bytes@ }
    }
}

spec fn column_cells_models(s: Seq<ColumnCells>) -> Seq<CellsModel> {
    s.map_values(|c: ColumnCells| c.model())
}

fn size_of_column(cd: &ColumnDesc) -> (r: u32)
    ensures
        r == column_size(cd@),
{
    match cd.kind {
        ColumnKind::Scalar(_) => scalar_cell_size(cd),
        ColumnKind::Array => match cd.data_type {
            DataType::String => 12,
            _ => ARRAY_REF_SIZE,
        },
        ColumnKind::Record => 12,
    }
}

fn bits_column(cd: &ColumnDesc) -> (r: bool)
    ensures
        r == is_bits(cd@),
{
    match cd.kind {
        ColumnKind::Scalar(_) => match cd.data_type {
            DataType::Bool => true,
            _ => false,
        },
        _ => false,
    }
}

/// The cells of a column cover all rows.
pub open spec fn cells_cover(m: CellsModel, cd: ColumnModel, nrow: u64) -> bool {
    &&& m.cell_size == column_size(cd)
    &&& m.cell_bits == if is_bits(cd) {
        1u32
    } else {
        0u32
    }
    &&& if is_bits(cd) {
        nrow <= 8 * m.bytes.len()
    } else {
        m.bytes.len() == nrow * m.cell_size
    }
}

fn encode_columns(
    st: &mut AsideBuf,
    big: bool,
    desc: &TableDesc,
    values: &[Vec<RecordValue>],
    dm_cols: &[usize],
    nrow: u64,
    numbers: &FloatTexts,
    contents: &[CellContent],
) -> (res: Result<Vec<ColumnCells>, TableCreateError>)
    requires
        values_ready(desc@, value_lists(values@), dm_cols@, nrow),
        in_order(old(st)@),
        forall|k: int|
            0 <= k < dm_cols@.len() ==> (needs_room(
                desc@.columns[#[trigger] dm_cols@[k] as int],
            ) ==> 16 < old(st)@.shelf.size),
    ensures
        match all_cells(
            big,
            desc@,
            value_lists(values@),
            dm_cols@,
            0,
            Seq::empty(),
            old(st)@,
            supplied(numbers, contents@),
        ) {
            Ok((cols, s)) => res is Ok && column_cells_models(res->Ok_0@) == cols && final(st)@
                == s && in_order(s) && s.shelf.size == old(st)@.shelf.size && cols.len()
                == dm_cols@.len() && forall|k: int|
                0 <= k < cols.len() ==> cells_cover(
                    #[trigger] cols[k],
                    desc@.columns[dm_cols@[k] as int],
                    nrow,
                ),
            Err(f) => res is Err && res->Err_0@ == f,
        },
{
    let ghost lists = value_lists(values@);
    let ghost d = desc@;
    let mut out: Vec<ColumnCells> = Vec::new();
    let ghost t = supplied(numbers, contents@);
    let ghost all = all_cells(big, d, lists, dm_cols@, 0, Seq::empty(), st@, t);
    assert(column_cells_models(out@) =~= Seq::<CellsModel>::empty());
    let mut k: usize = 0;
    while k < dm_cols.len()
        invariant
            k <= dm_cols@.len(),
            lists == value_lists(values@),
            d == desc@,
            t == supplied(numbers, contents@),
            values_ready(d, lists, dm_cols@, nrow),
            in_order(st@),
            st@.shelf.size == old(st)@.shelf.size,
            forall|k: int|
                0 <= k < dm_cols@.len() ==> (needs_room(
                    d.columns[#[trigger] dm_cols@[k] as int],
                ) ==> 16 < st@.shelf.size),
            all == all_cells(
                big,
                d,
                lists,
                dm_cols@,
                0,
                Seq::empty(),
                old(st)@,
                t,
            ),
            all == all_cells(
                big,
                d,
                lists,
                dm_cols@,
                k as int,
                column_cells_models(out@),
                st@,
                t,
            ),
            out@.len() == k,
            forall|j: int|
                0 <= j < k ==> cells_cover(
                    (#[trigger] out@[j]).model(),
                    d.columns[dm_cols@[j] as int],
                    nrow,
                ),
        decreases dm_cols@.len() - k,
    {
        let c: usize = dm_cols[k];
        assert(dm_cols@[k as int] == c);
        let cd = &desc.columns[c];
        assert(d.columns[c as int] == cd@);
        assert(lists[c as int] == record::value_models(values@[c as int]@));
        let raw = encode_column(
            st,
            big,
            desc.name.as_str(),
            c,
            cd,
            &values[c],
            numbers,
            contents,
        )?;
        let size: u32 = size_of_column(cd);
        let one: bool = bits_column(cd);
        let ghost before = out@;
        let ghost raw_bytes = raw@;
        if one {
            let f = flags(&raw);
            let packed = pack_bits(f.as_slice());
            out.push(ColumnCells { size, bits: 1, bytes: packed });
        } else {
            out.push(ColumnCells { size, bits: 0, bytes: raw });
        }
        proof {
            let m = out@.last().model();
            assert(m.bytes =~= stored_cells(cd@, raw_bytes));
            assert(column_cells_models(out@) =~= column_cells_models(before).push(m));
            assert(raw_bytes.len() == nrow * size);
            if one {
                assert(nrow * 1 == nrow);
            }
        }
        k = k + 1;
    }
    proof {
        let ms = column_cells_models(out@);
        assert forall|j: int| 0 <= j < ms.len() implies cells_cover(
            #[trigger] ms[j],
            d.columns[dm_cols@[j] as int],
            nrow,
        ) by {
            assert(ms[j] == out@[j].model());
        }
    }
    Ok(out)
}

/// A built StandardStMan data manager: the data file, the array index file
/// where there is one, and the spec for the `table.dat` blob.
#[derive(Debug)]
pub struct SsmData {
    pub file: Vec<u8>,
    pub f0i: Option<Vec<u8>>,
    pub manager: StandardStMan,
}

impl View for SsmData {
    type V = SsmOutput;

    open spec fn view(&self) -> SsmOutput {
        SsmOutput {
            file: self.file@,
            f0i: match self.f0i {
                Some(b) => Some(b@),
                None => None,
            },
            manager: self.manager@,
        }
    }
}

/// The bits per cell of the columns, and whether a layout can be made of
/// them.
fn collect_bits(desc: &TableDesc, dm_cols: &[usize]) -> (r: Option<Vec<u32>>)
    requires
        forall|k: int| 0 <= k < dm_cols@.len() ==> #[trigger] dm_cols@[k] < desc@.columns.len(),
    ensures
        match r {
            Some(bits) => {
                &&& bits@ == manager_bits(desc@, dm_cols@)
                &&& forall|k: int|
                    0 <= k < dm_cols@.len() ==> column_bits(
                        desc@.columns[#[trigger] dm_cols@[k] as int],
                    ) <= u32::MAX
                &&& ssmout::regions(ROWS_PER_BUCKET, bits@, bits@.len()) <= u32::MAX
            },
            None => !(forall|k: int|
                0 <= k < dm_cols@.len() ==> column_bits(
                    desc@.columns[#[trigger] dm_cols@[k] as int],
                ) <= u32::MAX) || ssmout::regions(
                ROWS_PER_BUCKET,
                manager_bits(desc@, dm_cols@),
                dm_cols@.len(),
            ) > u32::MAX,
        },
{
    let ghost d = desc@;
    let ghost all = manager_bits(d, dm_cols@);
    let mut bits: Vec<u32> = Vec::new();
    let mut sum: u64 = 0;
    let mut k: usize = 0;
    while k < dm_cols.len()
        invariant
            k <= dm_cols@.len(),
            d == desc@,
            all == manager_bits(d, dm_cols@),
            forall|k: int| 0 <= k < dm_cols@.len() ==> #[trigger] dm_cols@[k] < d.columns.len(),
            forall|j: int|
                0 <= j < k ==> column_bits(d.columns[#[trigger] dm_cols@[j] as int]) <= u32::MAX,
            bits@.len() == k,
            forall|j: int| 0 <= j < k ==> bits@[j] == all[j],
            sum == ssmout::regions(ROWS_PER_BUCKET, all, k as nat),
            sum <= u32::MAX,
        decreases dm_cols@.len() - k,
    {
        let cd = &desc.columns[dm_cols[k]];
        assert(d.columns[dm_cols@[k as int] as int] == cd@);
        let n: u64 = if bits_column(cd) {
            1
        } else {
            8 * size_of_column(cd) as u64
        };
        if n > 0xffff_ffff {
            assert(column_bits(d.columns[dm_cols@[k as int] as int]) > u32::MAX);
            return None;
        }
        bits.push(n as u32);
        sum = sum + (ROWS_PER_BUCKET as u64 * n + 7) / 8;
        k = k + 1;
        proof {
            assert(all[k - 1] == n);
            ssmout::lemma_regions_grow(ROWS_PER_BUCKET, all, k as nat, dm_cols@.len());
        }
        if sum > 0xffff_ffff {
            return None;
        }
    }
    assert(bits@ =~= all);
    Some(bits)
}

fn lay_out(desc: &TableDesc, dm_cols: &[usize], nrow: u64) -> (r: Option<StandardStManLayout>)
    requires
        forall|k: int| 0 <= k < dm_cols@.len() ==> #[trigger] dm_cols@[k] < desc@.columns.len(),
    ensures
        match r {
            Some(l) => storable_layout(desc@, dm_cols@, nrow) && l@ == manager_layout(
                desc@,
                dm_cols@,
            ) && l@.bucket_size > 8 && l@.rows_per_bucket == ROWS_PER_BUCKET,
            None => !storable_layout(desc@, dm_cols@, nrow),
        },
{
    if nrow > 0xffff_ffff_ffff {
        return None;
    }
    match collect_bits(desc, dm_cols) {
        None => None,
        Some(bits) => {
            let mut l = layout(ROWS_PER_BUCKET, bits.as_slice());
            if l.bucket_size <= 8 {
                l.bucket_size = SMALL_BUCKET;
            }
            Some(l)
        },
    }
}

fn any_arrays(desc: &TableDesc, dm_cols: &[usize]) -> (r: bool)
    requires
        forall|k: int| 0 <= k < dm_cols@.len() ==> #[trigger] dm_cols@[k] < desc@.columns.len(),
    ensures
        r == has_arrays(desc@, dm_cols@),
{
    let ghost d = desc@;
    let mut k: usize = 0;
    while k < dm_cols.len()
        invariant
            k <= dm_cols@.len(),
            d == desc@,
            forall|k: int| 0 <= k < dm_cols@.len() ==> #[trigger] dm_cols@[k] < d.columns.len(),
            forall|j: int|
                0 <= j < k ==> {
                    let cd = d.columns[#[trigger] dm_cols@[j] as int];
                    !(cd.kind is Array && cd.data_type != DataType::String)
                },
        decreases dm_cols@.len() - k,
    {
        let cd = &desc.columns[dm_cols[k]];
        assert(d.columns[dm_cols@[k as int] as int] == cd@);
        if let ColumnKind::Array = cd.kind {
            match cd.data_type {
                DataType::String => {},
                _ => {
                    return true;
                },
            }
        }
        k = k + 1;
    }
    false
}

fn array_file_of(big: bool, arrays: &Vec<u8>) -> (r: Vec<u8>)
    ensures
        r@ == array_file(big, arrays@),
{
    let mut out: Vec<u8> = Vec::new();
    push_uint(&mut out, big, 0, 4);
    push_uint(&mut out, big, (arrays.len() as u64).wrapping_add(16), 8);
    push_uint(&mut out, big, 0, 4);
    out.extend_from_slice(arrays.as_slice());
    proof {
        bytes::lemma_uint_bytes_len(big, 0, 4);
        lemma_zero_word(big);
        assert(out@ =~= array_file(big, arrays@));
    }
    out
}

pub proof fn lemma_zero_word(big: bool)
    ensures
        bytes::uint_bytes(big, 0, 4) == bytes::resized(Seq::empty(), 4),
{
    reveal_with_fuel(bytes::le_digits, 5);
    assert(bytes::uint_bytes(big, 0, 4) =~= bytes::resized(Seq::empty(), 4));
}

fn zeros(n: usize) -> (r: Vec<u32>)
    ensures
        r@ == Seq::new(n as nat, |k: int| 0u32),
{
    let mut out: Vec<u32> = Vec::new();
    while out.len() < n
        invariant
            out@.len() <= n,
            forall|k: int| 0 <= k < out@.len() ==> out@[k] == 0,
        decreases n - out@.len(),
    {
        out.push(0);
    }
    assert(out@ =~= Seq::new(n as nat, |k: int| 0u32));
    out
}

/// A column whose cells may be laid aside makes the buckets large enough for
/// strings.
pub proof fn lemma_room(desc: TableDescModel, dm_cols: Seq<usize>, k: int)
    requires
        forall|k: int|
            0 <= k < dm_cols.len() ==> column_bits(desc.columns[#[trigger] dm_cols[k] as int])
                <= u32::MAX,
        ssmout::regions(ROWS_PER_BUCKET, manager_bits(desc, dm_cols), dm_cols.len()) <= u32::MAX,
        0 <= k < dm_cols.len(),
        needs_room(desc.columns[dm_cols[k] as int]),
    ensures
        manager_layout(desc, dm_cols).bucket_size > 16,
{
    let bits = manager_bits(desc, dm_cols);
    assert(bits[k] == 96);
    ssmout::lemma_regions_grow(ROWS_PER_BUCKET, bits, (k + 1) as nat, dm_cols.len());
}

/// The cells of no more rows than a bucket has take no more than their region.
proof fn lemma_region(layout: LayoutModel, cd: ColumnModel, rows: int)
    requires
        0 <= rows <= layout.rows_per_bucket,
    ensures
        is_bits(cd) ==> (rows + 7) / 8 <= region_of(layout, cd),
        !is_bits(cd) ==> rows * column_size(cd) <= region_of(layout, cd),
{
    let p = layout.rows_per_bucket as int;
    let n = column_size(cd) as int;
    if is_bits(cd) {
        assert(p * 1 == p);
    } else {
        assert(rows * n <= p * n && p * (8 * n) == 8 * (p * n)) by (nonlinear_arith)
            requires
                0 <= rows <= p,
                0 <= n,
        ;
    }
}

/// The cells fit the layout.
pub proof fn lemma_fits(
    layout: LayoutModel,
    desc: TableDescModel,
    dm_cols: Seq<usize>,
    nrow: u64,
    cols: Seq<CellsModel>,
)
    requires
        holds(layout, desc, dm_cols, nrow),
        cols.len() == dm_cols.len(),
        forall|k: int|
            0 <= k < cols.len() ==> cells_cover(
                #[trigger] cols[k],
                desc.columns[dm_cols[k] as int],
                nrow,
            ),
    ensures
        ssmfile::layout_fits(layout, cols, nrow),
        crate::ssmlaw::apart(layout, cols, nrow),
{
    let rows = crate::ssm::min(layout.rows_per_bucket as int, nrow as int);
    assert forall|c: int| 0 <= c < cols.len() implies ssmfile::column_fits(
        #[trigger] cols[c],
        layout.column_offset[c],
        nrow,
        layout,
    ) by {
        let cd = desc.columns[dm_cols[c] as int];
        assert(cells_cover(cols[c], cd, nrow));
        assert(column_inside(layout, cd, layout.column_offset[c]));
        lemma_region(layout, cd, rows);
    }
    assert forall|c: int, d: int| 0 <= c < d < cols.len() implies #[trigger] crate::ssmlaw::two_apart(
        layout,
        cols,
        nrow,
        c,
        d,
    ) by {
        assert(columns_apart(layout, desc, dm_cols, c, d));
        assert(cells_cover(cols[c], desc.columns[dm_cols[c] as int], nrow));
        assert(cells_cover(cols[d], desc.columns[dm_cols[d] as int], nrow));
        lemma_region(layout, desc.columns[dm_cols[c] as int], rows);
        lemma_region(layout, desc.columns[dm_cols[d] as int], rows);
    }
}

/// The layout that is made for the columns of a manager holds them.
pub proof fn lemma_manager_holds(desc: TableDescModel, dm_cols: Seq<usize>, nrow: u64)
    requires
        storable_layout(desc, dm_cols, nrow),
    ensures
        holds(manager_layout(desc, dm_cols), desc, dm_cols, nrow),
{
    let layout = manager_layout(desc, dm_cols);
    let bits = manager_bits(desc, dm_cols);
    let n = dm_cols.len();
    assert forall|k: int| 0 <= k < n implies column_inside(
        layout,
        desc.columns[#[trigger] dm_cols[k] as int],
        layout.column_offset[k],
    ) by {
        lemma_offset(desc, dm_cols, nrow, k);
        if needs_room(desc.columns[dm_cols[k] as int]) {
            lemma_room(desc, dm_cols, k);
        }
    }
    assert forall|i: int, j: int| 0 <= i < j < n implies #[trigger] columns_apart(
        layout,
        desc,
        dm_cols,
        i,
        j,
    ) by {
        lemma_offset(desc, dm_cols, nrow, i);
        lemma_offset(desc, dm_cols, nrow, j);
        ssmout::lemma_regions_grow(ROWS_PER_BUCKET, bits, (i + 1) as nat, j as nat);
    }
}

/// Where the region of a column lies.
proof fn lemma_offset(desc: TableDescModel, dm_cols: Seq<usize>, nrow: u64, k: int)
    requires
        storable_layout(desc, dm_cols, nrow),
        0 <= k < dm_cols.len(),
    ensures
        ({
            let layout = manager_layout(desc, dm_cols);
            let bits = manager_bits(desc, dm_cols);
            let region = region_of(layout, desc.columns[dm_cols[k] as int]);
            &&& layout.column_offset[k] == ssmout::regions(ROWS_PER_BUCKET, bits, k as nat)
            &&& layout.column_offset[k] + region == ssmout::regions(
                ROWS_PER_BUCKET,
                bits,
                (k + 1) as nat,
            )
            &&& layout.column_offset[k] + region <= layout.bucket_size
        }),
{
    let bits = manager_bits(desc, dm_cols);
    assert(column_bits(desc.columns[dm_cols[k] as int]) <= u32::MAX);
    assert(bits[k] == column_bits(desc.columns[dm_cols[k] as int]));
    ssmout::lemma_regions_grow(ROWS_PER_BUCKET, bits, k as nat, dm_cols.len());
    ssmout::lemma_regions_grow(ROWS_PER_BUCKET, bits, (k + 1) as nat, dm_cols.len());
}

/// Whether a column lies in the buckets of a layout.
fn is_inside(l: &StandardStManLayout, cd: &ColumnDesc, offset: u32) -> (r: bool)
    ensures
        r == column_inside(l@, cd@, offset),
{
    let size: u128 = region_size(l, cd);
    let room: bool = match cd.kind {
        ColumnKind::Scalar(_) => match cd.data_type {
            DataType::String => cd.max_length > 0 || l.bucket_size > 16,
            _ => true,
        },
        ColumnKind::Array => match cd.data_type {
            DataType::String => l.bucket_size > 16,
            _ => true,
        },
        ColumnKind::Record => l.bucket_size > 16,
    };
    room && offset as u128 + size <= l.bucket_size as u128
}

fn region_size(l: &StandardStManLayout, cd: &ColumnDesc) -> (r: u128)
    ensures
        r == region_of(l@, cd@),
        r <= 0xffff_ffff_ffff_ffff_ffff,
{
    let bits: u128 = if bits_column(cd) {
        1
    } else {
        8 * size_of_column(cd) as u128
    };
    let p: u128 = l.rows_per_bucket as u128;
    assert(0 <= p * bits <= 0xffff_ffff * 0x8_0000_0000) by (nonlinear_arith)
        requires
            0 <= p <= 0xffff_ffff,
            0 <= bits <= 0x8_0000_0000,
    ;
    (p * bits + 7) / 8
}

/// Whether the columns of a manager can be stored in a layout.
pub(crate) fn can_hold(
    l: &StandardStManLayout,
    desc: &TableDesc,
    dm_cols: &[usize],
    nrow: u64,
) -> (r: bool)
    requires
        forall|k: int| 0 <= k < dm_cols@.len() ==> #[trigger] dm_cols@[k] < desc@.columns.len(),
    ensures
        r == holds(l@, desc@, dm_cols@, nrow),
{
    let ghost d = desc@;
    let ghost cols = dm_cols@;
    let n: usize = dm_cols.len();
    if l.rows_per_bucket == 0 || l.bucket_size <= 8 || l.column_offset.len() != n || nrow
        > 0xffff_ffff_ffff {
        return false;
    }
    let mut j: usize = 0;
    while j < n
        invariant
            j <= n,
            n == cols.len(),
            cols == dm_cols@,
            d == desc@,
            l@.column_offset.len() == n,
            forall|k: int| 0 <= k < cols.len() ==> #[trigger] cols[k] < d.columns.len(),
            forall|k: int|
                0 <= k < j ==> column_inside(
                    l@,
                    d.columns[#[trigger] cols[k] as int],
                    l@.column_offset[k],
                ),
            forall|a: int, b: int|
                0 <= a < b < j ==> #[trigger] columns_apart(l@, d, cols, a, b),
        decreases n - j,
    {
        let cd = &desc.columns[dm_cols[j]];
        assert(d.columns[cols[j as int] as int] == cd@);
        let at: u32 = l.column_offset[j];
        if !is_inside(l, cd, at) {
            return false;
        }
        let size: u128 = region_size(l, cd);
        let mut i: usize = 0;
        while i < j
            invariant
                i <= j < n,
                n == cols.len(),
                cols == dm_cols@,
                d == desc@,
                l@.column_offset.len() == n,
                cd@ == d.columns[cols[j as int] as int],
                at == l@.column_offset[j as int],
                size == region_of(l@, cd@),
                size <= 0xffff_ffff_ffff_ffff_ffff,
                forall|k: int| 0 <= k < cols.len() ==> #[trigger] cols[k] < d.columns.len(),
                forall|a: int| 0 <= a < i ==> #[trigger] columns_apart(l@, d, cols, a, j as int),
            decreases j - i,
        {
            let other = &desc.columns[dm_cols[i]];
            assert(d.columns[cols[i as int] as int] == other@);
            let from: u32 = l.column_offset[i];
            if from as u128 + region_size(l, other) > at as u128 && at as u128 + size
                > from as u128 {
                assert(!columns_apart(l@, d, cols, i as int, j as int));
                return false;
            }
            assert(columns_apart(l@, d, cols, i as int, j as int));
            i = i + 1;
        }
        j = j + 1;
    }
    true
}

/// Build the StandardStMan data file of one data manager, its array index
/// file where it has array columns, and its spec. `dm_cols` are the manager's
/// columns in table order, `numbers` holds the texts of the numbers in record
/// cells, and `contents` the contents of the cells of string-array columns.
pub fn build_ssm_data(
    big_endian: bool,
    nrow: u64,
    dm_name: &str,
    desc: &TableDesc,
    values: &[Vec<RecordValue>],
    dm_cols: &[usize],
    numbers: &FloatTexts,
    contents: &[CellContent],
) -> (res: Result<SsmData, TableCreateError>)
    requires
        values_ready(desc@, value_lists(values@), dm_cols@, nrow),
    ensures
        match ssm_data(
            big_endian,
            nrow,
            dm_name@,
            desc@,
            value_lists(values@),
            dm_cols@,
            supplied(numbers, contents@),
        ) {
            Ok(m) => res is Ok && res->Ok_0@ == m,
            Err(f) => res is Err && res->Err_0@ == f,
        },
{
    let ghost d = desc@;
    assert forall|k: int| 0 <= k < dm_cols@.len() implies #[trigger] dm_cols@[k]
        < d.columns.len() by {}
    match lay_out(desc, dm_cols, nrow) {
        Some(l) => {
            proof {
                lemma_manager_holds(d, dm_cols@, nrow);
            }
            build_in_layout(
                big_endian,
                nrow,
                dm_name,
                desc,
                values,
                dm_cols,
                l,
                numbers,
                contents,
            )
        },
        None => Err(unstorable("no bucket layout for the columns of ", dm_name)),
    }
}

/// The columns as they are handed to the file writer.
fn write_columns<'a>(cells: &'a Vec<ColumnCells>) -> (cols: Vec<WriteColumn<'a>>)
    ensures
        ssmfile::cells_models(cols@) == column_cells_models(cells@),
{
    let mut cols: Vec<WriteColumn<'a>> = Vec::new();
    let mut k: usize = 0;
    while k < cells.len()
        invariant
            k <= cells@.len(),
            cols@.len() == k,
            forall|j: int| 0 <= j < k ==> (#[trigger] cols@[j])@ == cells@[j].model(),
        decreases cells@.len() - k,
    {
        let c = &cells[k];
        cols.push(
            WriteColumn { cell_size: c.size, cell_bits: c.bits, bytes: c.bytes.as_slice() },
        );
        k = k + 1;
    }
    assert(ssmfile::cells_models(cols@) =~= column_cells_models(cells@));
    cols
}

/// Build the files of one data manager in a layout.
#[verifier::spinoff_prover]
#[verifier::rlimit(60)]
pub(crate) fn build_in_layout(
    big_endian: bool,
    nrow: u64,
    dm_name: &str,
    desc: &TableDesc,
    values: &[Vec<RecordValue>],
    dm_cols: &[usize],
    l: StandardStManLayout,
    numbers: &FloatTexts,
    contents: &[CellContent],
) -> (res: Result<SsmData, TableCreateError>)
    requires
        values_ready(desc@, value_lists(values@), dm_cols@, nrow),
        holds(l@, desc@, dm_cols@, nrow),
    ensures
        match ssm_data_in(
            big_endian,
            nrow,
            dm_name@,
            desc@,
            value_lists(values@),
            dm_cols@,
            l@,
            supplied(numbers, contents@),
        ) {
            Ok(m) => res is Ok && res->Ok_0@ == m,
            Err(f) => res is Err && res->Err_0@ == f,
        },
{
    let ghost d = desc@;
    let ghost t = supplied(numbers, contents@);
    let ghost layout = l@;
    assert forall|k: int| 0 <= k < dm_cols@.len() implies #[trigger] dm_cols@[k]
        < d.columns.len() by {}
    let stream = build_index_stream(big_endian, nrow, &l, dm_cols.len());
    proof {
        ssmout::lemma_pieces(nrow as int, layout.rows_per_bucket as int);
        ssmout::lemma_pieces(stream@.len() as int, l@.bucket_size - 8);
    }
    let data: u64 = piece_count(nrow, l.rows_per_bucket as u64);
    let index: usize = index_bucket_count(stream.len(), l.bucket_size);
    let plain: u128 = data as u128 + index as u128;
    let first: i32 = to_signed32((plain % 0x1_0000_0000) as u32);
    let mut st = AsideBuf {
        shelf: StringBuckets::new(l.bucket_size, first),
        arrays: Vec::new(),
        strings: false,
        arrayed: any_arrays(desc, dm_cols),
    };
    proof {
        assert(st@ =~= nothing_aside(big_endian, nrow, d, dm_cols@, layout));
        assert forall|k: int|
            0 <= k < dm_cols@.len() && needs_room(d.columns[#[trigger] dm_cols@[k] as int]) implies
            16 < st@.shelf.size by {
            assert(column_inside(
                layout,
                d.columns[dm_cols@[k] as int],
                layout.column_offset[k],
            ));
        }
    }
    let cells = encode_columns(
        &mut st,
        big_endian,
        desc,
        values,
        dm_cols,
        nrow,
        numbers,
        contents,
    )?;
    let ghost models = column_cells_models(cells@);
    proof {
        lemma_strings_mean_room(
            big_endian,
            d,
            value_lists(values@),
            dm_cols@,
            0,
            Seq::empty(),
            nothing_aside(big_endian, nrow, d, dm_cols@, layout),
            t,
        );
    }
    let buckets: Vec<Vec<u8>> = if st.strings {
        st.shelf.finish()
    } else {
        Vec::new()
    };
    assert(ssmfile::byte_strings(buckets@) =~= string_buckets(st@));
    if plain + buckets.len() as u128 > 0xffff_ffff {
        return Err(unstorable("too many buckets for the columns of ", dm_name));
    }
    let cols = write_columns(&cells);
    proof {
        lemma_fits(layout, d, dm_cols@, nrow, models);
    }
    let file = write_standard_stman_file(
        big_endian,
        nrow,
        cols.as_slice(),
        &l,
        buckets.as_slice(),
    );
    let f0i: Option<Vec<u8>> = if st.arrayed {
        Some(array_file_of(big_endian, &st.arrays))
    } else {
        None
    };
    let n: usize = dm_cols.len();
    let manager = StandardStMan {
        data_manager_name: dm_name.to_owned(),
        column_offset: l.column_offset,
        col_index_map: zeros(n),
    };
    Ok(SsmData { file, f0i, manager })
}

fn unstorable(what: &str, name: &str) -> (e: TableCreateError)
    ensures
        e@ == CreateFault::Io(what@ + name@),
{
    let mut s: String = what.to_owned();
    s.append(name);
    TableCreateError::Io(s)
}

/// Strings are laid aside only where the buckets can hold them.
pub proof fn lemma_strings_mean_room(
    big: bool,
    desc: TableDescModel,
    values: Seq<Seq<ValueModel>>,
    dm_cols: Seq<usize>,
    k: int,
    acc: Seq<CellsModel>,
    st: Aside,
    t: Supplied,
)
    requires
        0 <= k,
        st.strings ==> 16 < st.shelf.size,
        forall|k: int|
            0 <= k < dm_cols.len() ==> (needs_room(desc.columns[#[trigger] dm_cols[k] as int])
                ==> 16 < st.shelf.size),
    ensures
        all_cells(big, desc, values, dm_cols, k, acc, st, t) matches Ok((_, s)) ==> s.shelf.size
            == st.shelf.size && (s.strings ==> 16 < s.shelf.size),
    decreases dm_cols.len() - k,
{
    if k < dm_cols.len() {
        let c = dm_cols[k] as int;
        let cd = desc.columns[c];
        lemma_column_strings(big, desc.name, c, cd, values[c], 0, Seq::empty(), st, t);
        match column_cells(big, desc.name, c, cd, values[c], 0, Seq::empty(), st, t) {
            Err(f) => {},
            Ok((b, s)) => {
                let m = CellsModel {
                    cell_size: column_size(cd),
                    cell_bits: if is_bits(cd) {
                        1
                    } else {
                        0
                    },
                    bytes: stored_cells(cd, b),
                };
                lemma_strings_mean_room(big, desc, values, dm_cols, k + 1, acc.push(m), s, t);
            },
        }
    }
}

proof fn lemma_column_strings(
    big: bool,
    table: Seq<char>,
    c: int,
    cd: ColumnModel,
    list: Seq<ValueModel>,
    i: int,
    acc: Seq<u8>,
    st: Aside,
    t: Supplied,
)
    requires
        0 <= i,
        st.strings ==> 16 < st.shelf.size,
        needs_room(cd) ==> 16 < st.shelf.size,
    ensures
        column_cells(big, table, c, cd, list, i, acc, st, t) matches Ok((_, s)) ==> s.shelf.size
            == st.shelf.size && (s.strings ==> 16 < s.shelf.size),
    decreases list.len() - i,
{
    if i < list.len() {
        let given = content_of(t.contents, c, i, 0);
        match cell_step(big, table, cd, list[i], given, st, t) {
            Err(f) => {},
            Ok((b, s)) => {
                if s != st && s.strings {
                    lemma_put_size(st, list[i], given, cd, big, table, t);
                }
                lemma_column_strings(big, table, c, cd, list, i + 1, acc + b, s, t);
            },
        }
    }
}

/// Laying a string aside does not change the size of the buckets.
proof fn lemma_put_size(
    st: Aside,
    v: ValueModel,
    given: Option<Seq<u8>>,
    cd: ColumnModel,
    big: bool,
    table: Seq<char>,
    t: Supplied,
)
    ensures
        cell_step(big, table, cd, v, given, st, t) matches Ok((_, s)) ==> s.shelf.size
            == st.shelf.size,
{
    match cell_step(big, table, cd, v, given, st, t) {
        Err(f) => {},
        Ok((c, s)) => {
            if s.shelf != st.shelf {
                let b = match v {
                    ValueModel::String(x) => text::text_bytes(x),
                    ValueModel::Record(r) => text::text_bytes(json::record_json(r, None, t.texts)),
                    _ => given->0,
                };
                assert(s.shelf == st.shelf.put(b));
                crate::strings::lemma_fill_size(st.shelf.ready(b.len()), b);
            }
        },
    }
}

} // verus!
