//! The table header and the whole `table.dat` file: header, table
//! description and data-manager info in one canonical big-endian stream.
use crate::aipsio;
use crate::aipsio::{AipsIoError, AipsIoFault, Cursor, Reader, Step, Writer};
use crate::bytes;
use crate::bytes::{length32, uint_from};
use crate::columnset;
use crate::columnset::{
    parse_column_set, write_multi_column_set, ColumnSet, ColumnSetError, ColumnSetFault,
    ColumnSetModel, DmBlob, DmBlobModel,
};
use crate::desclaw;
use crate::ism::{IsmError, IsmFault};
use crate::record::{DataType, RecordError, RecordFault};
use crate::setlaw;
use crate::ssm::{SsmError, SsmFault};
use crate::tabledesc;
use crate::tabledesc::{
    parse_table_desc, write_table_desc, TableDesc, TableDescError, TableDescFault, TableDescModel,
};
use crate::text::text_eq;
use vstd::prelude::*;

verus! {

/// Errors from parsing a table header.
#[derive(Debug)]
pub enum TableError {
    AipsIo(AipsIoError),
    NotATable { found: String },
    UnsupportedVersion(u32),
    BadEndianness(u32),
}

/// What a [`TableError`] says.
pub enum TableFault {
    AipsIo(AipsIoFault),
    NotATable { found: Seq<char> },
    UnsupportedVersion(u32),
    BadEndianness(u32),
}

impl View for TableError {
    type V = TableFault;

    open spec fn view(&self) -> TableFault {
        match *self {
            TableError::AipsIo(e) => TableFault::AipsIo(e@),
            TableError::NotATable { found } => TableFault::NotATable { found: found@ },
            TableError::UnsupportedVersion(v) => TableFault::UnsupportedVersion(v),
            TableError::BadEndianness(v) => TableFault::BadEndianness(v),
        }
    }
}

/// Errors from parsing a whole `table.dat` file.
#[derive(Debug)]
pub enum TableDatError {
    Header(TableError),
    Desc(TableDescError),
    ColumnSet(ColumnSetError),
    Storage(StorageError),
}

/// Why a data manager of a table cannot be opened.
#[derive(Debug)]
pub enum StorageError {
    Ssm(SsmError),
    Ism(IsmError),
    /// There is no data file for the manager of this sequence number.
    MissingFile(u32),
    /// No storage manager of this type is known.
    Unsupported(String),
}

/// What a [`StorageError`] says.
pub enum StorageFault {
    Ssm(SsmFault),
    Ism(IsmFault),
    MissingFile(u32),
    Unsupported(Seq<char>),
}

impl View for StorageError {
    type V = StorageFault;

    open spec fn view(&self) -> StorageFault {
        match *self {
            StorageError::Ssm(e) => StorageFault::Ssm(e@),
            StorageError::Ism(e) => StorageFault::Ism(e@),
            StorageError::MissingFile(n) => StorageFault::MissingFile(n),
            StorageError::Unsupported(s) => StorageFault::Unsupported(s@),
        }
    }
}

/// What a [`TableDatError`] says.
pub enum TableDatFault {
    Header(TableFault),
    Desc(TableDescFault),
    ColumnSet(ColumnSetFault),
    Storage(StorageFault),
}

impl View for TableDatError {
    type V = TableDatFault;

    open spec fn view(&self) -> TableDatFault {
        match *self {
            TableDatError::Header(e) => TableDatFault::Header(e@),
            TableDatError::Desc(e) => TableDatFault::Desc(e@),
            TableDatError::ColumnSet(e) => TableDatFault::ColumnSet(e@),
            TableDatError::Storage(s) => TableDatFault::Storage(s@),
        }
    }
}

/// The parsed `table.dat` header.
#[derive(Debug, PartialEq, Eq)]
pub struct TableHeader {
    /// `Table` object format version (2 or 3).
    pub version: u32,
    /// Number of rows in the table.
    pub nrow: u64,
    /// True when the column data files are big-endian; false for
    /// little-endian.
    pub big_endian: bool,
    /// Table kind, e.g. `"PlainTable"`.
    pub kind: String,
}

/// What a [`TableHeader`] says.
#[verifier::ext_equal]
pub struct HeaderModel {
    pub version: u32,
    pub nrow: u64,
    pub big_endian: bool,
    pub kind: Seq<char>,
}

impl View for TableHeader {
    type V = HeaderModel;

    open spec fn view(&self) -> HeaderModel {
        HeaderModel {
            version: self.version,
            nrow: self.nrow,
            big_endian: self.big_endian,
            kind: self.kind@,
        }
    }
}

/// The parsed contents of a `table.dat` file.
#[derive(Debug, PartialEq)]
pub struct TableDat {
    pub header: TableHeader,
    pub desc: TableDesc,
    pub column_set: ColumnSet,
}

/// What a [`TableDat`] says.
pub struct TableDatModel {
    pub header: HeaderModel,
    pub desc: TableDescModel,
    pub column_set: ColumnSetModel,
}

impl View for TableDat {
    type V = TableDatModel;

    open spec fn view(&self) -> TableDatModel {
        TableDatModel {
            header: self.header@,
            desc: self.desc@,
            column_set: self.column_set@,
        }
    }
}

/// A stream fault as a table fault.
pub open spec fn lift<T>(s: Step<T, AipsIoFault>) -> Step<T, TableFault> {
    match s {
        Ok(v) => Ok(v),
        Err((f, c)) => Err((TableFault::AipsIo(f), c)),
    }
}

fn io<T>(r: Result<T, AipsIoError>) -> (q: Result<T, TableError>)
    ensures
        match r {
            Ok(v) => q == Ok::<T, TableError>(v),
            Err(e) => q == Err::<T, TableError>(TableError::AipsIo(e)),
        },
{
    match r {
        Ok(v) => Ok(v),
        Err(e) => Err(TableError::AipsIo(e)),
    }
}

/// The row count: 32-bit in version 2, 64-bit in version 3.
pub open spec fn rows_at(c: Cursor, version: u32) -> Step<u64, TableFault> {
    if version == 2 {
        match lift(c.u32()) {
            Err(e) => Err(e),
            Ok((v, c)) => Ok((v as u64, c)),
        }
    } else if version == 3 {
        lift(c.u64())
    } else {
        Err((TableFault::UnsupportedVersion(version), c))
    }
}

/// The endianness flag: 0 for big-endian data files, 1 for little-endian
/// ones.
pub open spec fn endian_at(c: Cursor) -> Step<bool, TableFault> {
    match lift(c.u32()) {
        Err(e) => Err(e),
        Ok((v, c)) => if v == 0 {
            Ok((true, c))
        } else if v == 1 {
            Ok((false, c))
        } else {
            Err((TableFault::BadEndianness(v), c))
        },
    }
}

/// The header at the start of a `Table` root object.
#[verifier::opaque]
pub open spec fn header_at(c: Cursor) -> Step<HeaderModel, TableFault> {
    match lift(c.object_start(true)) {
        Err(e) => Err(e),
        Ok((head, c)) => if head.object_type != "Table"@ {
            Err((TableFault::NotATable { found: head.object_type }, c))
        } else {
            match rows_at(c, head.version) {
                Err(e) => Err(e),
                Ok((nrow, c)) => match endian_at(c) {
                    Err(e) => Err(e),
                    Ok((big_endian, c)) => match lift(c.string()) {
                        Err(e) => Err(e),
                        Ok((kind, c)) => Ok(
                            (HeaderModel { version: head.version, nrow, big_endian, kind }, c),
                        ),
                    },
                },
            }
        },
    }
}

/// What a `table.dat` buffer says.
pub open spec fn table_dat_of(buf: Seq<u8>) -> Result<TableDatModel, TableDatFault> {
    match header_at(Cursor { data: buf, big: true, pos: 0 }) {
        Err((f, _)) => Err(TableDatFault::Header(f)),
        Ok((header, c)) => match tabledesc::table_desc_at(c) {
            Err((f, _)) => Err(TableDatFault::Desc(f)),
            Ok((desc, c)) => match columnset::column_set_at(c, desc.columns) {
                Err((f, _)) => Err(TableDatFault::ColumnSet(f)),
                Ok((column_set, _)) => Ok(TableDatModel { header, desc, column_set }),
            },
        },
    }
}

/// Parse the header from an AipsIO stream positioned at the start of the
/// `Table` root object.
pub fn read_table_header(r: &mut Reader<'_>) -> (res: Result<TableHeader, TableError>)
    ensures
        aipsio::reads(res, final(r)@, header_at(old(r)@)),
{
    proof {
        reveal(header_at);
    }
    let obj = io(r.read_object_start(true))?;
    if !text_eq(obj.object_type.as_str(), "Table") {
        return Err(TableError::NotATable { found: obj.object_type });
    }
    let version = obj.version;
    let nrow: u64 = if version == 2 {
        io(r.read_u32())? as u64
    } else if version == 3 {
        io(r.read_u64())?
    } else {
        return Err(TableError::UnsupportedVersion(version));
    };
    let format: u32 = io(r.read_u32())?;
    if format > 1 {
        return Err(TableError::BadEndianness(format));
    }
    let big_endian: bool = format == 0;
    let kind = io(r.read_string())?;
    Ok(TableHeader { version, nrow, big_endian, kind })
}

/// Parse the header from the start of a `table.dat` buffer.
pub fn parse_table_header(buf: &[u8]) -> (res: Result<TableHeader, TableError>)
    ensures
        match header_at(Cursor { data: buf@, big: true, pos: 0 }) {
            Ok((m, _)) => res is Ok && res->Ok_0@ == m,
            Err((f, _)) => res is Err && res->Err_0@ == f,
        },
{
    let mut r = Reader::new(buf);
    read_table_header(&mut r)
}

/// Parse a complete `table.dat` buffer: header, table description, and the
/// data-manager info.
pub fn parse_table_dat(buf: &[u8]) -> (res: Result<TableDat, TableDatError>)
    ensures
        match table_dat_of(buf@) {
            Ok(m) => res is Ok && res->Ok_0@ == m,
            Err(f) => res is Err && res->Err_0@ == f,
        },
{
    let mut r = Reader::new(buf);
    let header = match read_table_header(&mut r) {
        Ok(h) => h,
        Err(e) => {
            return Err(TableDatError::Header(e));
        },
    };
    let desc = match parse_table_desc(&mut r) {
        Ok(d) => d,
        Err(e) => {
            return Err(TableDatError::Desc(e));
        },
    };
    match parse_column_set(&mut r, desc.columns.as_slice()) {
        Ok(column_set) => Ok(TableDat { header, desc, column_set }),
        Err(e) => Err(TableDatError::ColumnSet(e)),
    }
}

/// Errors from creating a CASA table.
#[derive(Debug)]
pub enum TableCreateError {
    /// The table cannot be stored, as the text says.
    Io(String),
    Record(RecordError),
    MissingValues(String),
    NotScalar(String),
    LongString(String),
    NotStandardStMan(String),
    RowCountMismatch { got: usize, want: u64, column: String },
}

/// What a [`TableCreateError`] says.
pub enum CreateFault {
    Io(Seq<char>),
    Record(RecordFault),
    MissingValues(Seq<char>),
    NotScalar(Seq<char>),
    LongString(Seq<char>),
    NotStandardStMan(Seq<char>),
    RowCountMismatch { got: int, want: u64, column: Seq<char> },
}

impl View for TableCreateError {
    type V = CreateFault;

    open spec fn view(&self) -> CreateFault {
        match *self {
            TableCreateError::Io(s) => CreateFault::Io(s@),
            TableCreateError::Record(e) => CreateFault::Record(e@),
            TableCreateError::MissingValues(s) => CreateFault::MissingValues(s@),
            TableCreateError::NotScalar(s) => CreateFault::NotScalar(s@),
            TableCreateError::LongString(s) => CreateFault::LongString(s@),
            TableCreateError::NotStandardStMan(s) => CreateFault::NotStandardStMan(s@),
            TableCreateError::RowCountMismatch { got, want, column } =>
                CreateFault::RowCountMismatch { got: got as int, want, column: column@ },
        }
    }
}

/// The header of a written table.
pub open spec fn header_bytes(big_endian: bool, nrow: u64) -> Seq<u8> {
    (if nrow > u32::MAX {
        aipsio::u64_bytes(true, nrow)
    } else {
        aipsio::u32_bytes(true, nrow as u32)
    }) + aipsio::u32_bytes(
        true,
        if big_endian {
            0
        } else {
            1
        },
    ) + aipsio::string_bytes(true, "PlainTable"@)
}

/// The version of a written table: 3 where the row count needs 64 bits.
pub open spec fn header_version(nrow: u64) -> u32 {
    if nrow > u32::MAX {
        3
    } else {
        2
    }
}

/// A whole `table.dat`.
pub open spec fn table_dat_bytes(
    big_endian: bool,
    nrow: u64,
    desc: TableDescModel,
    dms: Seq<DmBlobModel>,
    seqs: Seq<u32>,
) -> Result<Seq<u8>, RecordFault> {
    match tabledesc::table_desc_written(true, desc) {
        Err(f) => Err(f),
        Ok(d) => Ok(
            aipsio::object_bytes(
                true,
                true,
                "Table"@,
                header_version(nrow),
                header_bytes(big_endian, nrow) + d + columnset::column_set_bytes(
                    true,
                    nrow,
                    bytes::low32(dms.len() as int),
                    dms,
                    desc.columns,
                    seqs,
                ),
            ),
        ),
    }
}

/// Serialize `table.dat`: the root `"Table"` object with the table
/// description and the column set. `big_endian` is the data-file byte order.
/// `dms` lists the data managers (with their spec blobs) and `col_dm_seq` the
/// data-manager sequence number of each column, in table order.
pub fn build_table_dat(
    big_endian: bool,
    nrow: u64,
    desc: &TableDesc,
    dms: &[DmBlob],
    col_dm_seq: &[u32],
) -> (res: Result<Vec<u8>, TableCreateError>)
    requires
        tabledesc::table_desc_ready(desc@),
    ensures
        match table_dat_bytes(big_endian, nrow, desc@, columnset::dm_models(dms@), col_dm_seq@) {
            Ok(b) => res is Ok && res->Ok_0@ == b,
            Err(f) => res is Err && res->Err_0@ == CreateFault::Record(f),
        },
{
    let mut w = Writer::new();
    let ghost outer = w@;
    if nrow > 0xffff_ffff {
        w.put_root_object_start("Table", 3);
    } else {
        w.put_root_object_start("Table", 2);
    }
    let ghost inner = w@;
    if nrow > 0xffff_ffff {
        w.put_u64(nrow);
    } else {
        w.put_u32(nrow as u32);
    }
    let flag: u32 = if big_endian { 0 } else { 1 };
    w.put_u32(flag);
    w.put_string("PlainTable");
    let ghost mid = w@;
    match write_table_desc(&mut w, desc) {
        Ok(_) => {},
        Err(e) => {
            return Err(TableCreateError::Record(e));
        },
    }
    write_multi_column_set(
        &mut w,
        nrow,
        length32(dms.len()),
        dms,
        desc.columns.as_slice(),
        col_dm_seq,
    );
    w.put_object_end();
    proof {
        let ms = columnset::dm_models(dms@);
        let a = if nrow > u32::MAX {
            aipsio::u64_bytes(true, nrow)
        } else {
            aipsio::u32_bytes(true, nrow as u32)
        };
        let b = aipsio::u32_bytes(true, flag);
        let c = aipsio::string_bytes(true, "PlainTable"@);
        let d = tabledesc::table_desc_written(true, desc@)->Ok_0;
        let e = columnset::column_set_bytes(
            true,
            nrow,
            bytes::low32(ms.len() as int),
            ms,
            desc@.columns,
            col_dm_seq@,
        );
        aipsio::lemma_sheet_put3(inner, a, b, c);
        aipsio::lemma_sheet_put3(inner, a + b + c, d, e);
        aipsio::lemma_sheet_object(
            outer,
            true,
            "Table"@,
            header_version(nrow),
            a + b + c + d + e,
        );
        let all = table_dat_bytes(big_endian, nrow, desc@, ms, col_dm_seq@)->Ok_0;
        assert(outer.put(all).body =~= all);
    }
    Ok(w.into_bytes())
}

#[verifier::spinoff_prover]
#[verifier::rlimit(60)]
proof fn lemma_header(c: Cursor, big_endian: bool, nrow: u64, rest: Seq<u8>)
    requires
        0 <= c.pos,
        c.big,
        c.holds(
            aipsio::object_bytes(
                true,
                true,
                "Table"@,
                header_version(nrow),
                header_bytes(big_endian, nrow) + rest,
            ),
        ),
    ensures
        header_at(c) matches Ok((m, d)) && {
            &&& m == (HeaderModel {
                version: header_version(nrow),
                nrow,
                big_endian,
                kind: "PlainTable"@,
            })
            &&& d.holds(rest)
            &&& d.big
            &&& 0 <= d.pos
        },
{
    reveal(header_at);
    let a = if nrow > u32::MAX {
        aipsio::u64_bytes(true, nrow)
    } else {
        aipsio::u32_bytes(true, nrow as u32)
    };
    let flag = if big_endian {
        0u32
    } else {
        1u32
    };
    let b = aipsio::u32_bytes(true, flag);
    let s = aipsio::string_bytes(true, "PlainTable"@);
    bytes::lemma_uint_bytes_len(true, nrow as nat, 8);
    bytes::lemma_uint_bytes_len(true, nrow as u32 as nat, 4);
    bytes::lemma_uint_bytes_len(true, flag as nat, 4);
    reveal_strlit("Table");
    vstd::utf8::is_ascii_chars_encode_utf8("Table"@);
    reveal_strlit("PlainTable");
    vstd::utf8::is_ascii_chars_encode_utf8("PlainTable"@);
    aipsio::law_object_round_trip(
        c,
        true,
        "Table"@,
        header_version(nrow),
        header_bytes(big_endian, nrow) + rest,
    );
    let (h, d) = c.object_start(true)->Ok_0;
    aipsio::lemma_holds_concat(d, a + b + s, rest);
    aipsio::lemma_holds_concat(d, a + b, s);
    aipsio::lemma_holds_concat(d, a, b);
    if nrow > u32::MAX {
        aipsio::law_u64_round_trip(d, nrow);
    } else {
        aipsio::law_u32_round_trip(d, nrow as u32);
    }
    let d1 = d.skip(a.len() as int);
    aipsio::law_u32_round_trip(d1, flag);
    let d2 = d1.skip(4);
    assert(d.skip((a + b).len() as int) == d2);
    aipsio::law_string_round_trip(d2, "PlainTable"@);
    assert(d.skip((a + b + s).len() as int) == d2.skip(s.len() as int));
}

/// What reading gives back of a written `table.dat`.
pub open spec fn stored_table_dat(
    big_endian: bool,
    nrow: u64,
    desc: TableDescModel,
    dms: Seq<DmBlobModel>,
    seqs: Seq<u32>,
) -> TableDatModel {
    TableDatModel {
        header: HeaderModel {
            version: header_version(nrow),
            nrow,
            big_endian,
            kind: "PlainTable"@,
        },
        desc: desclaw::stored_table_desc(desc),
        column_set: setlaw::stored_column_set(
            nrow,
            bytes::low32(dms.len() as int),
            dms,
            desc.columns,
            seqs,
        ),
    }
}

/// A written `table.dat` is read back: header, description and column set.
#[verifier::spinoff_prover]
#[verifier::rlimit(60)]
pub proof fn law_table_dat_round_trip(
    big_endian: bool,
    nrow: u64,
    desc: TableDescModel,
    dms: Seq<DmBlobModel>,
    seqs: Seq<u32>,
)
    requires
        desclaw::table_desc_storable(desc),
        setlaw::managers_storable(dms),
        setlaw::bindings_storable(desc.columns, seqs),
    ensures
        table_dat_bytes(big_endian, nrow, desc, dms, seqs) matches Ok(b) && table_dat_of(b) == Ok::<
            TableDatModel,
            TableDatFault,
        >(stored_table_dat(big_endian, nrow, desc, dms, seqs)),
{
    desclaw::lemma_table_desc_written(true, desc);
    let d = tabledesc::table_desc_written(true, desc)->Ok_0;
    let n = bytes::low32(dms.len() as int);
    let e = columnset::column_set_bytes(true, nrow, n, dms, desc.columns, seqs);
    let all = table_dat_bytes(big_endian, nrow, desc, dms, seqs)->Ok_0;
    let c = Cursor { data: all, big: true, pos: 0 };
    assert(all.subrange(0, all.len() as int) =~= all);
    assert(header_bytes(big_endian, nrow) + d + e =~= header_bytes(big_endian, nrow) + (d + e));
    lemma_header(c, big_endian, nrow, d + e);
    let (h, c1) = header_at(c)->Ok_0;
    aipsio::lemma_holds_concat(c1, d, e);
    desclaw::law_table_desc_round_trip(c1, desc);
    let c2 = c1.skip(d.len() as int);
    let read = desclaw::stored_table_desc(desc).columns;
    assert(setlaw::same_kinds(desc.columns, read));
    setlaw::law_column_set_round_trip(c2, nrow, n, dms, desc.columns, seqs, read);
}

/// The scan for the row count of the last sync record in a lock file, from
/// byte `i` on, with `found` so far.
pub open spec fn sync_scan(b: Seq<u8>, i: int, found: Option<u64>) -> Option<u64>
    decreases b.len() - i,
{
    if i + 4 > b.len() {
        found
    } else if !sync_here(b, i) {
        sync_scan(b, i + 1, found)
    } else if i + 8 > b.len() {
        None
    } else {
        let version = bytes::uint_value(true, b.subrange(i + 4, i + 8));
        if version == 1 {
            if i + 12 > b.len() {
                None
            } else {
                sync_scan(
                    b,
                    i + 1,
                    Some(bytes::uint_value(true, b.subrange(i + 8, i + 12)) as u64),
                )
            }
        } else if version == 2 {
            if i + 16 > b.len() {
                None
            } else {
                sync_scan(
                    b,
                    i + 1,
                    Some(bytes::uint_value(true, b.subrange(i + 8, i + 16)) as u64),
                )
            }
        } else {
            sync_scan(b, i + 1, found)
        }
    }
}

/// A length-prefixed `"sync"` whose text stands at `i`.
pub open spec fn sync_here(b: Seq<u8>, i: int) -> bool {
    &&& 4 <= i
    &&& i + 4 <= b.len()
    &&& b[i - 4] == 0 && b[i - 3] == 0 && b[i - 2] == 0 && b[i - 1] == 4
    &&& b[i] == 0x73 && b[i + 1] == 0x79 && b[i + 2] == 0x6e && b[i + 3] == 0x63
}

/// The row count in the sync record of a lock file's bytes: a
/// length-prefixed `"sync"`, the version, and the row count (32-bit in
/// version 1, 64-bit in version 2). The last record counts; a truncated one
/// leaves nothing.
pub fn lock_sync_nrrow(b: &[u8]) -> (r: Option<u64>)
    ensures
        r == sync_scan(b@, 0, None),
{
    let len: usize = b.len();
    let mut found: Option<u64> = None;
    let mut i: usize = 0;
    if len < 4 {
        return None;
    }
    while i <= len - 4
        invariant
            len == b@.len(),
            4 <= len,
            i <= len - 3,
            sync_scan(b@, 0, None) == sync_scan(b@, i as int, found),
        decreases len - i,
    {
        if i >= 4 && b[i - 4] == 0 && b[i - 3] == 0 && b[i - 2] == 0 && b[i - 1] == 4 && b[i]
            == 0x73 && b[i + 1] == 0x79 && b[i + 2] == 0x6e && b[i + 3] == 0x63 {
            if len - i < 8 {
                return None;
            }
            let version: u64 = uint_from(true, vstd::slice::slice_subrange(b, i + 4, i + 8));
            if version == 1 {
                if len - i < 12 {
                    return None;
                }
                found = Some(uint_from(true, vstd::slice::slice_subrange(b, i + 8, i + 12)));
            } else if version == 2 {
                if len - i < 16 {
                    return None;
                }
                found = Some(uint_from(true, vstd::slice::slice_subrange(b, i + 8, i + 16)));
            }
        }
        i = i + 1;
    }
    found
}

/// The row count of an opened table: that of the lock file's sync record
/// where there is one and it is not zero, else that of the header.
pub fn effective_rows(header: u64, sync: Option<u64>) -> (r: u64)
    ensures
        r == match sync {
            Some(n) => if n != 0 {
                n
            } else {
                header
            },
            None => header,
        },
{
    match sync {
        Some(n) => if n != 0 {
            n
        } else {
            header
        },
        None => header,
    }
}

/// The value type name of a data type.
pub open spec fn value_type_name(dt: DataType) -> Seq<char> {
    match dt {
        DataType::Bool => "boolean"@,
        DataType::Char | DataType::UChar => "uchar"@,
        DataType::Short => "short"@,
        DataType::UShort => "ushort"@,
        DataType::Int => "int"@,
        DataType::UInt => "uint"@,
        DataType::Int64 => "int64"@,
        DataType::Float => "float"@,
        DataType::Double => "double"@,
        DataType::Complex => "complex"@,
        DataType::DComplex => "dcomplex"@,
        DataType::String => "string"@,
        DataType::Record => "record"@,
        _ => "unknown"@,
    }
}

/// The value type name of a data type, as a column description gives it.
pub fn casa_value_type(dt: DataType) -> (r: &'static str)
    ensures
        r@ == value_type_name(dt),
{
    match dt {
        DataType::Bool => "boolean",
        DataType::Char | DataType::UChar => "uchar",
        DataType::Short => "short",
        DataType::UShort => "ushort",
        DataType::Int => "int",
        DataType::UInt => "uint",
        DataType::Int64 => "int64",
        DataType::Float => "float",
        DataType::Double => "double",
        DataType::Complex => "complex",
        DataType::DComplex => "dcomplex",
        DataType::String => "string",
        DataType::Record => "record",
        _ => "unknown",
    }
}

/// The row count in a sync record at `i`, where it is complete.
pub open spec fn sync_rows(b: Seq<u8>, i: int, n: u64) -> bool {
    &&& sync_here(b, i)
    &&& i + 8 <= b.len()
    &&& {
        let version = bytes::uint_value(true, b.subrange(i + 4, i + 8));
        ||| version == 1 && i + 12 <= b.len() && n == bytes::uint_value(
            true,
            b.subrange(i + 8, i + 12),
        )
        ||| version == 2 && i + 16 <= b.len() && n == bytes::uint_value(
            true,
            b.subrange(i + 8, i + 16),
        )
    }
}

proof fn lemma_scan_none(b: Seq<u8>, i: int, found: Option<u64>)
    requires
        0 <= i,
        forall|j: int| i <= j ==> !#[trigger] sync_here(b, j),
    ensures
        sync_scan(b, i, found) == found,
    decreases b.len() - i,
{
    if i + 4 <= b.len() {
        assert(!sync_here(b, i));
        lemma_scan_none(b, i + 1, found);
    }
}

proof fn lemma_scan_last(b: Seq<u8>, i: int, found: Option<u64>, p: int, n: u64)
    requires
        0 <= i <= p,
        sync_rows(b, p, n),
        forall|j: int| p < j ==> !#[trigger] sync_here(b, j),
    ensures
        sync_scan(b, i, found) == Some(n),
    decreases p - i,
{
    if i == p {
        lemma_scan_none(b, p + 1, Some(n));
    } else if sync_here(b, i) {
        assert(i + 8 <= p) by {
            assert(b[p - 4] == 0 && b[p - 3] == 0 && b[p - 2] == 0 && b[p - 1] == 4);
        }
        let version = bytes::uint_value(true, b.subrange(i + 4, i + 8));
        if version == 1 {
            let f = Some(bytes::uint_value(true, b.subrange(i + 8, i + 12)) as u64);
            lemma_scan_last(b, i + 1, f, p, n);
        } else if version == 2 {
            let f = Some(bytes::uint_value(true, b.subrange(i + 8, i + 16)) as u64);
            lemma_scan_last(b, i + 1, f, p, n);
        } else {
            lemma_scan_last(b, i + 1, found, p, n);
        }
    } else {
        lemma_scan_last(b, i + 1, found, p, n);
    }
}

/// The last sync record of a lock file gives the row count, and without a
/// record there is none.
pub proof fn law_last_sync(b: Seq<u8>, p: int, n: u64)
    requires
        forall|j: int| p < j ==> !#[trigger] sync_here(b, j),
    ensures
        sync_rows(b, p, n) ==> sync_scan(b, 0, None) == Some(n),
        p < 0 ==> sync_scan(b, 0, None) is None,
{
    if sync_rows(b, p, n) {
        lemma_scan_last(b, 0, None, p, n);
    }
    if p < 0 {
        lemma_scan_none(b, 0, None);
    }
}

} // verus!
