//! The data-manager info inside `table.dat`.
//!
//! Immediately after the `TableDesc` object (still inside the root `"Table"`
//! object; not itself framed) is the ColumnSet payload:
//!
//! - `Int` version: negative in modern tables, else the row count of an
//!   ancient version-1 table. The absolute value is the version:
//!   - `<= 2`: followed by a `u32` row count and no storage option;
//!   - `>= 3`: followed by a `u64` row count, then `Int` storage option and
//!     `Int` block size.
//! - `u32`: total data managers ever created (sequence counter).
//! - `u32` nr: data managers with columns, then `nr` times
//!   (`String` data-manager type, `u32` sequence number).
//! - One record per column, in table column order: `u32` class version (2),
//!   `String` original name, then the class-specific binding: for
//!   scalar/record columns `u32` 1 + `u32` data-manager sequence number; for
//!   array columns additionally a `Bool` shape-column flag and, when set, the
//!   `String` shape-column name.
//! - `nr` opaque blobs (`u32` length + bytes), one per data manager, each a
//!   self-contained AipsIO stream holding that manager's spec: for
//!   StandardStMan a framed `"SSM"` object with the manager name and the
//!   `"Block"`-framed column offset and index map tables.
use crate::aipsio;
use crate::aipsio::{AipsIoError, AipsIoFault, Cursor, Reader, Step, Writer};
use crate::bytes;
use crate::bytes::length32;
use crate::recordio;
use crate::recordio::read_elements;
use crate::tabledesc;
use crate::tabledesc::{ColumnDesc, ColumnKind, ColumnModel, KindModel};
use crate::text::text_eq;
use vstd::prelude::*;

verus! {

/// Errors from parsing the data-manager info.
#[derive(Debug)]
pub enum ColumnSetError {
    AipsIo(AipsIoError),
    UnexpectedType { expected: String, found: String },
    UnsupportedColumnVersion(u32),
    UnexpectedBlobType { manager_type: String, found: String },
}

/// What a [`ColumnSetError`] says.
pub enum ColumnSetFault {
    AipsIo(AipsIoFault),
    UnexpectedType { expected: Seq<char>, found: Seq<char> },
    UnsupportedColumnVersion(u32),
    UnexpectedBlobType { manager_type: Seq<char>, found: Seq<char> },
}

impl View for ColumnSetError {
    type V = ColumnSetFault;

    open spec fn view(&self) -> ColumnSetFault {
        match *self {
            ColumnSetError::AipsIo(e) => ColumnSetFault::AipsIo(e@),
            ColumnSetError::UnexpectedType { expected, found } => ColumnSetFault::UnexpectedType {
                expected: expected@,
                found: found@,
            },
            ColumnSetError::UnsupportedColumnVersion(v) =>
                ColumnSetFault::UnsupportedColumnVersion(v),
            ColumnSetError::UnexpectedBlobType { manager_type, found } =>
                ColumnSetFault::UnexpectedBlobType { manager_type: manager_type@, found: found@ },
        }
    }
}

/// Binding of one table column to its data manager.
#[derive(Debug, Clone, PartialEq)]
pub struct ColumnInfo {
    /// Name the column was created with.
    pub original_name: String,
    /// Sequence number of the data manager storing the column data.
    pub data_manager_seq: u32,
    /// Name of the companion shape column for variable-shape array columns.
    pub shape_column: Option<String>,
}

/// What a [`ColumnInfo`] says.
pub struct InfoModel {
    pub original_name: Seq<char>,
    pub data_manager_seq: u32,
    pub shape_column: Option<Seq<char>>,
}

impl View for ColumnInfo {
    type V = InfoModel;

    open spec fn view(&self) -> InfoModel {
        InfoModel {
            original_name: self.original_name@,
            data_manager_seq: self.data_manager_seq,
            shape_column: match self.shape_column {
                Some(s) => Some(s@),
                None => None,
            },
        }
    }
}

/// A data manager listed in the ColumnSet, with its spec blob.
#[derive(Debug, Clone, PartialEq)]
pub struct DataManager {
    pub manager_type: String,
    pub sequence_nr: u32,
    pub blob: DataManagerBlob,
}

/// What a [`DataManager`] says.
pub struct ManagerModel {
    pub manager_type: Seq<char>,
    pub sequence_nr: u32,
    pub blob: BlobModel,
}

impl View for DataManager {
    type V = ManagerModel;

    open spec fn view(&self) -> ManagerModel {
        ManagerModel {
            manager_type: self.manager_type@,
            sequence_nr: self.sequence_nr,
            blob: self.blob@,
        }
    }
}

/// The decoded per-data-manager spec blob.
#[derive(Debug, Clone, PartialEq)]
pub enum DataManagerBlob {
    /// StandardStMan spec: manager name + column offset table.
    StandardStMan(StandardStMan),
    /// Other data managers, whose on-disk spec is not decoded; the raw blob
    /// is preserved.
    Unsupported(Vec<u8>),
}

/// What a [`DataManagerBlob`] says.
pub enum BlobModel {
    StandardStMan(StandardModel),
    Unsupported(Seq<u8>),
}

impl View for DataManagerBlob {
    type V = BlobModel;

    open spec fn view(&self) -> BlobModel {
        match *self {
            DataManagerBlob::StandardStMan(s) => BlobModel::StandardStMan(s@),
            DataManagerBlob::Unsupported(b) => BlobModel::Unsupported(b@),
        }
    }
}

/// StandardStMan spec blob.
#[derive(Debug, Clone, PartialEq)]
pub struct StandardStMan {
    /// Storage manager name as written at creation.
    pub data_manager_name: String,
    /// Byte offsets into a data bucket where each column's data region
    /// starts (one per column this manager owns).
    pub column_offset: Vec<u32>,
    /// Maps each owned column to a stable column index.
    pub col_index_map: Vec<u32>,
}

/// What a [`StandardStMan`] says.
pub struct StandardModel {
    pub data_manager_name: Seq<char>,
    pub column_offset: Seq<u32>,
    pub col_index_map: Seq<u32>,
}

impl View for StandardStMan {
    type V = StandardModel;

    open spec fn view(&self) -> StandardModel {
        StandardModel {
            data_manager_name: self.data_manager_name@,
            column_offset: self.column_offset@,
            col_index_map: self.col_index_map@,
        }
    }
}

/// The data-manager info of a CASA table.
#[derive(Debug, Clone, PartialEq)]
pub struct ColumnSet {
    /// ColumnSet format version (absolute value on disk).
    pub version: u32,
    /// Row count written inside the ColumnSet (redundant with the header).
    pub nrow: u64,
    /// (storage option, block size), only present for version >= 3.
    pub storage_option: Option<(i32, i32)>,
    /// Total data managers ever created (sequence counter).
    pub seq_count: u32,
    /// Data managers with columns, in writing order.
    pub data_managers: Vec<DataManager>,
    /// Per-column data-manager bindings, in table column order.
    pub columns: Vec<ColumnInfo>,
}

/// What a [`ColumnSet`] says.
pub struct ColumnSetModel {
    pub version: u32,
    pub nrow: u64,
    pub storage_option: Option<(i32, i32)>,
    pub seq_count: u32,
    pub data_managers: Seq<ManagerModel>,
    pub columns: Seq<InfoModel>,
}

pub open spec fn manager_models(s: Seq<DataManager>) -> Seq<ManagerModel> {
    s.map_values(|m: DataManager| m@)
}

pub open spec fn info_models(s: Seq<ColumnInfo>) -> Seq<InfoModel> {
    s.map_values(|m: ColumnInfo| m@)
}

impl View for ColumnSet {
    type V = ColumnSetModel;

    open spec fn view(&self) -> ColumnSetModel {
        ColumnSetModel {
            version: self.version,
            nrow: self.nrow,
            storage_option: self.storage_option,
            seq_count: self.seq_count,
            data_managers: manager_models(self.data_managers@),
            columns: info_models(self.columns@),
        }
    }
}

/// Manager `i` is the first one with sequence number `seq`.
pub open spec fn is_first_manager(ms: Seq<ManagerModel>, seq: u32, i: int) -> bool {
    &&& 0 <= i < ms.len()
    &&& ms[i].sequence_nr == seq
    &&& forall|j: int| 0 <= j < i ==> (#[trigger] ms[j]).sequence_nr != seq
}

/// Some manager has sequence number `seq`.
pub open spec fn has_manager(ms: Seq<ManagerModel>, seq: u32) -> bool {
    exists|i: int| 0 <= i < ms.len() && (#[trigger] ms[i]).sequence_nr == seq
}

impl ColumnSet {
    /// The position of the data manager with sequence number `seq`.
    pub(crate) fn manager_position(&self, seq: u32) -> (r: Option<usize>)
        ensures
            match r {
                Some(i) => is_first_manager(self@.data_managers, seq, i as int),
                None => !has_manager(self@.data_managers, seq),
            },
    {
        let ghost ms = self@.data_managers;
        let mut i: usize = 0;
        while i < self.data_managers.len()
            invariant
                i <= self.data_managers@.len(),
                ms == self@.data_managers,
                forall|j: int| 0 <= j < i ==> (#[trigger] ms[j]).sequence_nr != seq,
            decreases self.data_managers@.len() - i,
        {
            if self.data_managers[i].sequence_nr == seq {
                assert(ms[i as int].sequence_nr == seq);
                return Some(i);
            }
            i = i + 1;
        }
        None
    }

    /// The data manager storing `column`, by its sequence number.
    pub fn data_manager_for<'a>(&'a self, column: &ColumnInfo) -> (r: Option<&'a DataManager>)
        ensures
            match r {
                Some(m) => exists|i: int|
                    #[trigger] is_first_manager(
                        self@.data_managers,
                        column.data_manager_seq,
                        i,
                    ) && m@ == self@.data_managers[i],
                None => !has_manager(self@.data_managers, column.data_manager_seq),
            },
    {
        match self.manager_position(column.data_manager_seq) {
            Some(i) => {
                assert(is_first_manager(self@.data_managers, column.data_manager_seq, i as int));
                Some(&self.data_managers[i])
            },
            None => None,
        }
    }
}

/// A stream fault as a column set fault.
pub open spec fn lift<T>(s: Step<T, AipsIoFault>) -> Step<T, ColumnSetFault> {
    match s {
        Ok(v) => Ok(v),
        Err((f, c)) => Err((ColumnSetFault::AipsIo(f), c)),
    }
}

fn io<T>(r: Result<T, AipsIoError>) -> (q: Result<T, ColumnSetError>)
    ensures
        match r {
            Ok(v) => q == Ok::<T, ColumnSetError>(v),
            Err(e) => q == Err::<T, ColumnSetError>(ColumnSetError::AipsIo(e)),
        },
{
    match r {
        Ok(v) => Ok(v),
        Err(e) => Err(ColumnSetError::AipsIo(e)),
    }
}

/// A framed block of unsigned integers.
#[verifier::opaque]
pub open spec fn block_at(c: Cursor) -> Step<Seq<u32>, ColumnSetFault> {
    match lift(c.object_start(false)) {
        Err(e) => Err(e),
        Ok((head, c)) => if head.object_type != "Block"@ {
            Err(
                (
                    ColumnSetFault::UnexpectedType {
                        expected: "Block"@,
                        found: head.object_type,
                    },
                    c,
                ),
            )
        } else {
            match lift(c.u32()) {
                Err(e) => Err(e),
                Ok((n, c)) => lift(recordio::elements_at::<u32>(c, n as nat, Seq::empty())),
            }
        },
    }
}

/// Read a framed `"Block"` of `uInt`s: `u32` element count then data.
fn read_block_u32(r: &mut Reader<'_>) -> (res: Result<Vec<u32>, ColumnSetError>)
    ensures
        aipsio::reads(res, final(r)@, block_at(old(r)@)),
{
    proof {
        reveal(block_at);
    }
    let obj = io(r.read_object_start(false))?;
    if !text_eq(obj.object_type.as_str(), "Block") {
        return Err(
            ColumnSetError::UnexpectedType { expected: "Block".to_owned(), found: obj.object_type },
        );
    }
    let n: u32 = io(r.read_u32())?;
    let values = io(read_elements::<u32>(r, n as usize))?;
    assert(recordio::views(values@) =~= values@);
    Ok(values)
}

/// The StandardStMan spec in a blob of a manager of type `manager_type`.
pub open spec fn standard_of(blob: Seq<u8>, manager_type: Seq<char>) -> Result<
    StandardModel,
    ColumnSetFault,
> {
    let c = Cursor { data: blob, big: true, pos: 0 };
    match lift(c.object_start(true)) {
        Err((f, _)) => Err(f),
        Ok((head, c)) => if head.object_type != "SSM"@ {
            Err(ColumnSetFault::UnexpectedBlobType { manager_type, found: head.object_type })
        } else {
            match lift(c.string()) {
                Err((f, _)) => Err(f),
                Ok((name, c)) => match block_at(c) {
                    Err((f, _)) => Err(f),
                    Ok((column_offset, c)) => match block_at(c) {
                        Err((f, _)) => Err(f),
                        Ok((col_index_map, c)) => Ok(
                            StandardModel { data_manager_name: name, column_offset, col_index_map },
                        ),
                    },
                },
            }
        },
    }
}

/// Decode a StandardStMan `"SSM"` spec blob.
pub fn parse_standard_stman(blob: &[u8], manager_type: &str) -> (res: Result<
    StandardStMan,
    ColumnSetError,
>)
    ensures
        match standard_of(blob@, manager_type@) {
            Ok(m) => res is Ok && res->Ok_0@ == m,
            Err(f) => res is Err && res->Err_0@ == f,
        },
{
    let mut r = Reader::new(blob);
    let obj = io(r.read_object_start(true))?;
    if !text_eq(obj.object_type.as_str(), "SSM") {
        return Err(
            ColumnSetError::UnexpectedBlobType {
                manager_type: manager_type.to_owned(),
                found: obj.object_type,
            },
        );
    }
    let data_manager_name = io(r.read_string())?;
    let column_offset = read_block_u32(&mut r)?;
    let col_index_map = read_block_u32(&mut r)?;
    Ok(StandardStMan { data_manager_name, column_offset, col_index_map })
}

/// Version, row count and storage option at the start of a column set.
#[verifier::opaque]
pub open spec fn rows_at(c: Cursor) -> Step<(u32, u64, Option<(i32, i32)>), AipsIoFault> {
    match c.i32() {
        Err(e) => Err(e),
        Ok((raw, c)) => if raw >= 0 {
            Ok(((1, raw as u64, None), c))
        } else if -raw <= 2 {
            match c.u32() {
                Err(e) => Err(e),
                Ok((n, c)) => Ok((((-raw) as u32, n as u64, None), c)),
            }
        } else {
            match c.u64() {
                Err(e) => Err(e),
                Ok((n, c)) => match c.i32() {
                    Err(e) => Err(e),
                    Ok((option, c)) => match c.i32() {
                        Err(e) => Err(e),
                        Ok((block, c)) => Ok((((-raw) as u32, n, Some((option, block))), c)),
                    },
                },
            }
        },
    }
}

/// The type and sequence number of a data manager.
pub open spec fn manager_at(c: Cursor) -> Step<(Seq<char>, u32), AipsIoFault> {
    match c.string() {
        Err(e) => Err(e),
        Ok((t, c)) => match c.u32() {
            Err(e) => Err(e),
            Ok((n, c)) => Ok(((t, n), c)),
        },
    }
}

/// `n` manager entries, appended to `acc`.
pub open spec fn managers_at(c: Cursor, n: nat, acc: Seq<(Seq<char>, u32)>) -> Step<
    Seq<(Seq<char>, u32)>,
    AipsIoFault,
>
    decreases n,
{
    if n == 0 {
        Ok((acc, c))
    } else {
        match manager_at(c) {
            Err(e) => Err(e),
            Ok((m, c)) => managers_at(c, (n - 1) as nat, acc.push(m)),
        }
    }
}

/// The companion shape column of an array column.
pub open spec fn shape_column_at(c: Cursor, kind: KindModel) -> Step<
    Option<Seq<char>>,
    AipsIoFault,
> {
    match kind {
        KindModel::Array => match c.bool() {
            Err(e) => Err(e),
            Ok((b, c)) => if b {
                match c.string() {
                    Err(e) => Err(e),
                    Ok((s, c)) => Ok((Some(s), c)),
                }
            } else {
                Ok((None, c))
            },
        },
        _ => Ok((None, c)),
    }
}

/// The binding of a column of the given kind.
#[verifier::opaque]
pub open spec fn info_at(c: Cursor, kind: KindModel) -> Step<InfoModel, ColumnSetFault> {
    match lift(c.u32()) {
        Err(e) => Err(e),
        Ok((class_version, c)) => if class_version != 2 {
            Err((ColumnSetFault::UnsupportedColumnVersion(class_version), c))
        } else {
            match lift(c.string()) {
                Err(e) => Err(e),
                Ok((original_name, c)) => match lift(c.u32()) {
                    Err(e) => Err(e),
                    Ok((_, c)) => match lift(c.u32()) {
                        Err(e) => Err(e),
                        Ok((data_manager_seq, c)) => match lift(shape_column_at(c, kind)) {
                            Err(e) => Err(e),
                            Ok((shape_column, c)) => Ok(
                                (InfoModel { original_name, data_manager_seq, shape_column }, c),
                            ),
                        },
                    },
                },
            }
        },
    }
}

/// The bindings of the columns from column `i` on, appended to `acc`.
pub open spec fn infos_at(c: Cursor, cols: Seq<ColumnModel>, i: nat, acc: Seq<InfoModel>) -> Step<
    Seq<InfoModel>,
    ColumnSetFault,
>
    decreases cols.len() - i,
{
    if i >= cols.len() {
        Ok((acc, c))
    } else {
        match info_at(c, cols[i as int].kind) {
            Err(e) => Err(e),
            Ok((m, c)) => infos_at(c, cols, i + 1, acc.push(m)),
        }
    }
}

/// What the blob of a manager of type `manager_type` says.
pub open spec fn blob_of(blob: Seq<u8>, manager_type: Seq<char>) -> Result<
    BlobModel,
    ColumnSetFault,
> {
    if manager_type == "StandardStMan"@ {
        match standard_of(blob, manager_type) {
            Ok(s) => Ok(BlobModel::StandardStMan(s)),
            Err(f) => Err(f),
        }
    } else {
        Ok(BlobModel::Unsupported(blob))
    }
}

/// The blobs of the managers from manager `i` on, appended to `acc`.
pub open spec fn blobs_at(
    c: Cursor,
    heads: Seq<(Seq<char>, u32)>,
    i: nat,
    acc: Seq<ManagerModel>,
) -> Step<Seq<ManagerModel>, ColumnSetFault>
    decreases heads.len() - i,
{
    if i >= heads.len() {
        Ok((acc, c))
    } else {
        match lift(c.opaque()) {
            Err(e) => Err(e),
            Ok((b, c)) => match blob_of(b, heads[i as int].0) {
                Err(f) => Err((f, c)),
                Ok(blob) => blobs_at(
                    c,
                    heads,
                    i + 1,
                    acc.push(
                        ManagerModel {
                            manager_type: heads[i as int].0,
                            sequence_nr: heads[i as int].1,
                            blob,
                        },
                    ),
                ),
            },
        }
    }
}

/// A column set for the given columns.
pub open spec fn column_set_at(c: Cursor, cols: Seq<ColumnModel>) -> Step<
    ColumnSetModel,
    ColumnSetFault,
> {
    match lift(rows_at(c)) {
        Err(e) => Err(e),
        Ok((rows, c)) => match lift(c.u32()) {
            Err(e) => Err(e),
            Ok((seq_count, c)) => match lift(c.u32()) {
                Err(e) => Err(e),
                Ok((nr, c)) => match lift(managers_at(c, nr as nat, Seq::empty())) {
                    Err(e) => Err(e),
                    Ok((heads, c)) => match infos_at(c, cols, 0, Seq::empty()) {
                        Err(e) => Err(e),
                        Ok((columns, c)) => match blobs_at(c, heads, 0, Seq::empty()) {
                            Err(e) => Err(e),
                            Ok((data_managers, c)) => Ok(
                                (
                                    ColumnSetModel {
                                        version: rows.0,
                                        nrow: rows.1,
                                        storage_option: rows.2,
                                        seq_count,
                                        data_managers,
                                        columns,
                                    },
                                    c,
                                ),
                            ),
                        },
                    },
                },
            },
        },
    }
}

fn read_rows(r: &mut Reader<'_>) -> (res: Result<(u32, u64, Option<(i32, i32)>), AipsIoError>)
    ensures
        match rows_at(old(r)@) {
            Ok((v, c)) => res == Ok::<(u32, u64, Option<(i32, i32)>), AipsIoError>(v) && final(r)@
                == c,
            Err((f, c)) => res is Err && res->Err_0@ == f && final(r)@ == c,
        },
{
    proof {
        reveal(rows_at);
    }
    let raw: i32 = r.read_i32()?;
    if raw >= 0 {
        return Ok((1, raw as u64, None));
    }
    let v: u32 = (-(raw as i64)) as u32;
    if v <= 2 {
        let n = r.read_u32()?;
        Ok((v, n as u64, None))
    } else {
        let n = r.read_u64()?;
        let option = r.read_i32()?;
        let block = r.read_i32()?;
        Ok((v, n, Some((option, block))))
    }
}

/// What a list of manager entries says.
pub open spec fn head_models(s: Seq<(String, u32)>) -> Seq<(Seq<char>, u32)> {
    s.map_values(|m: (String, u32)| (m.0@, m.1))
}

fn read_managers(r: &mut Reader<'_>, n: u32) -> (res: Result<Vec<(String, u32)>, AipsIoError>)
    ensures
        match managers_at(old(r)@, n as nat, Seq::empty()) {
            Ok((v, c)) => res is Ok && head_models(res->Ok_0@) == v && final(r)@ == c,
            Err((f, c)) => res is Err && res->Err_0@ == f && final(r)@ == c,
        },
{
    let mut out: Vec<(String, u32)> = Vec::new();
    let mut i: u32 = 0;
    let ghost all = managers_at(r@, n as nat, Seq::empty());
    assert(head_models(out@) =~= Seq::<(Seq<char>, u32)>::empty());
    while i < n
        invariant
            i <= n,
            all == managers_at(old(r)@, n as nat, Seq::empty()),
            all == managers_at(r@, (n - i) as nat, head_models(out@)),
        decreases n - i,
    {
        let ghost before = out@;
        let t = r.read_string()?;
        let seq = r.read_u32()?;
        out.push((t, seq));
        assert(head_models(out@) =~= head_models(before).push((t@, seq)));
        i = i + 1;
    }
    Ok(out)
}

fn read_info(r: &mut Reader<'_>, kind: &ColumnKind) -> (res: Result<ColumnInfo, ColumnSetError>)
    ensures
        aipsio::reads(res, final(r)@, info_at(old(r)@, kind@)),
{
    proof {
        reveal(info_at);
    }
    let class_version = io(r.read_u32())?;
    if class_version != 2 {
        return Err(ColumnSetError::UnsupportedColumnVersion(class_version));
    }
    let original_name = io(r.read_string())?;
    let _subclass_version = io(r.read_u32())?;
    let data_manager_seq = io(r.read_u32())?;
    let shape_column = match kind {
        ColumnKind::Array => {
            let has_shape_column = io(r.read_bool())?;
            if has_shape_column {
                Some(io(r.read_string())?)
            } else {
                None
            }
        },
        _ => None,
    };
    Ok(ColumnInfo { original_name, data_manager_seq, shape_column })
}

fn read_infos(r: &mut Reader<'_>, columns: &[ColumnDesc]) -> (res: Result<
    Vec<ColumnInfo>,
    ColumnSetError,
>)
    ensures
        match infos_at(old(r)@, tabledesc::column_models(columns@), 0, Seq::empty()) {
            Ok((v, c)) => res is Ok && info_models(res->Ok_0@) == v && final(r)@ == c,
            Err((f, c)) => res is Err && res->Err_0@ == f && final(r)@ == c,
        },
{
    let ghost cols = tabledesc::column_models(columns@);
    let mut out: Vec<ColumnInfo> = Vec::new();
    let mut i: usize = 0;
    let ghost all = infos_at(r@, cols, 0, Seq::empty());
    assert(info_models(out@) =~= Seq::<InfoModel>::empty());
    while i < columns.len()
        invariant
            i <= columns@.len(),
            cols == tabledesc::column_models(columns@),
            all == infos_at(old(r)@, cols, 0, Seq::empty()),
            all == infos_at(r@, cols, i as nat, info_models(out@)),
        decreases columns@.len() - i,
    {
        let ghost before = out@;
        assert(cols[i as int].kind == columns@[i as int].kind@);
        let info = read_info(r, &columns[i].kind)?;
        out.push(info);
        assert(info_models(out@) =~= info_models(before).push(info@));
        i = i + 1;
    }
    Ok(out)
}

fn read_blobs(r: &mut Reader<'_>, heads: Vec<(String, u32)>) -> (res: Result<
    Vec<DataManager>,
    ColumnSetError,
>)
    ensures
        match blobs_at(old(r)@, head_models(heads@), 0, Seq::empty()) {
            Ok((v, c)) => res is Ok && manager_models(res->Ok_0@) == v && final(r)@ == c,
            Err((f, c)) => res is Err && res->Err_0@ == f && final(r)@ == c,
        },
{
    let ghost hs = head_models(heads@);
    let mut out: Vec<DataManager> = Vec::new();
    let mut i: usize = 0;
    let ghost all = blobs_at(r@, hs, 0, Seq::empty());
    assert(manager_models(out@) =~= Seq::<ManagerModel>::empty());
    while i < heads.len()
        invariant
            i <= heads@.len(),
            hs == head_models(heads@),
            all == blobs_at(old(r)@, hs, 0, Seq::empty()),
            all == blobs_at(r@, hs, i as nat, manager_models(out@)),
        decreases heads@.len() - i,
    {
        let ghost before = out@;
        let head = &heads[i];
        assert(hs[i as int] == (head.0@, head.1));
        let raw = io(r.read_opaque())?;
        let blob = if text_eq(head.0.as_str(), "StandardStMan") {
            DataManagerBlob::StandardStMan(parse_standard_stman(raw, head.0.as_str())?)
        } else {
            DataManagerBlob::Unsupported(vstd::slice::slice_to_vec(raw))
        };
        let dm = DataManager { manager_type: head.0.clone(), sequence_nr: head.1, blob };
        out.push(dm);
        assert(manager_models(out@) =~= manager_models(before).push(dm@));
        i = i + 1;
    }
    Ok(out)
}

/// Parse the ColumnSet payload following the `TableDesc` object.
///
/// `columns` supplies each column's kind (scalar / record / array), which
/// determines the shape of the per-column binding record.
pub fn parse_column_set(r: &mut Reader<'_>, columns: &[ColumnDesc]) -> (res: Result<
    ColumnSet,
    ColumnSetError,
>)
    ensures
        aipsio::reads(
            res,
            final(r)@,
            column_set_at(old(r)@, tabledesc::column_models(columns@)),
        ),
{
    let (version, nrow, storage_option) = io(read_rows(r))?;
    let seq_count = io(r.read_u32())?;
    let nr = io(r.read_u32())?;
    let heads = io(read_managers(r, nr))?;
    let infos = read_infos(r, columns)?;
    let data_managers = read_blobs(r, heads)?;
    Ok(ColumnSet { version, nrow, storage_option, seq_count, data_managers, columns: infos })
}

/// The first `n` values as 32-bit integers.
pub open spec fn u32s_bytes(big: bool, s: Seq<u32>, n: nat) -> Seq<u8>
    decreases n,
{
    if n == 0 {
        Seq::empty()
    } else {
        u32s_bytes(big, s, (n - 1) as nat) + aipsio::u32_bytes(big, s[n - 1])
    }
}

/// A framed block of unsigned integers.
pub open spec fn block_bytes(big: bool, s: Seq<u32>) -> Seq<u8> {
    aipsio::object_bytes(
        big,
        false,
        "Block"@,
        1,
        aipsio::u32_bytes(big, bytes::low32(s.len() as int)) + u32s_bytes(big, s, s.len()),
    )
}

/// Write a framed `"Block"` of `uInt`s: `u32` element count then data.
pub(crate) fn write_block_u32(w: &mut Writer, values: &[u32])
    ensures
        final(w)@ == old(w)@.put(block_bytes(old(w)@.big, values@)),
{
    let ghost start = w@;
    let ghost big = start.big;
    w.put_object_start("Block", 1);
    let ghost inner = w@;
    w.put_u32(length32(values.len()));
    let ghost head = aipsio::u32_bytes(big, bytes::low32(values@.len() as int));
    let mut i: usize = 0;
    proof {
        assert(head + u32s_bytes(big, values@, 0) =~= head);
    }
    while i < values.len()
        invariant
            i <= values@.len(),
            inner.big == big,
            w@ == inner.put(head + u32s_bytes(big, values@, i as nat)),
        decreases values@.len() - i,
    {
        let ghost so_far = head + u32s_bytes(big, values@, i as nat);
        w.put_u32(values[i]);
        proof {
            let b = aipsio::u32_bytes(big, values@[i as int]);
            aipsio::lemma_sheet_put(inner, so_far, b);
            assert(so_far + b =~= head + (u32s_bytes(big, values@, i as nat) + b));
        }
        i = i + 1;
    }
    w.put_object_end();
    proof {
        aipsio::lemma_sheet_object(
            start,
            false,
            "Block"@,
            1,
            head + u32s_bytes(big, values@, values@.len()),
        );
    }
}

/// A StandardStMan spec blob.
pub open spec fn standard_bytes(m: StandardModel) -> Seq<u8> {
    aipsio::object_bytes(
        true,
        true,
        "SSM"@,
        2,
        aipsio::string_bytes(true, m.data_manager_name) + block_bytes(true, m.column_offset)
            + block_bytes(true, m.col_index_map),
    )
}

/// Serialize a StandardStMan spec blob: a root `"SSM"` v2 AipsIO stream with
/// the manager name and the column-offset and column-index-map `Block`s.
/// `table.dat` is always canonical big endian, so the blob is too.
pub fn write_standard_stman(spec: &StandardStMan) -> (r: Vec<u8>)
    ensures
        r@ == standard_bytes(spec@),
{
    let mut w = Writer::new();
    let ghost start = w@;
    w.put_root_object_start("SSM", 2);
    let ghost inner = w@;
    w.put_string(spec.data_manager_name.as_str());
    write_block_u32(&mut w, spec.column_offset.as_slice());
    write_block_u32(&mut w, spec.col_index_map.as_slice());
    w.put_object_end();
    proof {
        let m = spec@;
        let a = aipsio::string_bytes(true, m.data_manager_name);
        let b = block_bytes(true, m.column_offset);
        let c = block_bytes(true, m.col_index_map);
        aipsio::lemma_sheet_put3(inner, a, b, c);
        aipsio::lemma_sheet_object(start, true, "SSM"@, 2, a + b + c);
        assert(start.put(standard_bytes(m)).body =~= standard_bytes(m));
    }
    w.into_bytes()
}

/// The binding of a column to the manager with sequence number `seq`; array
/// columns are written without a shape column.
pub open spec fn binding_bytes(big: bool, m: ColumnModel, seq: u32) -> Seq<u8> {
    aipsio::u32_bytes(big, 2) + aipsio::string_bytes(big, m.name) + aipsio::u32_bytes(big, 1)
        + aipsio::u32_bytes(big, seq) + (match m.kind {
        KindModel::Array => aipsio::bool_bytes(false),
        _ => Seq::empty(),
    })
}

fn write_binding(w: &mut Writer, column: &ColumnDesc, seq: u32)
    ensures
        final(w)@ == old(w)@.put(binding_bytes(old(w)@.big, column@, seq)),
{
    let ghost s = w@;
    let ghost big = s.big;
    w.put_u32(2);
    w.put_string(column.name.as_str());
    w.put_u32(1);
    w.put_u32(seq);
    let ghost at = w@;
    match &column.kind {
        ColumnKind::Array => w.put_bool(false),
        _ => {
            proof {
                aipsio::lemma_sheet_put_nothing(at);
            }
        },
    }
    proof {
        let tail: Seq<u8> = match column@.kind {
            KindModel::Array => aipsio::bool_bytes(false),
            _ => Seq::empty(),
        };
        assert(w@ == at.put(tail));
        aipsio::lemma_sheet_put5(
            s,
            aipsio::u32_bytes(big, 2),
            aipsio::string_bytes(big, column@.name),
            aipsio::u32_bytes(big, 1),
            aipsio::u32_bytes(big, seq),
            tail,
        );
    }
}

/// The bindings of the first `n` columns.
pub open spec fn bindings_bytes(big: bool, cols: Seq<ColumnModel>, seqs: Seq<u32>, n: nat) -> Seq<
    u8,
>
    decreases n,
{
    if n == 0 {
        Seq::empty()
    } else {
        bindings_bytes(big, cols, seqs, (n - 1) as nat) + binding_bytes(
            big,
            cols[n - 1],
            seqs[n - 1],
        )
    }
}

/// The number of columns that have a sequence number.
pub open spec fn paired(cols: Seq<ColumnModel>, seqs: Seq<u32>) -> nat {
    if cols.len() < seqs.len() {
        cols.len()
    } else {
        seqs.len()
    }
}

fn write_bindings(w: &mut Writer, columns: &[ColumnDesc], seqs: &[u32])
    ensures
        final(w)@ == old(w)@.put(
            bindings_bytes(
                old(w)@.big,
                tabledesc::column_models(columns@),
                seqs@,
                paired(tabledesc::column_models(columns@), seqs@),
            ),
        ),
{
    let ghost s = w@;
    let ghost big = s.big;
    let ghost cols = tabledesc::column_models(columns@);
    let n: usize = if columns.len() < seqs.len() { columns.len() } else { seqs.len() };
    let mut i: usize = 0;
    proof {
        aipsio::lemma_sheet_put_nothing(s);
    }
    while i < n
        invariant
            i <= n,
            n <= columns@.len(),
            n <= seqs@.len(),
            big == s.big,
            cols == tabledesc::column_models(columns@),
            w@ == s.put(bindings_bytes(big, cols, seqs@, i as nat)),
        decreases n - i,
    {
        assert(cols[i as int] == columns@[i as int]@);
        write_binding(w, &columns[i], seqs[i]);
        proof {
            aipsio::lemma_sheet_put(
                s,
                bindings_bytes(big, cols, seqs@, i as nat),
                binding_bytes(big, cols[i as int], seqs@[i as int]),
            );
        }
        i = i + 1;
    }
}

/// A data manager with its spec blob, as it is written.
#[derive(Debug, Clone, PartialEq)]
pub struct DmBlob {
    pub manager_type: String,
    pub sequence_nr: u32,
    pub blob: Vec<u8>,
}

/// What a [`DmBlob`] says.
pub struct DmBlobModel {
    pub manager_type: Seq<char>,
    pub sequence_nr: u32,
    pub blob: Seq<u8>,
}

impl View for DmBlob {
    type V = DmBlobModel;

    open spec fn view(&self) -> DmBlobModel {
        DmBlobModel {
            manager_type: self.manager_type@,
            sequence_nr: self.sequence_nr,
            blob: self.blob@,
        }
    }
}

/// What a list of managers says.
pub open spec fn dm_models(s: Seq<DmBlob>) -> Seq<DmBlobModel> {
    s.map_values(|m: DmBlob| m@)
}

/// The types and sequence numbers of the first `n` managers.
pub open spec fn dm_heads_bytes(big: bool, dms: Seq<DmBlobModel>, n: nat) -> Seq<u8>
    decreases n,
{
    if n == 0 {
        Seq::empty()
    } else {
        dm_heads_bytes(big, dms, (n - 1) as nat) + (aipsio::string_bytes(
            big,
            dms[n - 1].manager_type,
        ) + aipsio::u32_bytes(big, dms[n - 1].sequence_nr))
    }
}

/// The blobs of the first `n` managers.
pub open spec fn dm_blobs_bytes(big: bool, dms: Seq<DmBlobModel>, n: nat) -> Seq<u8>
    decreases n,
{
    if n == 0 {
        Seq::empty()
    } else {
        dm_blobs_bytes(big, dms, (n - 1) as nat) + aipsio::opaque_bytes(big, dms[n - 1].blob)
    }
}

/// Version, row count and storage option: the 64-bit form only where the row
/// count needs it.
pub open spec fn rows_bytes(big: bool, nrow: u64) -> Seq<u8> {
    if nrow > u32::MAX {
        aipsio::i32_bytes(big, -3i32 as i32) + aipsio::u64_bytes(big, nrow) + aipsio::i32_bytes(big, 2)
            + aipsio::i32_bytes(big, 0)
    } else {
        aipsio::i32_bytes(big, -2i32 as i32) + aipsio::u32_bytes(big, nrow as u32)
    }
}

/// A column set.
pub open spec fn column_set_bytes(
    big: bool,
    nrow: u64,
    seq_count: u32,
    dms: Seq<DmBlobModel>,
    cols: Seq<ColumnModel>,
    seqs: Seq<u32>,
) -> Seq<u8> {
    rows_bytes(big, nrow) + aipsio::u32_bytes(big, seq_count) + aipsio::u32_bytes(
        big,
        bytes::low32(dms.len() as int),
    ) + dm_heads_bytes(big, dms, dms.len()) + bindings_bytes(big, cols, seqs, paired(cols, seqs))
        + dm_blobs_bytes(big, dms, dms.len())
}

fn write_dm_heads(w: &mut Writer, dms: &[DmBlob])
    ensures
        final(w)@ == old(w)@.put(dm_heads_bytes(old(w)@.big, dm_models(dms@), dms@.len())),
{
    let ghost s = w@;
    let ghost big = s.big;
    let ghost ms = dm_models(dms@);
    let mut i: usize = 0;
    proof {
        aipsio::lemma_sheet_put_nothing(s);
    }
    while i < dms.len()
        invariant
            i <= dms@.len(),
            big == s.big,
            ms == dm_models(dms@),
            w@ == s.put(dm_heads_bytes(big, ms, i as nat)),
        decreases dms@.len() - i,
    {
        assert(ms[i as int] == dms@[i as int]@);
        let ghost at = w@;
        w.put_string(dms[i].manager_type.as_str());
        w.put_u32(dms[i].sequence_nr);
        proof {
            let a = aipsio::string_bytes(big, ms[i as int].manager_type);
            let b = aipsio::u32_bytes(big, ms[i as int].sequence_nr);
            aipsio::lemma_sheet_put(at, a, b);
            aipsio::lemma_sheet_put(s, dm_heads_bytes(big, ms, i as nat), a + b);
        }
        i = i + 1;
    }
}

fn write_dm_blobs(w: &mut Writer, dms: &[DmBlob])
    ensures
        final(w)@ == old(w)@.put(dm_blobs_bytes(old(w)@.big, dm_models(dms@), dms@.len())),
{
    let ghost s = w@;
    let ghost big = s.big;
    let ghost ms = dm_models(dms@);
    let mut i: usize = 0;
    proof {
        aipsio::lemma_sheet_put_nothing(s);
    }
    while i < dms.len()
        invariant
            i <= dms@.len(),
            big == s.big,
            ms == dm_models(dms@),
            w@ == s.put(dm_blobs_bytes(big, ms, i as nat)),
        decreases dms@.len() - i,
    {
        assert(ms[i as int] == dms@[i as int]@);
        w.put_opaque(dms[i].blob.as_slice());
        proof {
            aipsio::lemma_sheet_put(
                s,
                dm_blobs_bytes(big, ms, i as nat),
                aipsio::opaque_bytes(big, ms[i as int].blob),
            );
        }
        i = i + 1;
    }
}

fn write_rows(w: &mut Writer, nrow: u64)
    ensures
        final(w)@ == old(w)@.put(rows_bytes(old(w)@.big, nrow)),
{
    let ghost s = w@;
    let ghost big = s.big;
    if nrow > 0xffff_ffff {
        w.put_i32(-3);
        w.put_u64(nrow);
        w.put_i32(2);
        w.put_i32(0);
        proof {
            aipsio::lemma_sheet_put4(
                s,
                aipsio::i32_bytes(big, -3i32 as i32),
                aipsio::u64_bytes(big, nrow),
                aipsio::i32_bytes(big, 2),
                aipsio::i32_bytes(big, 0),
            );
        }
    } else {
        w.put_i32(-2);
        w.put_u32(nrow as u32);
        proof {
            aipsio::lemma_sheet_put(
                s,
                aipsio::i32_bytes(big, -2i32 as i32),
                aipsio::u32_bytes(big, nrow as u32),
            );
        }
    }
}

/// Serialize the ColumnSet payload that follows the `TableDesc` in
/// `table.dat`: `dms` lists the data managers with their spec blobs and
/// `seqs` the data-manager sequence number of each column.
pub fn write_multi_column_set(
    w: &mut Writer,
    nrow: u64,
    seq_count: u32,
    dms: &[DmBlob],
    columns: &[ColumnDesc],
    seqs: &[u32],
)
    ensures
        final(w)@ == old(w)@.put(
            column_set_bytes(
                old(w)@.big,
                nrow,
                seq_count,
                dm_models(dms@),
                tabledesc::column_models(columns@),
                seqs@,
            ),
        ),
{
    let ghost s = w@;
    let ghost big = s.big;
    let ghost ms = dm_models(dms@);
    let ghost cols = tabledesc::column_models(columns@);
    write_rows(w, nrow);
    w.put_u32(seq_count);
    w.put_u32(length32(dms.len()));
    write_dm_heads(w, dms);
    write_bindings(w, columns, seqs);
    write_dm_blobs(w, dms);
    proof {
        let a = rows_bytes(big, nrow);
        let b = aipsio::u32_bytes(big, seq_count);
        let c = aipsio::u32_bytes(big, bytes::low32(ms.len() as int));
        let d = dm_heads_bytes(big, ms, ms.len());
        let e = bindings_bytes(big, cols, seqs@, paired(cols, seqs@));
        aipsio::lemma_sheet_put5(s, a, b, c, d, e);
        aipsio::lemma_sheet_put(s, a + b + c + d + e, dm_blobs_bytes(big, ms, ms.len()));
    }
}

/// `n` columns, all bound to manager 0.
pub open spec fn all_zero(n: nat) -> Seq<u32> {
    Seq::new(n, |i: int| 0u32)
}

/// Serialize the ColumnSet payload for a single StandardStMan data manager
/// (sequence 0) owning every column, in the form with a 32-bit row count.
/// Array columns cannot be written this way.
pub fn write_column_set(
    w: &mut Writer,
    nrow: u64,
    seq_count: u32,
    columns: &[ColumnDesc],
    spec: &StandardStMan,
)
    requires
        nrow <= u32::MAX,
        forall|i: int| 0 <= i < columns@.len() ==> !((#[trigger] columns@[i]).kind is Array),
    ensures
        final(w)@ == old(w)@.put(
            column_set_bytes(
                old(w)@.big,
                nrow,
                seq_count,
                seq![
                    DmBlobModel {
                        manager_type: "StandardStMan"@,
                        sequence_nr: 0,
                        blob: standard_bytes(spec@),
                    },
                ],
                tabledesc::column_models(columns@),
                all_zero(columns@.len()),
            ),
        ),
{
    let mut dms: Vec<DmBlob> = Vec::new();
    dms.push(
        DmBlob {
            manager_type: "StandardStMan".to_owned(),
            sequence_nr: 0,
            blob: write_standard_stman(spec),
        },
    );
    let mut seqs: Vec<u32> = Vec::new();
    let mut i: usize = 0;
    while i < columns.len()
        invariant
            i <= columns@.len(),
            seqs@ == all_zero(i as nat),
        decreases columns@.len() - i,
    {
        seqs.push(0);
        i = i + 1;
        assert(seqs@ =~= all_zero(i as nat));
    }
    proof {
        assert(dm_models(dms@) =~= seq![
            DmBlobModel {
                manager_type: "StandardStMan"@,
                sequence_nr: 0,
                blob: standard_bytes(spec@),
            },
        ]);
    }
    write_multi_column_set(w, nrow, seq_count, dms.as_slice(), columns, seqs.as_slice());
}

} // verus!
