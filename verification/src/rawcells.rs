//! The bytes of numeric cells as they lie in a table's files.
use crate::aipsio::Cursor;
use crate::bytes;
use crate::bytes::{to_signed64, uint_from};
use crate::columnset::{StandardModel, StandardStMan};
use crate::record::DataType;
use crate::recordio;
use crate::ssm;
use crate::ssm::{u32_at, SsmError, SsmFault, SsmModel, StandardStManFile, ARRAY_REF_SIZE};
use crate::ssmcell;
use crate::ssmcell::{array_elem_size, element_count, place, read_dims, reversed, scalar_cell_size};
use crate::tablecells;
use crate::tablecells::ssm_position;
use crate::tabledesc::{ColumnDesc, ColumnKind, ColumnModel};
use crate::tableread;
use crate::tableread::{ReadFault, Table, TableModel, TableReadError};
use crate::text::text_eq;
use vstd::prelude::*;

verus! {

/// The logical shape (none for a scalar) and the element bytes of a cell.
#[derive(Debug, PartialEq)]
pub struct RawCell {
    pub shape: Vec<u32>,
    pub bytes: Vec<u8>,
}

/// What a [`RawCell`] holds.
#[verifier::ext_equal]
pub struct RawModel {
    pub shape: Seq<u32>,
    pub bytes: Seq<u8>,
}

impl View for RawCell {
    type V = RawModel;

    open spec fn view(&self) -> RawModel {
        RawModel { shape: self.shape@, bytes: self.bytes@ }
    }
}

pub open spec fn raw_models(s: Seq<RawCell>) -> Seq<RawModel> {
    s.map_values(|c: RawCell| c@)
}

/// The shape and the bytes of an array record with the dimensions `dims` (the
/// fastest varying one first), whose elements start at `p`.
pub open spec fn raw_body(f0i: Seq<u8>, offset: i64, p: int, dims: Seq<u32>, elem: DataType) -> Result<
    RawModel,
    SsmFault,
> {
    let n = ssmcell::product(dims);
    let end = p + ssmcell::array_bytes(elem, n);
    if n > usize::MAX || end > f0i.len() {
        Err(SsmFault::BadArrayRef { offset, len: f0i.len() as int })
    } else {
        Ok(RawModel { shape: dims.reverse(), bytes: f0i.subrange(p, end) })
    }
}

/// The shape and the bytes of the array record at `offset`.
pub open spec fn raw_record(f0i: Seq<u8>, big: bool, offset: i64, elem: DataType) -> Result<
    RawModel,
    SsmFault,
> {
    if offset < 0 || offset >= f0i.len() {
        Err(SsmFault::BadArrayRef { offset, len: f0i.len() as int })
    } else {
        match ssm::u32_in(f0i, 0, big) {
            Err(f) => Err(f),
            Ok(version) => {
                let p: int = if version > 0 {
                    offset + 4
                } else {
                    offset as int
                };
                if version > 0 && ssm::u32_in(f0i, offset as int, big) is Err {
                    Err(ssm::u32_in(f0i, offset as int, big)->Err_0)
                } else {
                    match ssm::u32_in(f0i, p, big) {
                        Err(f) => Err(f),
                        Ok(ndim) => match ssmcell::dims_in(
                            f0i,
                            p + 4,
                            ndim as nat,
                            big,
                            Seq::empty(),
                        ) {
                            Err(f) => Err(f),
                            Ok(dims) => raw_body(f0i, offset, p + 4 + 4 * ndim, dims, elem),
                        },
                    }
                }
            },
        }
    }
}

/// The bytes of an array are those that its value is decoded from.
pub proof fn law_raw_record_decodes(f0i: Seq<u8>, big: bool, offset: i64, elem: DataType)
    requires
        ssmcell::array_record(f0i, big, offset, elem) is Ok,
    ensures
        raw_record(f0i, big, offset, elem) matches Ok(raw) && {
            let a = ssmcell::array_record(f0i, big, offset, elem)->Ok_0;
            &&& raw.shape == a.shape
            &&& recordio::array_elements_at(
                Cursor { data: raw.bytes, big, pos: 0 },
                elem,
                ssmcell::product(a.shape.reverse()),
            ) matches Ok((data, _)) && data == a.data
        },
{
    let a = ssmcell::array_record(f0i, big, offset, elem)->Ok_0;
    let raw = raw_record(f0i, big, offset, elem)->Ok_0;
    assert(raw.shape.reverse().reverse() =~= raw.shape);
    let version = ssm::u32_in(f0i, 0, big)->Ok_0;
    let p: int = if version > 0 {
        offset + 4
    } else {
        offset as int
    };
    let ndim = ssm::u32_in(f0i, p, big)->Ok_0;
    let dims = ssmcell::dims_in(f0i, p + 4, ndim as nat, big, Seq::empty())->Ok_0;
    assert(dims.reverse().reverse() =~= dims);
}

impl SsmModel {
    /// The shape and the bytes of a cell.
    pub open spec fn raw_cell(
        self,
        manager: StandardModel,
        col: int,
        desc: ColumnModel,
        row: u64,
    ) -> Result<RawModel, SsmFault> {
        match ssmcell::column_place(manager, col) {
            Err(f) => Err(f),
            Ok((index, offset)) => if !(desc.kind is Array) {
                match self.cell(
                    index as int,
                    offset,
                    row,
                    ssmcell::cell_size(desc.data_type, desc.max_length),
                ) {
                    Err(f) => Err(f),
                    Ok(b) => Ok(RawModel { shape: Seq::empty(), bytes: b }),
                }
            } else {
                match self.cell(index as int, offset, row, ARRAY_REF_SIZE) {
                    Err(f) => Err(f),
                    Ok(cell) => {
                        let at = bytes::signed64(
                            bytes::uint_value(self.header.big_endian, cell) as u64,
                        );
                        if at == 0 {
                            Err(SsmFault::EmptyArray { row, column: desc.name })
                        } else {
                            match self.f0i {
                                None => Err(
                                    SsmFault::MissingArrayFile(desc.name, "table.f0i"@),
                                ),
                                Some(f0i) => raw_record(
                                    f0i,
                                    self.header.big_endian,
                                    at,
                                    desc.data_type,
                                ),
                            }
                        }
                    },
                }
            },
        }
    }
}

fn read_raw_body(f0i: &[u8], offset: i64, p: usize, dims: Vec<u32>, elem: DataType) -> (res: Result<
    RawCell,
    SsmError,
>)
    requires
        p <= f0i@.len(),
    ensures
        match raw_body(f0i@, offset, p as int, dims@, elem) {
            Ok(v) => res is Ok && res->Ok_0@ == v,
            Err(f) => res is Err && res->Err_0@ == f,
        },
{
    let len: usize = f0i.len();
    let n: usize = match element_count(dims.as_slice()) {
        Some(n) => n,
        None => {
            return Err(SsmError::BadArrayRef { offset, len });
        },
    };
    let size: usize = if elem == DataType::Bool {
        n / 8 + (if n % 8 == 0 { 0 } else { 1 })
    } else {
        match n.checked_mul(array_elem_size(elem)) {
            Some(s) => s,
            None => {
                return Err(SsmError::BadArrayRef { offset, len });
            },
        }
    };
    assert(size == ssmcell::array_bytes(elem, n as nat));
    if size > len - p {
        return Err(SsmError::BadArrayRef { offset, len });
    }
    let shape = reversed(&dims);
    let bytes = vstd::slice::slice_to_vec(vstd::slice::slice_subrange(f0i, p, p + size));
    Ok(RawCell { shape, bytes })
}

fn read_raw_record(f0i: &[u8], big: bool, offset: i64, elem: DataType) -> (res: Result<
    RawCell,
    SsmError,
>)
    ensures
        match raw_record(f0i@, big, offset, elem) {
            Ok(v) => res is Ok && res->Ok_0@ == v,
            Err(f) => res is Err && res->Err_0@ == f,
        },
{
    let len: usize = f0i.len();
    if offset < 0 || offset as u64 >= len as u64 {
        return Err(SsmError::BadArrayRef { offset, len });
    }
    let version: u32 = u32_at(f0i, 0, big)?;
    let mut p: usize = offset as usize;
    if version > 0 {
        let _: u32 = u32_at(f0i, p, big)?;
        p = p + 4;
    }
    let ndim: u32 = u32_at(f0i, p, big)?;
    p = p + 4;
    let dims = read_dims(f0i, p, ndim, big)?;
    proof {
        assert(p + 4 * ndim <= f0i@.len());
    }
    read_raw_body(f0i, offset, p + 4 * ndim as usize, dims, elem)
}

fn read_raw_cell(
    file: &StandardStManFile,
    manager: &StandardStMan,
    col_idx: usize,
    desc: &ColumnDesc,
    row: u64,
) -> (res: Result<RawCell, SsmError>)
    ensures
        match file@.raw_cell(manager@, col_idx as int, desc@, row) {
            Ok(v) => res is Ok && res->Ok_0@ == v,
            Err(f) => res is Err && res->Err_0@ == f,
        },
{
    let (index, offset) = place(manager, col_idx)?;
    let array: bool = match desc.kind {
        ColumnKind::Array => true,
        _ => false,
    };
    if !array {
        let cell = file.cell_bytes(index as usize, offset, row, scalar_cell_size(desc))?;
        let shape: Vec<u32> = Vec::new();
        assert(shape@ =~= Seq::<u32>::empty());
        return Ok(RawCell { shape, bytes: vstd::slice::slice_to_vec(cell) });
    }
    let cell = file.cell_bytes(index as usize, offset, row, ARRAY_REF_SIZE)?;
    let big: bool = file.header().big_endian;
    let at: i64 = to_signed64(uint_from(big, cell));
    if at == 0 {
        return Err(SsmError::EmptyArray { row, column: desc.name.clone() });
    }
    match file.f0i() {
        None => Err(SsmError::MissingArrayFile(desc.name.clone(), "table.f0i".to_owned())),
        Some(f0i) => read_raw_record(f0i, big, at, desc.data_type),
    }
}

impl TableModel {
    /// The shape and the bytes of a cell, of a column that its description
    /// binds to a StandardStMan.
    pub open spec fn raw_cell(self, col: int, row: u64) -> Result<RawModel, ReadFault> {
        let desc = self.dat.desc.columns[col];
        let (seq, within) = self.column_manager(col);
        if desc.data_manager_type != "StandardStMan"@ {
            Err(
                ReadFault::UnsupportedRaw {
                    name: desc.name,
                    reason: desc.data_manager_type + " data manager"@,
                },
            )
        } else {
            match tableread::keyed(self.ssm_files, seq, 0) {
                None => Err(
                    ReadFault::UnsupportedRaw {
                        name: desc.name,
                        reason: "no StandardStMan file"@,
                    },
                ),
                Some(file) => match self.standard(seq) {
                    None => Err(
                        ReadFault::UnsupportedRaw {
                            name: desc.name,
                            reason: "no StandardStMan spec"@,
                        },
                    ),
                    Some(manager) => match file.raw_cell(manager, within as int, desc, row) {
                        Ok(v) => Ok(v),
                        Err(f) => Err(ReadFault::Ssm(f)),
                    },
                },
            }
        }
    }

    /// The shapes and the bytes of the `n` cells from `row` on, after `acc`,
    /// or why the first that cannot be read cannot be.
    pub open spec fn raw_cells(self, col: int, row: int, n: nat, acc: Seq<RawModel>) -> Result<
        Seq<RawModel>,
        ReadFault,
    >
        decreases n,
    {
        if n == 0 {
            Ok(acc)
        } else {
            match self.raw_cell(col, row as u64) {
                Err(f) => Err(f),
                Ok(v) => self.raw_cells(col, row + 1, (n - 1) as nat, acc.push(v)),
            }
        }
    }
}

impl TableModel {
    /// Reading the rows from `row` on.
    proof fn lemma_raw_read(self, col: int, row: int, n: nat, acc: Seq<RawModel>)
        ensures
            self.raw_cells(col, row, n, acc) == tablecells::read_from(
                |r: u64| self.raw_cell(col, r),
                row,
                n,
                acc,
            ),
        decreases n,
    {
        if n > 0 {
            if let Ok(v) = self.raw_cell(col, row as u64) {
                self.lemma_raw_read(col, row + 1, (n - 1) as nat, acc.push(v));
            }
        }
    }

    /// Reading the bytes of a column over `n` rows: entry `i` is the cell of
    /// row `start + i`. Where one cannot be read, the first of them, in row
    /// `start + k`, says why.
    pub proof fn law_raw_column_read(self, col: int, start: int, n: nat, i: int) -> (k: int)
        ensures
            match self.raw_cells(col, start, n, Seq::empty()) {
                Ok(s) => {
                    &&& s.len() == n
                    &&& 0 <= i < n ==> self.raw_cell(col, (start + i) as u64) == Ok::<
                        RawModel,
                        ReadFault,
                    >(s[i])
                },
                Err(f) => 0 <= k < n && self.raw_cell(col, (start + k) as u64) == Err::<
                    RawModel,
                    ReadFault,
                >(f) && self.raw_cells(col, start, k as nat, Seq::empty()) is Ok,
            },
    {
        let f = |r: u64| self.raw_cell(col, r);
        self.lemma_raw_read(col, start, n, Seq::empty());
        let k = tablecells::lemma_read_from(f, start, n, Seq::empty(), i);
        if k >= 0 {
            self.lemma_raw_read(col, start, k as nat, Seq::empty());
        }
        k
    }

    /// The bytes of a scalar cell are those that its value is decoded from, and
    /// those of an array the bytes of its elements.
    pub proof fn law_raw_cell_decodes(self, col: int, row: u64)
        requires
            self.storage_type(col) == "StandardStMan"@,
            self.dat.desc.columns[col].data_type != DataType::Bool,
            self.dat.desc.columns[col].data_type != DataType::String,
            self.cell(col, row) is Ok,
            self.dat.desc.columns[col].data_manager_type == "StandardStMan"@,
        ensures
            self.raw_cell(col, row) matches Ok(raw) && {
                let cd = self.dat.desc.columns[col];
                let big = tableread::keyed(
                    self.ssm_files,
                    self.column_manager(col).0,
                    0,
                )->0.header.big_endian;
                &&& !(cd.kind is Array) ==> ssmcell::decoded(raw.bytes, cd, big) == Ok::<
                    crate::record::ValueModel,
                    SsmFault,
                >(self.cell(col, row)->Ok_0)
                &&& cd.kind is Array ==> (self.cell(
                    col,
                    row,
                ) matches Ok(crate::record::ValueModel::Array(a)) && raw.shape == a.shape && (
                recordio::array_elements_at(
                    Cursor { data: raw.bytes, big, pos: 0 },
                    cd.data_type,
                    ssmcell::product(a.shape.reverse()),
                ) matches Ok((data, _)) && data == a.data))
            },
    {
        let cd = self.dat.desc.columns[col];
        let (seq, within) = self.column_manager(col);
        let file = tableread::keyed(self.ssm_files, seq, 0)->0;
        let manager = self.standard(seq)->0;
        if cd.kind is Array {
            let (index, offset) = ssmcell::column_place(manager, within as int)->Ok_0;
            let cell = file.cell(index as int, offset, row, ARRAY_REF_SIZE)->Ok_0;
            let at = bytes::signed64(bytes::uint_value(file.header.big_endian, cell) as u64);
            law_raw_record_decodes(file.f0i->0, file.header.big_endian, at, cd.data_type);
        }
    }
}

fn unsupported_raw(name: &String, reason: &str) -> (e: TableReadError)
    ensures
        e@ == (ReadFault::UnsupportedRaw { name: name@, reason: reason@ }),
{
    TableReadError::UnsupportedRaw { name: name.clone(), reason: reason.to_owned() }
}

impl Table {
    fn getcell_raw(&self, col_idx: usize, row: u64) -> (res: Result<RawCell, TableReadError>)
        requires
            self@.has_column(col_idx as int),
        ensures
            match self@.raw_cell(col_idx as int, row) {
                Ok(v) => res is Ok && res->Ok_0@ == v,
                Err(f) => res is Err && res->Err_0@ == f,
            },
    {
        assert(self@.dat.desc.columns[col_idx as int]
            == self.dat.desc.columns@[col_idx as int]@);
        let desc = &self.dat.desc.columns[col_idx];
        if !text_eq(desc.data_manager_type.as_str(), "StandardStMan") {
            let mut reason: String = desc.data_manager_type.clone();
            reason.append(" data manager");
            return Err(unsupported_raw(&desc.name, reason.as_str()));
        }
        let (seq, within) = self.column_manager(col_idx);
        let file = match ssm_position(&self.ssm_files, seq) {
            Some(i) => &self.ssm_files[i].1,
            None => {
                return Err(unsupported_raw(&desc.name, "no StandardStMan file"));
            },
        };
        let manager = match self.standard_manager(seq) {
            Some(m) => m,
            None => {
                return Err(unsupported_raw(&desc.name, "no StandardStMan spec"));
            },
        };
        match read_raw_cell(file, manager, within, desc, row) {
            Ok(v) => Ok(v),
            Err(e) => Err(TableReadError::Ssm(e)),
        }
    }

    /// The element bytes of `nrow` cells starting at `startrow`, as they lie
    /// in the data files, each with the cell's shape. Numeric StandardStMan
    /// cells only.
    pub fn getcol_raw(&self, col_idx: usize, startrow: u64, nrow: u64) -> (res: Result<
        Vec<RawCell>,
        TableReadError,
    >)
        requires
            self@.has_column(col_idx as int),
            startrow + nrow <= u64::MAX,
        ensures
            match self@.raw_cells(col_idx as int, startrow as int, nrow as nat, Seq::empty()) {
                Ok(s) => res is Ok && raw_models(res->Ok_0@) == s,
                Err(f) => res is Err && res->Err_0@ == f,
            },
            res matches Ok(vs) ==> vs@.len() == nrow && forall|i: int|
                0 <= i < nrow ==> self@.raw_cell(col_idx as int, (startrow + i) as u64) == Ok::<
                    RawModel,
                    ReadFault,
                >((#[trigger] vs@[i])@),
    {
        let ghost all = self@.raw_cells(
            col_idx as int,
            startrow as int,
            nrow as nat,
            Seq::empty(),
        );
        let mut out: Vec<RawCell> = Vec::new();
        assert(raw_models(out@) =~= Seq::<RawModel>::empty());
        let mut i: u64 = 0;
        while i < nrow
            invariant
                i <= nrow,
                startrow + nrow <= u64::MAX,
                self@.has_column(col_idx as int),
                all == self@.raw_cells(
                    col_idx as int,
                    startrow as int,
                    nrow as nat,
                    Seq::empty(),
                ),
                all == self@.raw_cells(
                    col_idx as int,
                    startrow + i,
                    (nrow - i) as nat,
                    raw_models(out@),
                ),
            decreases nrow - i,
        {
            let ghost before = raw_models(out@);
            let v = self.getcell_raw(col_idx, startrow + i)?;
            out.push(v);
            assert(raw_models(out@) =~= before.push(v@));
            i = i + 1;
        }
        proof {
            let s = raw_models(out@);
            let (c, start) = (col_idx as int, startrow as int);
            assert(s.len() == out@.len());
            let _ = self@.law_raw_column_read(c, start, nrow as nat, 0);
            assert forall|i: int| 0 <= i < nrow implies self@.raw_cell(
                col_idx as int,
                (startrow + i) as u64,
            ) == Ok::<RawModel, ReadFault>((#[trigger] out@[i])@) by {
                let _ = self@.law_raw_column_read(c, start, nrow as nat, i);
                assert(s[i] == out@[i]@);
            }
        }
        Ok(out)
    }
}

} // verus!
