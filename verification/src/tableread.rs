//! Reading the cells of an opened table.
use crate::columnset;
use crate::columnset::{ManagerModel, StandardStMan};
use crate::ism;
use crate::ism::{IsmError, IsmFault, IsmFile, IsmModel};
use crate::ssm;
use crate::ssm::{SsmError, SsmFault, SsmModel, StandardStManFile};
use crate::table;
use crate::table::{
    effective_rows, lock_sync_nrrow, parse_table_dat, HeaderModel, StorageError, StorageFault,
    TableDat, TableDatError, TableDatFault, TableDatModel, TableHeader,
};
use crate::text::text_eq;
use vstd::prelude::*;

verus! {

/// Errors from reading columns.
#[derive(Debug)]
pub enum TableReadError {
    NoSuchColumn(String),
    UnsupportedColumn(String, String),
    RowOutOfRange { row: u64, column: String },
    BadSlice(Vec<i64>, Vec<i64>, Vec<u32>),
    UnsupportedRaw { name: String, reason: String },
    Ssm(SsmError),
    Ism(IsmError),
}

/// What a [`TableReadError`] says.
pub enum ReadFault {
    NoSuchColumn(Seq<char>),
    UnsupportedColumn(Seq<char>, Seq<char>),
    RowOutOfRange { row: u64, column: Seq<char> },
    BadSlice(Seq<i64>, Seq<i64>, Seq<u32>),
    UnsupportedRaw { name: Seq<char>, reason: Seq<char> },
    Ssm(SsmFault),
    Ism(IsmFault),
}

impl View for TableReadError {
    type V = ReadFault;

    open spec fn view(&self) -> ReadFault {
        match *self {
            TableReadError::NoSuchColumn(s) => ReadFault::NoSuchColumn(s@),
            TableReadError::UnsupportedColumn(a, b) => ReadFault::UnsupportedColumn(a@, b@),
            TableReadError::RowOutOfRange { row, column } => ReadFault::RowOutOfRange {
                row,
                column: column@,
            },
            TableReadError::BadSlice(a, b, c) => ReadFault::BadSlice(a@, b@, c@),
            TableReadError::UnsupportedRaw { name, reason } => ReadFault::UnsupportedRaw {
                name: name@,
                reason: reason@,
            },
            TableReadError::Ssm(e) => ReadFault::Ssm(e@),
            TableReadError::Ism(e) => ReadFault::Ism(e@),
        }
    }
}

/// The files of one data manager.
#[derive(Debug)]
pub struct ManagerFile {
    pub sequence_nr: u32,
    /// The data file, `table.f{sequence_nr}`.
    pub data: Vec<u8>,
    /// The array index file, `table.f{sequence_nr}i`, where there is one.
    pub index: Option<Vec<u8>>,
}

/// What a [`ManagerFile`] holds.
pub struct ManagerFileModel {
    pub sequence_nr: u32,
    pub data: Seq<u8>,
    pub index: Option<Seq<u8>>,
}

impl View for ManagerFile {
    type V = ManagerFileModel;

    open spec fn view(&self) -> ManagerFileModel {
        ManagerFileModel {
            sequence_nr: self.sequence_nr,
            data: self.data@,
            index: match self.index {
                Some(b) => Some(b@),
                None => None,
            },
        }
    }
}

pub open spec fn file_models(s: Seq<ManagerFile>) -> Seq<ManagerFileModel> {
    s.map_values(|f: ManagerFile| f@)
}

/// A CASA table: the parsed description and the opened data managers.
#[derive(Debug)]
pub struct Table {
    /// The table directory.
    pub path: String,
    pub writable: bool,
    pub locked: bool,
    pub dat: TableDat,
    /// StandardStMan data files, keyed by the manager's sequence number.
    pub ssm_files: Vec<(u32, StandardStManFile)>,
    /// IncrementalStMan data files, keyed by the manager's sequence number.
    pub ism_files: Vec<(u32, IsmFile)>,
}

/// What a [`Table`] holds.
pub struct TableModel {
    pub path: Seq<char>,
    pub writable: bool,
    pub locked: bool,
    pub dat: TableDatModel,
    pub ssm_files: Seq<(u32, SsmModel)>,
    pub ism_files: Seq<(u32, IsmModel)>,
}

pub open spec fn ssm_models(s: Seq<(u32, StandardStManFile)>) -> Seq<(u32, SsmModel)> {
    s.map_values(|f: (u32, StandardStManFile)| (f.0, f.1@))
}

pub open spec fn ism_models(s: Seq<(u32, IsmFile)>) -> Seq<(u32, IsmModel)> {
    s.map_values(|f: (u32, IsmFile)| (f.0, f.1@))
}

impl View for Table {
    type V = TableModel;

    open spec fn view(&self) -> TableModel {
        TableModel {
            path: self.path@,
            writable: self.writable,
            locked: self.locked,
            dat: self.dat@,
            ssm_files: ssm_models(self.ssm_files@),
            ism_files: ism_models(self.ism_files@),
        }
    }
}

/// The place, from `i` on, of the first entry with the key `seq`.
pub open spec fn keyed<T>(s: Seq<(u32, T)>, seq: u32, i: int) -> Option<T>
    decreases s.len() - i,
{
    if i < 0 || i >= s.len() {
        None
    } else if s[i].0 == seq {
        Some(s[i].1)
    } else {
        keyed(s, seq, i + 1)
    }
}

/// The first file, from `i` on, of the manager `seq`.
pub open spec fn manager_file(s: Seq<ManagerFileModel>, seq: u32, i: int) -> Option<
    ManagerFileModel,
>
    decreases s.len() - i,
{
    if i < 0 || i >= s.len() {
        None
    } else if s[i].sequence_nr == seq {
        Some(s[i])
    } else {
        manager_file(s, seq, i + 1)
    }
}

pub open spec fn is_tiled(manager_type: Seq<char>) -> bool {
    manager_type == "TiledColumnStMan"@ || manager_type == "TiledShapeStMan"@
}

/// The data managers from `k` on, opened in order after the others.
pub open spec fn opened_managers(
    dms: Seq<ManagerModel>,
    files: Seq<ManagerFileModel>,
    big: bool,
    k: int,
    ssm: Seq<(u32, SsmModel)>,
    ism: Seq<(u32, IsmModel)>,
) -> Result<(Seq<(u32, SsmModel)>, Seq<(u32, IsmModel)>), StorageFault>
    decreases dms.len() - k,
{
    if k < 0 || k >= dms.len() {
        Ok((ssm, ism))
    } else {
        let seq = dms[k].sequence_nr;
        let kind = dms[k].manager_type;
        if kind == "StandardStMan"@ {
            match manager_file(files, seq, 0) {
                None => Err(StorageFault::MissingFile(seq)),
                Some(f) => match ssm::parsed(f.data, big) {
                    Err(e) => Err(StorageFault::Ssm(e)),
                    Ok(m) => opened_managers(
                        dms,
                        files,
                        big,
                        k + 1,
                        ssm.push((seq, SsmModel { f0i: f.index, ..m })),
                        ism,
                    ),
                },
            }
        } else if kind == "IncrementalStMan"@ {
            match manager_file(files, seq, 0) {
                None => Err(StorageFault::MissingFile(seq)),
                Some(f) => match ism::parsed(f.data, big) {
                    Err(e) => Err(StorageFault::Ism(e)),
                    Ok(m) => opened_managers(dms, files, big, k + 1, ssm, ism.push((seq, m))),
                },
            }
        } else if is_tiled(kind) {
            opened_managers(dms, files, big, k + 1, ssm, ism)
        } else {
            Err(StorageFault::Unsupported(kind))
        }
    }
}

/// The row count that a lock file's sync record gives a table.
pub open spec fn synced(dat: TableDatModel, lock: Option<Seq<u8>>) -> TableDatModel {
    let n = match lock {
        Some(b) => table::sync_scan(b, 0, None),
        None => None,
    };
    match n {
        Some(n) if n != 0 => TableDatModel {
            header: HeaderModel { nrow: n, ..dat.header },
            ..dat
        },
        _ => dat,
    }
}

/// The table that the contents of its files make.
pub open spec fn table_of(
    path: Seq<char>,
    readonly: bool,
    dat: Seq<u8>,
    lock: Option<Seq<u8>>,
    files: Seq<ManagerFileModel>,
) -> Result<TableModel, TableDatFault> {
    match table::table_dat_of(dat) {
        Err(f) => Err(f),
        Ok(dat) => match opened_managers(
            dat.column_set.data_managers,
            files,
            dat.header.big_endian,
            0,
            Seq::empty(),
            Seq::empty(),
        ) {
            Err(f) => Err(TableDatFault::Storage(f)),
            Ok((ssm_files, ism_files)) => Ok(
                TableModel {
                    path,
                    writable: !readonly,
                    locked: false,
                    dat: synced(dat, lock),
                    ssm_files,
                    ism_files,
                },
            ),
        },
    }
}

pub(crate) fn find_file(files: &[ManagerFile], seq: u32) -> (r: Option<usize>)
    ensures
        match r {
            Some(i) => i < files@.len() && manager_file(file_models(files@), seq, 0) == Some(
                files@[i as int]@,
            ),
            None => manager_file(file_models(files@), seq, 0) is None,
        },
{
    let ghost all = manager_file(file_models(files@), seq, 0);
    let mut i: usize = 0;
    while i < files.len()
        invariant
            i <= files@.len(),
            all == manager_file(file_models(files@), seq, 0),
            all == manager_file(file_models(files@), seq, i as int),
        decreases files@.len() - i,
    {
        assert(file_models(files@)[i as int] == files@[i as int]@);
        if files[i].sequence_nr == seq {
            return Some(i);
        }
        i = i + 1;
    }
    None
}

fn storage<T>(e: StorageError) -> (r: Result<T, TableDatError>)
    ensures
        r is Err && r->Err_0@ == TableDatFault::Storage(e@),
{
    Err(TableDatError::Storage(e))
}

/// The tables' row count, as a lock file's sync record gives it.
pub open spec fn lock_view(lock: Option<&[u8]>) -> Option<Seq<u8>> {
    match lock {
        Some(b) => Some(b@),
        None => None,
    }
}

impl Table {
    /// Open a table from the contents of its files: `table.dat`,
    /// `table.lock` where there is one, and the files of its data managers.
    ///
    /// The row count comes from the lock file's sync record in preference to
    /// the header, where it is not zero. Tiled data managers are not opened.
    pub fn open(
        path: String,
        readonly: bool,
        table_dat: &[u8],
        table_lock: Option<&[u8]>,
        files: &[ManagerFile],
    ) -> (res: Result<Table, TableDatError>)
        ensures
            match table_of(path@, readonly, table_dat@, lock_view(table_lock), file_models(files@)) {
                Ok(m) => res is Ok && res->Ok_0@ == m,
                Err(f) => res is Err && res->Err_0@ == f,
            },
    {
        let parsed = parse_table_dat(table_dat)?;
        let ghost d0 = parsed@;
        let ghost fs = file_models(files@);
        let big: bool = parsed.header.big_endian;
        let mut ssm_files: Vec<(u32, StandardStManFile)> = Vec::new();
        let mut ism_files: Vec<(u32, IsmFile)> = Vec::new();
        let ghost dms = d0.column_set.data_managers;
        let ghost all = opened_managers(dms, fs, big, 0, Seq::empty(), Seq::empty());
        assert(ssm_models(ssm_files@) =~= Seq::<(u32, SsmModel)>::empty());
        assert(ism_models(ism_files@) =~= Seq::<(u32, IsmModel)>::empty());
        let mut k: usize = 0;
        while k < parsed.column_set.data_managers.len()
            invariant
                k <= dms.len(),
                d0 == parsed@,
                fs == file_models(files@),
                dms == columnset::manager_models(parsed.column_set.data_managers@),
                all == opened_managers(dms, fs, big, 0, Seq::empty(), Seq::empty()),
                all == opened_managers(
                    dms,
                    fs,
                    big,
                    k as int,
                    ssm_models(ssm_files@),
                    ism_models(ism_files@),
                ),
                table::table_dat_of(table_dat@) == Ok::<TableDatModel, TableDatFault>(d0),
                big == d0.header.big_endian,
            decreases dms.len() - k,
        {
            let dm = &parsed.column_set.data_managers[k];
            assert(dms[k as int] == dm@);
            let seq: u32 = dm.sequence_nr;
            let ghost ssm0 = ssm_models(ssm_files@);
            let ghost ism0 = ism_models(ism_files@);
            if text_eq(dm.manager_type.as_str(), "StandardStMan") {
                match find_file(files, seq) {
                    None => {
                        return storage(StorageError::MissingFile(seq));
                    },
                    Some(i) => {
                        match StandardStManFile::parse(files[i].data.as_slice(), big) {
                            Err(e) => {
                                return storage(StorageError::Ssm(e));
                            },
                            Ok(f) => {
                                let file = with_index(f, &files[i].index);
                                ssm_files.push((seq, file));
                                assert(ssm_models(ssm_files@) =~= ssm0.push((seq, file@)));
                            },
                        }
                    },
                }
            } else if text_eq(dm.manager_type.as_str(), "IncrementalStMan") {
                match find_file(files, seq) {
                    None => {
                        return storage(StorageError::MissingFile(seq));
                    },
                    Some(i) => {
                        match IsmFile::parse(files[i].data.as_slice(), big) {
                            Err(e) => {
                                return storage(StorageError::Ism(e));
                            },
                            Ok(f) => {
                                ism_files.push((seq, f));
                                assert(ism_models(ism_files@) =~= ism0.push((seq, f@)));
                            },
                        }
                    },
                }
            } else if tiled(dm.manager_type.as_str()) {
            } else {
                return storage(StorageError::Unsupported(dm.manager_type.clone()));
            }
            k = k + 1;
        }
        let TableDat { header, desc, column_set } = parsed;
        let sync = match table_lock {
            Some(b) => lock_sync_nrrow(b),
            None => None,
        };
        let nrow: u64 = effective_rows(header.nrow, sync);
        let TableHeader { version, nrow: _, big_endian, kind } = header;
        Ok(
            Table {
                path,
                writable: !readonly,
                locked: false,
                dat: TableDat {
                    header: TableHeader { version, nrow, big_endian, kind },
                    desc,
                    column_set,
                },
                ssm_files,
                ism_files,
            },
        )
    }
}

fn with_index(f: StandardStManFile, index: &Option<Vec<u8>>) -> (r: StandardStManFile)
    requires
        f@.f0i is None,
    ensures
        r@ == (SsmModel {
            f0i: match *index {
                Some(b) => Some(b@),
                None => None,
            },
            ..f@
        }),
{
    match index {
        Some(b) => f.with_array_file(vstd::slice::slice_to_vec(b.as_slice())),
        None => f,
    }
}

/// Whether a data manager of this type keeps its cells in tiles.
pub fn tiled(manager_type: &str) -> (r: bool)
    ensures
        r == is_tiled(manager_type@),
{
    text_eq(manager_type, "TiledColumnStMan") || text_eq(manager_type, "TiledShapeStMan")
}

/// An opened table has the row count of the last sync record of its lock file,
/// where that has one and it is not zero, and else the row count that it was
/// stored with; and nothing else of it changes.
pub proof fn law_rows_synced(dat: TableDatModel, lock: Seq<u8>, p: int, n: u64)
    requires
        forall|j: int| p < j ==> !#[trigger] table::sync_here(lock, j),
    ensures
        table::sync_rows(lock, p, n) ==> synced(dat, Some(lock)).header.nrow == if n == 0 {
            dat.header.nrow
        } else {
            n
        },
        p < 0 ==> synced(dat, Some(lock)) == dat,
        synced(dat, None) == dat,
        synced(dat, Some(lock)).desc == dat.desc,
        synced(dat, Some(lock)).column_set == dat.column_set,
        synced(dat, Some(lock)).header.big_endian == dat.header.big_endian,
{
    table::law_last_sync(lock, p, n);
}

} // verus!
