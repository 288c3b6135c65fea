//! The column reads of an opened table: cells, columns and slices of cells.
use crate::bytes;
use crate::celllaw;
use crate::columnset;
use crate::columnset::{BlobModel, DataManagerBlob, InfoModel, ManagerModel, StandardModel, StandardStMan};
use crate::ism::{IsmFile, IsmModel};
use crate::record::{ArrayModel, DataType, RecordValue, ValueModel};
use crate::record;
use crate::recordio;
use crate::slice;
use crate::slice::slice_array_value;
use crate::ssm::{SsmFault, SsmModel, StandardStManFile};
use crate::ssmcell;
use crate::ssmcell::read_array_cell;
use crate::tabledesc::ColumnKind;
use crate::tableread;
use crate::tableread::{tiled, ReadFault, Table, TableModel, TableReadError};
use crate::text::text_eq;
use vstd::prelude::*;

verus! {

/// How many of the first `n` columns are bound to the manager `seq`.
pub open spec fn bound_before(cols: Seq<InfoModel>, seq: u32, n: nat) -> nat
    decreases n,
{
    if n == 0 {
        0
    } else {
        bound_before(cols, seq, (n - 1) as nat) + if cols[n - 1].data_manager_seq == seq {
            1nat
        } else {
            0nat
        }
    }
}

/// The first manager, from `i` on, of the sequence number `seq`.
pub open spec fn manager_of(ms: Seq<ManagerModel>, seq: u32, i: int) -> Option<ManagerModel>
    decreases ms.len() - i,
{
    if i < 0 || i >= ms.len() {
        None
    } else if ms[i].sequence_nr == seq {
        Some(ms[i])
    } else {
        manager_of(ms, seq, i + 1)
    }
}

impl TableModel {
    /// Whether a column is there, in the description and in the column set.
    pub open spec fn has_column(self, col: int) -> bool {
        0 <= col < self.dat.desc.columns.len() && col < self.dat.column_set.columns.len()
    }

    /// The sequence number of a column's manager and the column's place
    /// among the manager's columns.
    pub open spec fn column_manager(self, col: int) -> (u32, nat) {
        let cols = self.dat.column_set.columns;
        let seq = cols[col].data_manager_seq;
        (seq, bound_before(cols, seq, col as nat))
    }

    /// The type of the manager that a column is bound to, or what the
    /// column's description says where the column set has no such manager.
    pub open spec fn storage_type(self, col: int) -> Seq<char> {
        match manager_of(self.dat.column_set.data_managers, self.column_manager(col).0, 0) {
            Some(m) => m.manager_type,
            None => self.dat.desc.columns[col].data_manager_type,
        }
    }

    /// What a StandardStMan manager notes of its columns.
    pub open spec fn standard(self, seq: u32) -> Option<StandardModel> {
        match manager_of(self.dat.column_set.data_managers, seq, 0) {
            Some(m) => match m.blob {
                BlobModel::StandardStMan(s) => Some(s),
                _ => None,
            },
            None => None,
        }
    }

    /// A cell of a column bound to a StandardStMan manager.
    pub open spec fn standard_cell(self, col: int, row: u64) -> Result<ValueModel, ReadFault> {
        let desc = self.dat.desc.columns[col];
        let (seq, within) = self.column_manager(col);
        match tableread::keyed(self.ssm_files, seq, 0) {
            None => Err(ReadFault::UnsupportedColumn(desc.name, "StandardStMan"@)),
            Some(file) => match self.standard(seq) {
                None => Err(ReadFault::UnsupportedColumn(desc.name, "no spec"@)),
                Some(manager) => {
                    let v = if desc.kind is Array {
                        file.array(manager, within as int, desc, row)
                    } else {
                        file.scalar(manager, within as int, desc, row)
                    };
                    match v {
                        Ok(v) => Ok(v),
                        Err(f) => Err(ReadFault::Ssm(f)),
                    }
                },
            },
        }
    }

    /// A cell of a column bound to an IncrementalStMan manager.
    pub open spec fn incremental_cell(self, col: int, row: u64) -> Result<ValueModel, ReadFault> {
        let desc = self.dat.desc.columns[col];
        let (seq, within) = self.column_manager(col);
        match tableread::keyed(self.ism_files, seq, 0) {
            None => Err(ReadFault::UnsupportedColumn(desc.name, "IncrementalStMan"@)),
            Some(file) => match file.scalar(within as int, desc, row) {
                Ok(v) => Ok(v),
                Err(f) => Err(ReadFault::Ism(f)),
            },
        }
    }

    /// A cell. The column set says which manager holds it, whatever the
    /// column's description says.
    pub open spec fn cell(self, col: int, row: u64) -> Result<ValueModel, ReadFault> {
        let kind = self.storage_type(col);
        let name = self.dat.desc.columns[col].name;
        if kind == "StandardStMan"@ {
            self.standard_cell(col, row)
        } else if kind == "IncrementalStMan"@ {
            self.incremental_cell(col, row)
        } else if tableread::is_tiled(kind) {
            Err(ReadFault::UnsupportedColumn(name, "tiled storage manager"@))
        } else {
            Err(ReadFault::UnsupportedColumn(name, kind))
        }
    }

    /// The cells of the `n` rows from `row` on, after `acc`, or why the
    /// first that cannot be read cannot be.
    pub open spec fn cells(self, col: int, row: int, n: nat, acc: Seq<ValueModel>) -> Result<
        Seq<ValueModel>,
        ReadFault,
    >
        decreases n,
    {
        if n == 0 {
            Ok(acc)
        } else {
            match self.cell(col, row as u64) {
                Err(f) => Err(f),
                Ok(v) => self.cells(col, row + 1, (n - 1) as nat, acc.push(v)),
            }
        }
    }

    /// The part of an array cell between `blc` and `trc`. A scalar cell is
    /// not cut, nor is any where no bounds are given.
    pub open spec fn cell_slice(self, col: int, row: u64, blc: Seq<i64>, trc: Seq<i64>) -> Result<
        ValueModel,
        ReadFault,
    > {
        match self.cell(col, row) {
            Err(f) => Err(f),
            Ok(ValueModel::Array(a)) => if blc.len() == 0 && trc.len() == 0 {
                Ok(ValueModel::Array(a))
            } else {
                match slice::sliced(a, blc, trc) {
                    Err(f) => Err(f),
                    Ok(b) => Ok(ValueModel::Array(b)),
                }
            },
            Ok(v) => Ok(v),
        }
    }

    /// The slices of the `n` cells from `row` on, after `acc`.
    pub open spec fn cell_slices(
        self,
        col: int,
        row: int,
        n: nat,
        blc: Seq<i64>,
        trc: Seq<i64>,
        acc: Seq<ValueModel>,
    ) -> Result<Seq<ValueModel>, ReadFault>
        decreases n,
    {
        if n == 0 {
            Ok(acc)
        } else {
            match self.cell_slice(col, row as u64, blc, trc) {
                Err(f) => Err(f),
                Ok(v) => self.cell_slices(col, row + 1, (n - 1) as nat, blc, trc, acc.push(v)),
            }
        }
    }

    /// Whether a column's cells are numbers of one size that lie in the
    /// data file as they are: numeric StandardStMan columns, scalar or of a
    /// fixed shape.
    pub open spec fn raw_supported(self, col: int) -> bool {
        let cols = self.dat.desc.columns;
        &&& 0 <= col < cols.len()
        &&& cols[col].data_type != DataType::String
        &&& cols[col].data_type != DataType::Table
        &&& cols[col].data_type != DataType::Record
        &&& cols[col].data_type != DataType::Char
        &&& cols[col].data_type != DataType::Bool
        &&& cols[col].kind is Array ==> (cols[col].shape matches Some(s) && s.len() > 0)
        &&& cols[col].data_manager_type == "StandardStMan"@
    }
}

proof fn lemma_product_push(dims: Seq<u32>, d: u32)
    ensures
        ssmcell::product(seq![d] + dims) == d * ssmcell::product(dims),
    decreases dims.len(),
{
    if dims.len() == 0 {
        assert((seq![d] + dims).drop_last() =~= Seq::<u32>::empty());
        reveal_with_fuel(ssmcell::product, 2);
        assert(1 * d as nat == d * 1) by (nonlinear_arith);
    } else {
        lemma_product_push(dims.drop_last(), d);
        assert((seq![d] + dims).drop_last() =~= seq![d] + dims.drop_last());
        let p = ssmcell::product(dims.drop_last());
        let l = dims.last() as nat;
        assert((d * p) * l == d * (p * l)) by (nonlinear_arith);
    }
}

pub proof fn lemma_product_reverse(dims: Seq<u32>)
    ensures
        ssmcell::product(dims.reverse()) == ssmcell::product(dims),
    decreases dims.len(),
{
    if dims.len() == 0 {
        assert(dims.reverse() =~= dims);
    } else {
        lemma_product_reverse(dims.drop_last());
        lemma_product_push(dims.drop_last().reverse(), dims.last());
        assert(dims.reverse() =~= seq![dims.last()] + dims.drop_last().reverse());
        let p = ssmcell::product(dims.drop_last());
        let l = dims.last() as nat;
        assert(l * p == p * l) by (nonlinear_arith);
    }
}

proof fn lemma_elements_len<T: recordio::Element>(c: crate::aipsio::Cursor, n: nat, acc: Seq<T::V>)
    ensures
        recordio::elements_at::<T>(c, n, acc) matches Ok((s, _)) ==> s.len() == acc.len() + n,
    decreases n,
{
    if n > 0 {
        match T::at(c) {
            Err(_) => {},
            Ok((v, d)) => {
                lemma_elements_len::<T>(d, (n - 1) as nat, acc.push(v));
            },
        }
    }
}

/// Every array read holds as many elements as its shape says.
pub proof fn law_array_filled(f0i: Seq<u8>, big: bool, offset: i64, elem: DataType)
    ensures
        ssmcell::array_record(f0i, big, offset, elem) matches Ok(a) ==> ssmcell::product(a.shape)
            == celllaw::element_count(a.data) && ssmcell::product(a.shape) <= usize::MAX,
{
    match ssmcell::array_record(f0i, big, offset, elem) {
        Err(_) => {},
        Ok(a) => {
            let version = crate::ssm::u32_in(f0i, 0, big)->Ok_0;
            let p: int = if version > 0 {
                offset + 4
            } else {
                offset as int
            };
            let ndim = crate::ssm::u32_in(f0i, p, big)->Ok_0;
            let dims = ssmcell::dims_in(f0i, p + 4, ndim as nat, big, Seq::empty())->Ok_0;
            let n = ssmcell::product(dims);
            let q = p + 4 + 4 * ndim;
            let c = crate::aipsio::Cursor {
                data: f0i.subrange(q, q + ssmcell::array_bytes(elem, n)),
                big,
                pos: 0,
            };
            lemma_product_reverse(dims);
            lemma_elements_len::<u8>(c, n, Seq::empty());
            lemma_elements_len::<i16>(c, n, Seq::empty());
            lemma_elements_len::<u16>(c, n, Seq::empty());
            lemma_elements_len::<i32>(c, n, Seq::empty());
            lemma_elements_len::<u32>(c, n, Seq::empty());
            lemma_elements_len::<i64>(c, n, Seq::empty());
            lemma_elements_len::<u64>(c, n, Seq::empty());
            lemma_elements_len::<(u32, u32)>(c, n, Seq::empty());
            lemma_elements_len::<(u64, u64)>(c, n, Seq::empty());
            assert(ssmcell::array_body(f0i, big, offset, q, dims, elem) == Ok::<
                ArrayModel,
                SsmFault,
            >(a));
        },
    }
}

impl TableModel {
    /// Every array cell of a table holds as many elements as its shape says.
    pub proof fn law_cell_filled(self, col: int, row: u64)
        ensures
            self.cell(col, row) matches Ok(ValueModel::Array(a)) ==> ssmcell::product(a.shape)
                == celllaw::element_count(a.data) && ssmcell::product(a.shape) <= usize::MAX,
    {
        let desc = self.dat.desc.columns[col];
        let (seq, within) = self.column_manager(col);
        match tableread::keyed(self.ssm_files, seq, 0) {
            None => {},
            Some(file) => {
                match self.standard(seq) {
                    None => {},
                    Some(manager) => {
                        if desc.kind is Array {
                            file.lemma_array_filled(manager, within as int, desc, row);
                        } else {
                            file.lemma_scalar_plain(manager, within as int, desc, row);
                        }
                    },
                }
            },
        }
        match tableread::keyed(self.ism_files, seq, 0) {
            None => {},
            Some(file) => {
                lemma_incremental_plain(file, within as int, desc, row);
            },
        }
    }
}

/// Reading the `n` rows from `row` on, after `acc`.
pub open spec fn read_from<T>(
    f: spec_fn(u64) -> Result<T, ReadFault>,
    row: int,
    n: nat,
    acc: Seq<T>,
) -> Result<Seq<T>, ReadFault>
    decreases n,
{
    if n == 0 {
        Ok(acc)
    } else {
        match f(row as u64) {
            Err(e) => Err(e),
            Ok(v) => read_from(f, row + 1, (n - 1) as nat, acc.push(v)),
        }
    }
}

/// What is read of the rows from `row` on comes after what was read before.
pub proof fn lemma_read_from<T>(
    f: spec_fn(u64) -> Result<T, ReadFault>,
    row: int,
    n: nat,
    acc: Seq<T>,
    i: int,
) -> (k: int)
    ensures
        match read_from(f, row, n, acc) {
            Ok(s) => {
                &&& s.len() == acc.len() + n
                &&& 0 <= i < acc.len() ==> s[i] == acc[i]
                &&& acc.len() <= i < s.len() ==> f((row + (i - acc.len())) as u64) == Ok::<
                    T,
                    ReadFault,
                >(s[i])
            },
            Err(e) => 0 <= k < n && f((row + k) as u64) == Err::<T, ReadFault>(e)
                && read_from(f, row, k as nat, acc) is Ok,
        },
    decreases n,
{
    if n > 0 {
        match f(row as u64) {
            Err(_) => {
                assert(read_from(f, row, 0, acc) is Ok);
                0
            },
            Ok(v) => {
                let k = lemma_read_from(f, row + 1, (n - 1) as nat, acc.push(v), i);
                assert(acc.push(v)[acc.len() as int] == v);
                assert(k >= 0 ==> read_from(f, row, (k + 1) as nat, acc) == read_from(
                    f,
                    row + 1,
                    k as nat,
                    acc.push(v),
                ));
                k + 1
            },
        }
    } else {
        0
    }
}

impl TableModel {
    /// Reading the rows from `row` on.
    proof fn lemma_cells_read(
        self,
        col: int,
        row: int,
        n: nat,
        acc: Seq<ValueModel>,
    )
        ensures
            self.cells(col, row, n, acc) == read_from(
                |r: u64| self.cell(col, r),
                row,
                n,
                acc,
            ),
        decreases n,
    {
        if n > 0 {
            if let Ok(v) = self.cell(col, row as u64) {
                self.lemma_cells_read(col, row + 1, (n - 1) as nat, acc.push(v));
            }
        }
    }

    /// Reading a column over `n` rows: entry `i` is the cell of row `start + i`.
    /// Where one cannot be read, the first of them, in row `start + k`, says why.
    pub proof fn law_column_read(
        self,
        col: int,
        start: int,
        n: nat,
        i: int,
    ) -> (k: int)
        ensures
            match self.cells(col, start, n, Seq::empty()) {
                Ok(s) => {
                    &&& s.len() == n
                    &&& 0 <= i < n ==> self.cell(col, (start + i) as u64) == Ok::<ValueModel, ReadFault>(
                        s[i],
                    )
                },
                Err(f) => 0 <= k < n && self.cell(col, (start + k) as u64) == Err::<ValueModel, ReadFault>(
                    f,
                ) && self.cells(col, start, k as nat, Seq::empty()) is Ok,
            },
    {
        let f = |r: u64| self.cell(col, r);
        self.lemma_cells_read(col, start, n, Seq::empty());
        let k = lemma_read_from(f, start, n, Seq::empty(), i);
        if k >= 0 {
            self.lemma_cells_read(col, start, k as nat, Seq::empty());
        }
        k
    }

    /// Reading the rows from `row` on.
    proof fn lemma_slices_read(
        self,
        col: int,
        row: int,
        n: nat,
        blc: Seq<i64>,
        trc: Seq<i64>,
        acc: Seq<ValueModel>,
    )
        ensures
            self.cell_slices(col, row, n, blc, trc, acc) == read_from(
                |r: u64| self.cell_slice(col, r, blc, trc),
                row,
                n,
                acc,
            ),
        decreases n,
    {
        if n > 0 {
            if let Ok(v) = self.cell_slice(col, row as u64, blc, trc) {
                self.lemma_slices_read(col, row + 1, (n - 1) as nat, blc, trc, acc.push(v));
            }
        }
    }

    /// Reading slices of a column over `n` rows: entry `i` is the slice of the
    /// cell of row `start + i`. Where one cannot be read, the first of them, in
    /// row `start + k`, says why.
    pub proof fn law_column_sliced(
        self,
        col: int,
        start: int,
        n: nat,
        blc: Seq<i64>,
        trc: Seq<i64>,
        i: int,
    ) -> (k: int)
        ensures
            match self.cell_slices(col, start, n, blc, trc, Seq::empty()) {
                Ok(s) => {
                    &&& s.len() == n
                    &&& 0 <= i < n ==> self.cell_slice(col, (start + i) as u64, blc, trc) == Ok::<ValueModel, ReadFault>(
                        s[i],
                    )
                },
                Err(f) => 0 <= k < n && self.cell_slice(col, (start + k) as u64, blc, trc) == Err::<ValueModel, ReadFault>(
                    f,
                ) && self.cell_slices(col, start, k as nat, blc, trc, Seq::empty()) is Ok,
            },
    {
        let f = |r: u64| self.cell_slice(col, r, blc, trc);
        self.lemma_slices_read(col, start, n, blc, trc, Seq::empty());
        let k = lemma_read_from(f, start, n, Seq::empty(), i);
        if k >= 0 {
            self.lemma_slices_read(col, start, k as nat, blc, trc, Seq::empty());
        }
        k
    }

    /// The slice of an array cell between two corners: the element at any
    /// coordinates of it is the element of the cell at the coordinates greater
    /// by the first corner. Without corners it is the cell itself, as it is for
    /// a scalar.
    pub proof fn law_cell_sliced(
        self,
        col: int,
        row: u64,
        blc: Seq<i64>,
        trc: Seq<i64>,
        k: Seq<int>,
    )
        ensures
            match self.cell(col, row) {
                Err(f) => self.cell_slice(col, row, blc, trc) == Err::<ValueModel, ReadFault>(f),
                Ok(ValueModel::Array(a)) => if blc.len() == 0 && trc.len() == 0 {
                    self.cell_slice(col, row, blc, trc) == Ok::<ValueModel, ReadFault>(
                        ValueModel::Array(a),
                    )
                } else if blc.len() == a.shape.len() && trc.len() == a.shape.len() && forall|d: int|
                    0 <= d < a.shape.len() ==> 0 <= #[trigger] blc[d] <= trc[d] && trc[d]
                        < a.shape[d] {
                    self.cell_slice(col, row, blc, trc) matches Ok(ValueModel::Array(b)) && {
                        &&& b.shape.len() == a.shape.len()
                        &&& forall|d: int|
                            0 <= d < a.shape.len() ==> #[trigger] b.shape[d] == trc[d] - blc[d] + 1
                        &&& k.len() == a.shape.len() && (forall|d: int|
                            0 <= d < k.len() ==> 0 <= #[trigger] k[d] <= trc[d] - blc[d])
                            ==> slice::same_element(
                            b.data,
                            slice::row_major(b.shape, k),
                            a.data,
                            slice::row_major(a.shape, Seq::new(k.len(), |d: int| blc[d] + k[d])),
                        )
                    }
                } else {
                    self.cell_slice(col, row, blc, trc) == Err::<ValueModel, ReadFault>(
                        ReadFault::BadSlice(blc, trc, a.shape),
                    )
                },
                Ok(v) => self.cell_slice(col, row, blc, trc) == Ok::<ValueModel, ReadFault>(v),
            },
    {
        if let Ok(ValueModel::Array(a)) = self.cell(col, row) {
            slice::law_sliced(a, blc, trc, k);
        }
    }
}

proof fn lemma_incremental_plain(
    m: IsmModel,
    col: int,
    desc: crate::tabledesc::ColumnModel,
    row: u64,
)
    ensures
        m.scalar(col, desc, row) matches Ok(v) ==> !(v is Array),
{
}

impl SsmModel {
    proof fn lemma_array_filled(
        self,
        manager: StandardModel,
        col: int,
        desc: crate::tabledesc::ColumnModel,
        row: u64,
    )
        ensures
            self.array(manager, col, desc, row) matches Ok(ValueModel::Array(a))
                ==> ssmcell::product(a.shape) == celllaw::element_count(a.data)
                && ssmcell::product(a.shape) <= usize::MAX,
    {
        match self.array(manager, col, desc, row) {
            Err(_) => {},
            Ok(_) => {
                let (index, offset) = ssmcell::column_place(manager, col)->Ok_0;
                let cell = self.cell(index as int, offset, row, crate::ssm::ARRAY_REF_SIZE)->Ok_0;
                let at = bytes::signed64(
                    bytes::uint_value(self.header.big_endian, cell) as u64,
                );
                law_array_filled(self.f0i->0, self.header.big_endian, at, desc.data_type);
            },
        }
    }

    proof fn lemma_scalar_plain(
        self,
        manager: StandardModel,
        col: int,
        desc: crate::tabledesc::ColumnModel,
        row: u64,
    )
        ensures
            self.scalar(manager, col, desc, row) matches Ok(v) ==> !(v is Array),
    {
    }
}

pub(crate) fn ssm_position(files: &Vec<(u32, StandardStManFile)>, seq: u32) -> (r: Option<usize>)
    ensures
        match r {
            Some(i) => i < files@.len() && tableread::keyed(
                tableread::ssm_models(files@),
                seq,
                0,
            ) == Some(files@[i as int].1@),
            None => tableread::keyed(tableread::ssm_models(files@), seq, 0) is None,
        },
{
    let ghost ms = tableread::ssm_models(files@);
    let mut i: usize = 0;
    while i < files.len()
        invariant
            i <= files@.len(),
            ms == tableread::ssm_models(files@),
            tableread::keyed(ms, seq, 0) == tableread::keyed(ms, seq, i as int),
        decreases files@.len() - i,
    {
        assert(ms[i as int] == (files@[i as int].0, files@[i as int].1@));
        if files[i].0 == seq {
            return Some(i);
        }
        i = i + 1;
    }
    None
}

fn ism_position(files: &Vec<(u32, IsmFile)>, seq: u32) -> (r: Option<usize>)
    ensures
        match r {
            Some(i) => i < files@.len() && tableread::keyed(
                tableread::ism_models(files@),
                seq,
                0,
            ) == Some(files@[i as int].1@),
            None => tableread::keyed(tableread::ism_models(files@), seq, 0) is None,
        },
{
    let ghost ms = tableread::ism_models(files@);
    let mut i: usize = 0;
    while i < files.len()
        invariant
            i <= files@.len(),
            ms == tableread::ism_models(files@),
            tableread::keyed(ms, seq, 0) == tableread::keyed(ms, seq, i as int),
        decreases files@.len() - i,
    {
        assert(ms[i as int] == (files@[i as int].0, files@[i as int].1@));
        if files[i].0 == seq {
            return Some(i);
        }
        i = i + 1;
    }
    None
}

proof fn lemma_first_manager(ms: Seq<ManagerModel>, seq: u32, i: int, k: int)
    requires
        0 <= k <= i < ms.len(),
        columnset::is_first_manager(ms, seq, i),
    ensures
        manager_of(ms, seq, k) == Some(ms[i]),
    decreases i - k,
{
    if k < i {
        lemma_first_manager(ms, seq, i, k + 1);
    }
}

proof fn lemma_no_manager(ms: Seq<ManagerModel>, seq: u32, k: int)
    requires
        0 <= k <= ms.len(),
        !columnset::has_manager(ms, seq),
    ensures
        manager_of(ms, seq, k) is None,
    decreases ms.len() - k,
{
    if k < ms.len() {
        lemma_no_manager(ms, seq, k + 1);
    }
}

fn unsupported(name: &String, what: &str) -> (e: TableReadError)
    ensures
        e@ == ReadFault::UnsupportedColumn(name@, what@),
{
    TableReadError::UnsupportedColumn(name.clone(), what.to_owned())
}

impl Table {
    pub(crate) fn manager_position(&self, seq: u32) -> (r: Option<usize>)
        ensures
            match r {
                Some(i) => i < self.dat.column_set.data_managers@.len() && manager_of(
                    self@.dat.column_set.data_managers,
                    seq,
                    0,
                ) == Some(self.dat.column_set.data_managers@[i as int]@),
                None => manager_of(self@.dat.column_set.data_managers, seq, 0) is None,
            },
    {
        let r = self.dat.column_set.manager_position(seq);
        proof {
            let ms = self@.dat.column_set.data_managers;
            match r {
                Some(i) => {
                    lemma_first_manager(ms, seq, i as int, 0);
                },
                None => {
                    lemma_no_manager(ms, seq, 0);
                },
            }
        }
        r
    }

    /// The sequence number of a column's data manager and the column's index
    /// within that manager (the per-manager column order follows table
    /// order).
    pub fn column_manager(&self, col_idx: usize) -> (r: (u32, usize))
        requires
            col_idx < self@.dat.column_set.columns.len(),
        ensures
            r.0 == self@.column_manager(col_idx as int).0,
            r.1 == self@.column_manager(col_idx as int).1,
    {
        let ghost cols = self@.dat.column_set.columns;
        assert(cols[col_idx as int] == self.dat.column_set.columns@[col_idx as int]@);
        let seq: u32 = self.dat.column_set.columns[col_idx].data_manager_seq;
        let mut within: usize = 0;
        let mut i: usize = 0;
        while i < col_idx
            invariant
                i <= col_idx < cols.len(),
                cols == columnset::info_models(self.dat.column_set.columns@),
                within == bound_before(cols, seq, i as nat),
                within <= i,
            decreases col_idx - i,
        {
            assert(cols[i as int] == self.dat.column_set.columns@[i as int]@);
            if self.dat.column_set.columns[i].data_manager_seq == seq {
                within = within + 1;
            }
            i = i + 1;
        }
        (seq, within)
    }

    /// The type of the storage manager that a column is bound to. The column
    /// set is authoritative: a column's description can say otherwise.
    pub fn column_storage_type(&self, col_idx: usize) -> (r: String)
        requires
            self@.has_column(col_idx as int),
        ensures
            r@ == self@.storage_type(col_idx as int),
    {
        let (seq, _within) = self.column_manager(col_idx);
        match self.manager_position(seq) {
            Some(i) => self.dat.column_set.data_managers[i].manager_type.clone(),
            None => {
                assert(self@.dat.desc.columns[col_idx as int]
                    == self.dat.desc.columns@[col_idx as int]@);
                self.dat.desc.columns[col_idx].data_manager_type.clone()
            },
        }
    }

    pub(crate) fn standard_manager(&self, seq: u32) -> (r: Option<&StandardStMan>)
        ensures
            match self@.standard(seq) {
                Some(m) => r is Some && r->0@ == m,
                None => r is None,
            },
    {
        match self.manager_position(seq) {
            None => None,
            Some(i) => match &self.dat.column_set.data_managers[i].blob {
                DataManagerBlob::StandardStMan(s) => Some(s),
                _ => None,
            },
        }
    }

    fn get_standard(&self, col_idx: usize, row: u64) -> (res: Result<RecordValue, TableReadError>)
        requires
            self@.has_column(col_idx as int),
        ensures
            match self@.standard_cell(col_idx as int, row) {
                Ok(v) => res is Ok && res->Ok_0@ == v,
                Err(f) => res is Err && res->Err_0@ == f,
            },
    {
        assert(self@.dat.desc.columns[col_idx as int]
            == self.dat.desc.columns@[col_idx as int]@);
        let desc = &self.dat.desc.columns[col_idx];
        let (seq, within) = self.column_manager(col_idx);
        let file = match ssm_position(&self.ssm_files, seq) {
            Some(i) => &self.ssm_files[i].1,
            None => {
                return Err(unsupported(&desc.name, "StandardStMan"));
            },
        };
        let manager = match self.standard_manager(seq) {
            Some(m) => m,
            None => {
                return Err(unsupported(&desc.name, "no spec"));
            },
        };
        let array: bool = match desc.kind {
            ColumnKind::Array => true,
            _ => false,
        };
        let got = if array {
            read_array_cell(file, manager, within, desc, row)
        } else {
            file.read_scalar_cell(manager, within, desc, row)
        };
        match got {
            Ok(v) => Ok(v),
            Err(e) => Err(TableReadError::Ssm(e)),
        }
    }

    fn get_incremental(&self, col_idx: usize, row: u64) -> (res: Result<
        RecordValue,
        TableReadError,
    >)
        requires
            self@.has_column(col_idx as int),
        ensures
            match self@.incremental_cell(col_idx as int, row) {
                Ok(v) => res is Ok && res->Ok_0@ == v,
                Err(f) => res is Err && res->Err_0@ == f,
            },
    {
        assert(self@.dat.desc.columns[col_idx as int]
            == self.dat.desc.columns@[col_idx as int]@);
        let desc = &self.dat.desc.columns[col_idx];
        let (seq, within) = self.column_manager(col_idx);
        match ism_position(&self.ism_files, seq) {
            None => Err(unsupported(&desc.name, "IncrementalStMan")),
            Some(i) => match self.ism_files[i].1.read_scalar_cell(within, desc, row) {
                Ok(v) => Ok(v),
                Err(e) => Err(TableReadError::Ism(e)),
            },
        }
    }

    /// Read one cell.
    pub fn getcell(&self, col_idx: usize, row: u64) -> (res: Result<RecordValue, TableReadError>)
        requires
            self@.has_column(col_idx as int),
        ensures
            match self@.cell(col_idx as int, row) {
                Ok(v) => res is Ok && res->Ok_0@ == v,
                Err(f) => res is Err && res->Err_0@ == f,
            },
    {
        let kind = self.column_storage_type(col_idx);
        assert(self@.dat.desc.columns[col_idx as int]
            == self.dat.desc.columns@[col_idx as int]@);
        let name = &self.dat.desc.columns[col_idx].name;
        if text_eq(kind.as_str(), "StandardStMan") {
            self.get_standard(col_idx, row)
        } else if text_eq(kind.as_str(), "IncrementalStMan") {
            self.get_incremental(col_idx, row)
        } else if tiled(kind.as_str()) {
            Err(unsupported(name, "tiled storage manager"))
        } else {
            Err(unsupported(name, kind.as_str()))
        }
    }

    /// Read `nrow` cells starting at `startrow`.
    pub fn getcol(&self, col_idx: usize, startrow: u64, nrow: u64) -> (res: Result<
        Vec<RecordValue>,
        TableReadError,
    >)
        requires
            self@.has_column(col_idx as int),
            startrow + nrow <= u64::MAX,
        ensures
            match self@.cells(col_idx as int, startrow as int, nrow as nat, Seq::empty()) {
                Ok(s) => res is Ok && record::value_models(res->Ok_0@) == s,
                Err(f) => res is Err && res->Err_0@ == f,
            },
            res matches Ok(vs) ==> vs@.len() == nrow && forall|i: int|
                0 <= i < nrow ==> self@.cell(col_idx as int, (startrow + i) as u64) == Ok::<
                    ValueModel,
                    ReadFault,
                >((#[trigger] vs@[i])@),
    {
        let ghost all = self@.cells(col_idx as int, startrow as int, nrow as nat, Seq::empty());
        let mut out: Vec<RecordValue> = Vec::new();
        assert(record::value_models(out@) =~= Seq::<ValueModel>::empty());
        let mut i: u64 = 0;
        while i < nrow
            invariant
                i <= nrow,
                startrow + nrow <= u64::MAX,
                self@.has_column(col_idx as int),
                all == self@.cells(col_idx as int, startrow as int, nrow as nat, Seq::empty()),
                all == self@.cells(
                    col_idx as int,
                    startrow + i,
                    (nrow - i) as nat,
                    record::value_models(out@),
                ),
            decreases nrow - i,
        {
            let ghost before = record::value_models(out@);
            let v = self.getcell(col_idx, startrow + i)?;
            out.push(v);
            assert(record::value_models(out@) =~= before.push(v@));
            i = i + 1;
        }
        proof {
            let s = record::value_models(out@);
            assert(s.len() == out@.len());
            let _ = self@.law_column_read(col_idx as int, startrow as int, nrow as nat, 0);
            assert forall|i: int| 0 <= i < nrow implies self@.cell(
                col_idx as int,
                (startrow + i) as u64,
            ) == Ok::<ValueModel, ReadFault>((#[trigger] out@[i])@) by {
                let _ = self@.law_column_read(col_idx as int, startrow as int, nrow as nat, i);
                assert(s[i] == out@[i]@);
            }
        }
        Ok(out)
    }

    /// One array cell slice: `blc`/`trc` are the inclusive start and end for
    /// each logical dimension. Scalar columns ignore the slice.
    pub fn getcellslice(&self, col_idx: usize, row: u64, blc: &[i64], trc: &[i64]) -> (res: Result<
        RecordValue,
        TableReadError,
    >)
        requires
            self@.has_column(col_idx as int),
        ensures
            match self@.cell_slice(col_idx as int, row, blc@, trc@) {
                Ok(v) => res is Ok && res->Ok_0@ == v,
                Err(f) => res is Err && res->Err_0@ == f,
            },
    {
        let cell = self.getcell(col_idx, row)?;
        match cell {
            RecordValue::Array(arr) => {
                if blc.len() == 0 && trc.len() == 0 {
                    return Ok(RecordValue::Array(arr));
                }
                proof {
                    self@.law_cell_filled(col_idx as int, row);
                }
                let cut = slice_array_value(&arr, blc, trc)?;
                Ok(RecordValue::Array(cut))
            },
            other => Ok(other),
        }
    }

    /// Read a slice of each array cell of `nrow` rows starting at
    /// `startrow`.
    pub fn getcolslice(
        &self,
        col_idx: usize,
        blc: &[i64],
        trc: &[i64],
        startrow: u64,
        nrow: u64,
    ) -> (res: Result<Vec<RecordValue>, TableReadError>)
        requires
            self@.has_column(col_idx as int),
            startrow + nrow <= u64::MAX,
        ensures
            match self@.cell_slices(
                col_idx as int,
                startrow as int,
                nrow as nat,
                blc@,
                trc@,
                Seq::empty(),
            ) {
                Ok(s) => res is Ok && record::value_models(res->Ok_0@) == s,
                Err(f) => res is Err && res->Err_0@ == f,
            },
            res matches Ok(vs) ==> vs@.len() == nrow && forall|i: int|
                0 <= i < nrow ==> self@.cell_slice(
                    col_idx as int,
                    (startrow + i) as u64,
                    blc@,
                    trc@,
                ) == Ok::<ValueModel, ReadFault>((#[trigger] vs@[i])@),
    {
        let ghost all = self@.cell_slices(
            col_idx as int,
            startrow as int,
            nrow as nat,
            blc@,
            trc@,
            Seq::empty(),
        );
        let mut out: Vec<RecordValue> = Vec::new();
        assert(record::value_models(out@) =~= Seq::<ValueModel>::empty());
        let mut i: u64 = 0;
        while i < nrow
            invariant
                i <= nrow,
                startrow + nrow <= u64::MAX,
                self@.has_column(col_idx as int),
                all == self@.cell_slices(
                    col_idx as int,
                    startrow as int,
                    nrow as nat,
                    blc@,
                    trc@,
                    Seq::empty(),
                ),
                all == self@.cell_slices(
                    col_idx as int,
                    startrow + i,
                    (nrow - i) as nat,
                    blc@,
                    trc@,
                    record::value_models(out@),
                ),
            decreases nrow - i,
        {
            let ghost before = record::value_models(out@);
            let v = self.getcellslice(col_idx, startrow + i, blc, trc)?;
            out.push(v);
            assert(record::value_models(out@) =~= before.push(v@));
            i = i + 1;
        }
        proof {
            let s = record::value_models(out@);
            let (c, start) = (col_idx as int, startrow as int);
            assert(s.len() == out@.len());
            let _ = self@.law_column_sliced(c, start, nrow as nat, blc@, trc@, 0);
            assert forall|i: int| 0 <= i < nrow implies self@.cell_slice(
                col_idx as int,
                (startrow + i) as u64,
                blc@,
                trc@,
            ) == Ok::<ValueModel, ReadFault>((#[trigger] out@[i])@) by {
                let _ = self@.law_column_sliced(c, start, nrow as nat, blc@, trc@, i);
                assert(s[i] == out@[i]@);
            }
        }
        Ok(out)
    }

    /// Read the cells of all rows.
    pub fn getvarcol(&self, col_idx: usize) -> (res: Result<Vec<RecordValue>, TableReadError>)
        requires
            self@.has_column(col_idx as int),
        ensures
            match self@.cells(col_idx as int, 0, self@.dat.header.nrow as nat, Seq::empty()) {
                Ok(s) => res is Ok && record::value_models(res->Ok_0@) == s,
                Err(f) => res is Err && res->Err_0@ == f,
            },
            res matches Ok(vs) ==> vs@.len() == self@.dat.header.nrow && forall|i: int|
                0 <= i < vs@.len() ==> self@.cell(col_idx as int, i as u64) == Ok::<
                    ValueModel,
                    ReadFault,
                >((#[trigger] vs@[i])@),
    {
        self.getcol(col_idx, 0, self.dat.header.nrow)
    }

    /// Whether a column's cells lie in the data file as plain numbers of one
    /// size: a numeric StandardStMan column, scalar or of a fixed shape.
    pub fn raw_column_supported(&self, col_idx: usize) -> (r: bool)
        ensures
            r == self@.raw_supported(col_idx as int),
    {
        if col_idx >= self.dat.desc.columns.len() {
            return false;
        }
        assert(self@.dat.desc.columns[col_idx as int]
            == self.dat.desc.columns@[col_idx as int]@);
        let desc = &self.dat.desc.columns[col_idx];
        match desc.data_type {
            DataType::String
            | DataType::Table
            | DataType::Record
            | DataType::Char
            | DataType::Bool => {
                return false;
            },
            _ => {},
        }
        if let ColumnKind::Array = desc.kind {
            match &desc.shape {
                Some(s) => {
                    if s.len() == 0 {
                        return false;
                    }
                },
                None => {
                    return false;
                },
            }
        }
        text_eq(desc.data_manager_type.as_str(), "StandardStMan")
    }
}

/// Whether the values of a data type are numbers.
pub open spec fn is_numeric(dt: DataType) -> bool {
    match dt {
        DataType::UChar
        | DataType::Short
        | DataType::UShort
        | DataType::Int
        | DataType::UInt
        | DataType::Int64
        | DataType::Float
        | DataType::Double
        | DataType::Complex
        | DataType::DComplex => true,
        _ => false,
    }
}

/// A column of numbers can be read as raw bytes exactly where it is described
/// as one of StandardStMan and its cells have one shape; a column of truth
/// values or of texts never can.
pub proof fn law_raw_columns(m: TableModel, col: int)
    requires
        0 <= col < m.dat.desc.columns.len(),
    ensures
        ({
            let c = m.dat.desc.columns[col];
            &&& is_numeric(c.data_type) && !(c.kind is Array) ==> m.raw_supported(col) == (
            c.data_manager_type == "StandardStMan"@)
            &&& is_numeric(c.data_type) && c.kind is Array ==> m.raw_supported(col) == (
            c.data_manager_type == "StandardStMan"@ && c.shape is Some && c.shape->0.len() > 0)
            &&& c.data_type == DataType::Bool || c.data_type == DataType::String
                ==> !m.raw_supported(col)
        }),
{
}

} // verus!
