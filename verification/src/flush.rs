//! Storing what was written to a table: as a whole, or in place by
//! rebuilding only the files of the data managers with written columns.
use crate::defaults;
use crate::flushlaw;
use crate::ismdata;
use crate::ismdata::build_ism_data;
use crate::json::FloatTexts;
use crate::record;
use crate::record::{DataType, RecordValue, ValueModel};
use crate::recordlaw;
use crate::ssmdata;
use crate::ssmdata::{build_in_layout, can_hold, CellContent, SsmData, Supplied};
use crate::ssmout::{LayoutModel, StandardStManLayout};
use crate::table::{TableDat, TableDatModel};
use crate::tablecells;
use crate::tablecreate;
use crate::tablecreate::{
    create_table, find_image, member_list, push_named, NamedBytes, NamedFile, TableFiles,
    TiledImage, TiledImageModel,
};
use crate::tabledesc;
use crate::tabledesc::{ColumnDesc, ColumnModel};
use crate::tableread;
use crate::tableread::{tiled, Table, TableModel};
use crate::text;
use crate::text::{push_u64, text_eq};
use crate::writelaw;
use crate::writetable::{WritableTable, WriteFault, WriteModel, WriteTableError};
use vstd::prelude::*;

verus! {

/// Whether two columns have the same name and the same manager.
pub open spec fn same_place(a: ColumnModel, b: ColumnModel) -> bool {
    a.name == b.name && a.data_manager_type == b.data_manager_type && a.data_manager_group
        == b.data_manager_group
}

/// Whether a stored table has the columns and the rows of a table in the
/// making.
pub open spec fn same_schema(dat: TableDatModel, m: WriteModel) -> bool {
    &&& dat.desc.columns.len() == m.desc.columns.len()
    &&& dat.header.nrow == m.rows()
    &&& forall|c: int|
        0 <= c < m.desc.columns.len() ==> same_place(
            #[trigger] dat.desc.columns[c],
            m.desc.columns[c],
        )
}

impl WriteModel {
    /// Whether a flush keeps the files of columns that were not written:
    /// some columns were written and some not, no keyword was, and the stored
    /// table has the same columns and rows.
    pub open spec fn preserving(self, on_disk: Option<TableDatModel>) -> bool {
        &&& !self.meta_dirty
        &&& exists|c: int| 0 <= c < self.touched.len() && #[trigger] self.touched[c]
        &&& exists|c: int| 0 <= c < self.touched.len() && !#[trigger] self.touched[c]
        &&& on_disk matches Some(dat) && same_schema(dat, self)
    }

    /// The sequence number that the stored table gives a column's manager.
    pub open spec fn stored_manager(self, dat: TableDatModel, c: int) -> u32 {
        if c < dat.column_set.columns.len() {
            dat.column_set.columns[c].data_manager_seq
        } else {
            0
        }
    }

    /// These numbers, column by column.
    pub open spec fn stored_managers(self, dat: TableDatModel) -> Seq<u32> {
        Seq::new(self.desc.columns.len(), |c: int| self.stored_manager(dat, c))
    }

    /// The columns of a stored manager.
    pub open spec fn columns_of(self, dat: TableDatModel, seq: u32) -> Seq<usize> {
        tablecreate::members(
            self.stored_managers(dat),
            seq as int,
            self.desc.columns.len(),
        )
    }

    /// Whether a column of a manager was written, and something is pending.
    pub open spec fn must_rewrite(self, cols: Seq<usize>) -> bool {
        &&& exists|k: int| 0 <= k < cols.len() && self.touched[#[trigger] cols[k] as int]
        &&& exists|k: int, row: int|
            0 <= k < cols.len() && #[trigger] self.pending[cols[k] as int].contains(row)
    }

    /// The managers of the first `n` columns that a flush in place rewrites,
    /// in the order of first use.
    pub open spec fn rewrites(self, dat: TableDatModel, n: nat) -> Seq<u32>
        decreases n,
    {
        if n == 0 {
            Seq::empty()
        } else {
            let before = self.rewrites(dat, (n - 1) as nat);
            let seq = self.stored_managers(dat)[n - 1];
            if !before.contains(seq) && self.must_rewrite(self.columns_of(dat, seq)) {
                before.push(seq)
            } else {
                before
            }
        }
    }

    /// A column's stored values with the pending ones overlaid.
    pub open spec fn current(self, disk: TableModel, col: int) -> Result<
        Seq<ValueModel>,
        WriteFault,
    > {
        match disk.cells(col, 0, self.rows(), Seq::empty()) {
            Err(error) => Err(WriteFault::Read { column: col, error }),
            Ok(vs) => Ok(self.overlaid(col, vs)),
        }
    }

    /// The values of all columns, where only those of a manager are there,
    /// from the manager's column `k` on.
    pub open spec fn manager_values(
        self,
        disk: TableModel,
        cols: Seq<usize>,
        k: int,
        acc: Seq<Seq<ValueModel>>,
    ) -> Result<Seq<Seq<ValueModel>>, WriteFault>
        decreases cols.len() - k,
    {
        if k < 0 || k >= cols.len() {
            Ok(acc)
        } else {
            match self.current(disk, cols[k] as int) {
                Err(f) => Err(f),
                Ok(vs) => self.manager_values(disk, cols, k + 1, acc.update(cols[k] as int, vs)),
            }
        }
    }

    /// No values at all, column by column.
    pub open spec fn no_values(self) -> Seq<Seq<ValueModel>> {
        Seq::new(self.desc.columns.len(), |c: int| Seq::empty())
    }

    /// The rebuilt files of a StandardStMan manager, in the byte order and
    /// with the bucket layout of the stored table. There are none where the
    /// stored layout cannot be kept.
    #[verifier::opaque]
    pub open spec fn standard_rewritten(
        self,
        disk: TableModel,
        seq: u32,
        cols: Seq<usize>,
        name: Seq<char>,
        kind: Seq<char>,
        t: Supplied,
    ) -> Result<Seq<NamedBytes>, WriteFault> {
        match self.manager_values(disk, cols, 0, self.no_values()) {
            Err(f) => Err(f),
            Ok(vs) => match kept_layout(disk, seq, cols, self.rows() as u64) {
                None => Err(no_layout(kind)),
                Some(layout) => match ssmdata::ssm_data_in(
                    disk.dat.header.big_endian,
                    self.rows() as u64,
                    kind,
                    disk.dat.desc,
                    vs,
                    cols,
                    layout,
                    t,
                ) {
                    Err(f) => Err(WriteFault::Rebuild(f)),
                    Ok(out) => Ok(
                        match out.f0i {
                            Some(i) => seq![(name, out.file), (name + "i"@, i)],
                            None => seq![(name, out.file)],
                        },
                    ),
                },
            },
        }
    }

    /// The rebuilt file of an IncrementalStMan manager, in the byte order of
    /// the stored table.
    #[verifier::opaque]
    pub open spec fn incremental_rewritten(
        self,
        disk: TableModel,
        cols: Seq<usize>,
        name: Seq<char>,
        kind: Seq<char>,
    ) -> Result<Seq<NamedBytes>, WriteFault> {
        match self.manager_values(disk, cols, 0, self.no_values()) {
            Err(f) => Err(f),
            Ok(vs) => match ismdata::ism_data(
                disk.dat.header.big_endian,
                self.rows() as u64,
                kind,
                disk.dat.desc,
                vs,
                cols,
            ) {
                Err(f) => Err(WriteFault::Rebuild(f)),
                Ok(file) => Ok(seq![(name, file)]),
            },
        }
    }

    /// Whether the pending values of a manager's columns can be encoded as
    /// they are, in the stored columns.
    pub open spec fn pending_ready(self, dat: TableDatModel, cols: Seq<usize>) -> bool {
        forall|k: int, r: int|
            0 <= k < cols.len() && (#[trigger] self.pending[cols[k] as int].contains(r))
                && self.cells[cols[k] as int][r] is Some ==> ssmdata::value_ready(
                dat.desc.columns[cols[k] as int],
                self.cells[cols[k] as int][r]->0,
            )
    }

    /// The rebuilt files of a stored manager, or why it cannot be rebuilt.
    pub open spec fn rewritten(
        self,
        dat: TableDatModel,
        disk: TableModel,
        seq: u32,
        t: Supplied,
        images: Seq<TiledImageModel>,
    ) -> Result<Seq<NamedBytes>, WriteFault> {
        let cols = self.columns_of(dat, seq);
        let name = tablecreate::data_name(seq as int);
        match tablecells::manager_of(dat.column_set.data_managers, seq, 0) {
            None => Err(
                WriteFault::Storage("table.dat lost DM sequence "@ + text::decimal(seq as int)),
            ),
            Some(m) => if m.manager_type == "StandardStMan"@ {
                self.standard_rewritten(disk, seq, cols, name, m.manager_type, t)
            } else if m.manager_type == "IncrementalStMan"@ {
                self.incremental_rewritten(disk, cols, name, m.manager_type)
            } else {
                match tablecreate::image_of(images, seq, 0) {
                    Some(image) => if tableread::is_tiled(m.manager_type) {
                        Ok(
                            seq![
                                (name, image.header),
                                (
                                    name + "_TSM"@ + text::decimal(image.file_seq as int),
                                    image.tile,
                                ),
                            ],
                        )
                    } else {
                        Err(cannot_rewrite(m.manager_type))
                    },
                    None => Err(cannot_rewrite(m.manager_type)),
                }
            },
        }
    }
}

/// The bucket layout of a stored StandardStMan manager whose columns all go by
/// the first index.
pub open spec fn stored_layout(disk: TableModel, seq: u32, columns: nat) -> Option<LayoutModel> {
    match (tableread::keyed(disk.ssm_files, seq, 0), disk.standard(seq)) {
        (Some(f), Some(s)) => if f.indices.len() > 0 && s.col_index_map == Seq::new(
            columns,
            |k: int| 0u32,
        ) {
            Some(
                LayoutModel {
                    rows_per_bucket: f.indices[0].rows_per_bucket,
                    bucket_size: f.header.bucket_size,
                    column_offset: s.column_offset,
                },
            )
        } else {
            None
        },
        _ => None,
    }
}

/// The layout of a stored manager, where its columns can be stored in it.
pub open spec fn kept_layout(disk: TableModel, seq: u32, cols: Seq<usize>, nrow: u64) -> Option<
    LayoutModel,
> {
    match stored_layout(disk, seq, cols.len()) {
        Some(l) => if ssmdata::holds(l, disk.dat.desc, cols, nrow) {
            Some(l)
        } else {
            None
        },
        None => None,
    }
}

/// A stored value has its column's type where that is a number, and is one
/// that the column's encoder takes as it is.
pub proof fn law_stored_value_ready(disk: TableModel, c: int, row: u64)
    requires
        disk.cell(c, row) is Ok,
    ensures
        ({
            let cd = disk.dat.desc.columns[c];
            &&& ssmdata::value_ready(cd, disk.cell(c, row)->Ok_0)
            &&& cd.kind is Scalar && cd.data_type != DataType::String ==> recordlaw::scalar_fits(
                cd.data_type,
                disk.cell(c, row)->Ok_0,
            )
        }),
{
}

/// The values of a manager's columns, as a flush stores them, can be encoded
/// as they are.
proof fn lemma_values_ready(m: WriteModel, disk: TableModel, cols: Seq<usize>)
    requires
        m.sound(),
        m.rows() <= u64::MAX,
        writelaw::listed_once(cols),
        forall|k: int| 0 <= k < cols.len() ==> (#[trigger] cols[k]) < m.desc.columns.len(),
        m.pending_ready(disk.dat, cols),
        forall|k: int| 0 <= k < cols.len() ==> disk.has_column(#[trigger] cols[k] as int),
    ensures
        m.manager_values(disk, cols, 0, m.no_values()) matches Ok(vs) ==> ssmdata::values_ready(
            disk.dat.desc,
            vs,
            cols,
            m.rows() as u64,
        ),
{
    if let Ok(vs) = m.manager_values(disk, cols, 0, m.no_values()) {
        assert forall|k: int| 0 <= k < cols.len() implies {
            let c = #[trigger] cols[k] as int;
            &&& c < vs.len()
            &&& vs[c].len() == m.rows()
            &&& forall|r: int|
                0 <= r < vs[c].len() ==> ssmdata::value_ready(
                    disk.dat.desc.columns[c],
                    #[trigger] vs[c][r],
                )
        } by {
            let c = cols[k] as int;
            assert(disk.has_column(c));
            writelaw::lemma_manager_values(m, disk, cols, 0, m.no_values(), c);
            writelaw::lemma_cells(disk, c, 0, m.rows(), Seq::empty(), 0);
            assert forall|r: int| 0 <= r < vs[c].len() implies ssmdata::value_ready(
                disk.dat.desc.columns[c],
                #[trigger] vs[c][r],
            ) by {
                writelaw::law_flushed_values(m, disk, cols, k, r as u64);
                writelaw::lemma_cells(disk, c, 0, m.rows(), Seq::empty(), r);
                if m.pending[c].contains(r) {
                    assert(m.pending[cols[k] as int].contains(r));
                }
                law_stored_value_ready(disk, c, r as u64);
            }
        }
    }
}

/// What is said of a manager that cannot be rebuilt.
pub open spec fn cannot_rewrite(manager_type: Seq<char>) -> WriteFault {
    WriteFault::Storage("cannot preserve-rewrite data-manager type "@ + manager_type)
}

/// What is said of a manager whose stored layout cannot be kept.
pub open spec fn no_layout(manager_type: Seq<char>) -> WriteFault {
    WriteFault::Storage("cannot keep the stored layout of data-manager type "@ + manager_type)
}

fn all_zeros(a: &Vec<u32>, n: usize) -> (r: bool)
    ensures
        r == (a@ == Seq::new(n as nat, |k: int| 0u32)),
{
    let ghost want = Seq::new(n as nat, |k: int| 0u32);
    if a.len() != n {
        return false;
    }
    let mut i: usize = 0;
    while i < n
        invariant
            i <= n,
            a@.len() == n,
            want == Seq::new(n as nat, |k: int| 0u32),
            forall|k: int| 0 <= k < i ==> #[trigger] a@[k] == 0,
        decreases n - i,
    {
        if a[i] != 0 {
            assert(want[i as int] == 0);
            return false;
        }
        i = i + 1;
    }
    assert(a@ =~= want);
    true
}

fn no_layout_error(kind: &str) -> (e: WriteTableError)
    ensures
        e@ == no_layout(kind@),
{
    let mut s: String = "cannot keep the stored layout of data-manager type ".to_owned();
    s.append(kind);
    WriteTableError::Storage(s)
}

fn in_same_place(a: &ColumnDesc, b: &ColumnDesc) -> (r: bool)
    ensures
        r == same_place(a@, b@),
{
    text_eq(a.name.as_str(), b.name.as_str()) && text_eq(
        a.data_manager_type.as_str(),
        b.data_manager_type.as_str(),
    ) && text_eq(a.data_manager_group.as_str(), b.data_manager_group.as_str())
}

fn layout_on_disk(disk: &Table, seq: u32, cols: &Vec<usize>, nrow: u64) -> (r: Option<
    StandardStManLayout,
>)
    requires
        forall|k: int| 0 <= k < cols@.len() ==> disk@.has_column(#[trigger] cols@[k] as int),
    ensures
        match kept_layout(disk@, seq, cols@, nrow) {
            Some(l) => r matches Some(x) && x@ == l,
            None => r is None,
        },
{
    let at = match tablecells::ssm_position(&disk.ssm_files, seq) {
        Some(i) => i,
        None => {
            return None;
        },
    };
    let manager = match disk.standard_manager(seq) {
        Some(s) => s,
        None => {
            return None;
        },
    };
    let file = &disk.ssm_files[at].1;
    if file.indices().len() == 0 || !all_zeros(&manager.col_index_map, cols.len()) {
        return None;
    }
    let l = StandardStManLayout {
        rows_per_bucket: file.indices()[0].rows_per_bucket,
        bucket_size: file.header().bucket_size,
        column_offset: manager.column_offset.clone(),
    };
    assert forall|k: int| 0 <= k < cols@.len() implies (#[trigger] cols@[k])
        < disk@.dat.desc.columns.len() by {
        assert(disk@.has_column(cols@[k] as int));
    }
    if can_hold(&l, &disk.dat.desc, cols.as_slice(), nrow) {
        Some(l)
    } else {
        None
    }
}

fn standard_files(name: String, out: &SsmData) -> (r: Vec<NamedFile>)
    ensures
        tablecreate::named_models(r@) == match out@.f0i {
            Some(i) => seq![(name@, out@.file), (name@ + "i"@, i)],
            None => seq![(name@, out@.file)],
        },
{
    let mut files: Vec<NamedFile> = Vec::new();
    assert(tablecreate::named_models(files@) =~= Seq::<NamedBytes>::empty());
    let mut index: String = name.clone();
    index.append("i");
    push_named(&mut files, name, &out.file);
    if let Some(i) = &out.f0i {
        push_named(&mut files, index, i);
    }
    proof {
        let want = match out@.f0i {
            Some(i) => seq![(name@, out@.file), (name@ + "i"@, i)],
            None => seq![(name@, out@.file)],
        };
        assert(tablecreate::named_models(files@) =~= want);
    }
    files
}

/// The stored table that was found, if one was.
pub open spec fn dat_view(dat: Option<&TableDat>) -> Option<TableDatModel> {
    match dat {
        Some(d) => Some(d@),
        None => None,
    }
}

impl WritableTable {
    fn any_touched(&self, want: bool) -> (r: bool)
        requires
            self.wf(),
        ensures
            r == exists|c: int|
                0 <= c < self@.touched.len() && #[trigger] self@.touched[c] == want,
    {
        proof {
            self.lemma_sound();
        }
        let n: usize = self.desc().columns.len();
        let mut c: usize = 0;
        while c < n
            invariant
                c <= n,
                n == self@.touched.len(),
                forall|k: int| 0 <= k < c ==> #[trigger] self@.touched[k] != want,
            decreases n - c,
        {
            if self.touched(c) == want {
                assert(self@.touched[c as int] == want);
                return true;
            }
            c = c + 1;
        }
        false
    }

    /// Whether a flush can keep the files of the columns that were not
    /// written, given what `table.dat` on disk says.
    pub fn preserving(&self, on_disk: Option<&TableDat>) -> (r: bool)
        requires
            self.wf(),
        ensures
            r == self@.preserving(dat_view(on_disk)),
    {
        if self.meta_dirty() || !self.any_touched(true) || !self.any_touched(false) {
            return false;
        }
        match on_disk {
            None => false,
            Some(dat) => {
                let columns = &self.desc().columns;
                assert(self@.desc.columns == tabledesc::column_models(columns@));
                if dat.desc.columns.len() != columns.len() || dat.header.nrow != self.nrows() {
                    return false;
                }
                let mut c: usize = 0;
                while c < columns.len()
                    invariant
                        c <= columns@.len(),
                        on_disk == Some(dat),
                        self@.desc.columns == tabledesc::column_models(columns@),
                        dat.desc.columns@.len() == columns@.len(),
                        forall|k: int|
                            0 <= k < c ==> same_place(
                                #[trigger] dat@.desc.columns[k],
                                self@.desc.columns[k],
                            ),
                    decreases columns@.len() - c,
                {
                    assert(dat@.desc.columns[c as int] == dat.desc.columns@[c as int]@);
                    assert(self@.desc.columns[c as int] == columns@[c as int]@);
                    if !in_same_place(&dat.desc.columns[c], &columns[c]) {
                        return false;
                    }
                    c = c + 1;
                }
                true
            },
        }
    }

    /// The files of the whole table, from the buffered cells.
    pub fn regrowth(
        &self,
        numbers: &FloatTexts,
        contents: &[CellContent],
        images: &[TiledImage],
    ) -> (res: Result<TableFiles, WriteTableError>)
        requires
            self.wf(),
            self@.rows() > 0 ==> self@.defaults_fit(),
            tabledesc::table_desc_ready(self@.desc),
            tablecreate::all_ready(self@.desc, self@.values()),
        ensures
            match tablecreate::created(
                self@.desc,
                self@.values(),
                ssmdata::supplied(numbers, contents@),
                tablecreate::image_models(images@),
            ) {
                Ok(m) => res is Ok && res->Ok_0@ == m,
                Err(f) => res is Err && res->Err_0@ == WriteFault::Create(f),
            },
    {
        let values = self.materialize_all()?;
        match create_table(self.desc(), values.as_slice(), numbers, contents, images) {
            Ok(files) => Ok(files),
            Err(e) => Err(WriteTableError::Create(e)),
        }
    }

    fn manager_numbers(&self, dat: &TableDat) -> (r: Vec<u32>)
        ensures
            r@ == self@.stored_managers(dat@),
    {
        let n: usize = self.desc().columns.len();
        let mut out: Vec<u32> = Vec::new();
        let mut c: usize = 0;
        while c < n
            invariant
                c <= n,
                n == self@.desc.columns.len(),
                out@.len() == c,
                forall|k: int| 0 <= k < c ==> #[trigger] out@[k] == self@.stored_manager(dat@, k),
            decreases n - c,
        {
            if c < dat.column_set.columns.len() {
                assert(dat@.column_set.columns[c as int] == dat.column_set.columns@[c as int]@);
                out.push(dat.column_set.columns[c].data_manager_seq);
            } else {
                out.push(0);
            }
            c = c + 1;
        }
        assert(out@ =~= self@.stored_managers(dat@));
        out
    }

    fn needs_rewrite(&self, cols: &Vec<usize>) -> (r: bool)
        requires
            self.wf(),
            forall|k: int| 0 <= k < cols@.len() ==> (#[trigger] cols@[k]) < self@.desc.columns.len(),
        ensures
            r == self@.must_rewrite(cols@),
    {
        proof {
            self.lemma_sound();
        }
        let mut touched: bool = false;
        let mut pending: bool = false;
        let mut k: usize = 0;
        while k < cols.len()
            invariant
                k <= cols@.len(),
                self@.sound(),
                forall|k: int|
                    0 <= k < cols@.len() ==> (#[trigger] cols@[k]) < self@.desc.columns.len(),
                touched == exists|i: int|
                    0 <= i < k && self@.touched[#[trigger] cols@[i] as int],
                pending == exists|i: int, row: int|
                    0 <= i < k && #[trigger] self@.pending[cols@[i] as int].contains(row),
            decreases cols@.len() - k,
        {
            let c: usize = cols[k];
            let t: bool = self.touched(c);
            let p: bool = self.has_pending(c);
            assert(cols@[k as int] == c);
            proof {
                if p {
                    let row = choose|row: int| #[trigger] self@.pending[c as int].contains(row);
                    assert(self@.pending[cols@[k as int] as int].contains(row));
                }
            }
            touched = touched || t;
            pending = pending || p;
            k = k + 1;
        }
        touched && pending
    }

    /// The sequence numbers of the data managers that a flush in place
    /// rewrites: those with a written column and something pending, in the
    /// order in which the columns use them.
    pub fn managers_to_rewrite(&self, dat: &TableDat) -> (r: Vec<u32>)
        requires
            self.wf(),
        ensures
            r@ == self@.rewrites(dat@, self@.desc.columns.len()),
    {
        let seqs = self.manager_numbers(dat);
        let mut out: Vec<u32> = Vec::new();
        assert(out@ =~= Seq::<u32>::empty());
        let mut c: usize = 0;
        while c < seqs.len()
            invariant
                c <= seqs@.len(),
                self.wf(),
                seqs@ == self@.stored_managers(dat@),
                seqs@.len() == self@.desc.columns.len(),
                out@ == self@.rewrites(dat@, c as nat),
            decreases seqs@.len() - c,
        {
            let seq: u32 = seqs[c];
            if !lists(&out, seq) {
                let cols = member_list(&seqs, seq as usize);
                if self.needs_rewrite(&cols) {
                    out.push(seq);
                }
            }
            c = c + 1;
        }
        out
    }

    fn current_values(&self, disk: &Table, col: usize) -> (res: Result<
        Vec<RecordValue>,
        WriteTableError,
    >)
        requires
            self.wf(),
            col < self@.desc.columns.len(),
            disk@.has_column(col as int),
        ensures
            match self@.current(disk@, col as int) {
                Ok(vs) => res is Ok && record::value_models(res->Ok_0@) == vs,
                Err(f) => res is Err && res->Err_0@ == f,
            },
    {
        proof {
            self.lemma_sound();
        }
        let n: u64 = self.nrows();
        let stored = match disk.getcol(col, 0, n) {
            Ok(v) => v,
            Err(error) => {
                return Err(WriteTableError::Read { column: col, error });
            },
        };
        let ghost vs = record::value_models(stored@);
        let mut out: Vec<RecordValue> = Vec::new();
        let mut r: usize = 0;
        while r < stored.len()
            invariant
                r <= stored@.len(),
                self.wf(),
                col < self@.desc.columns.len(),
                vs == record::value_models(stored@),
                out@.len() == r,
                forall|k: int|
                    0 <= k < r ==> (#[trigger] out@[k])@ == self@.overlaid(col as int, vs)[k],
            decreases stored@.len() - r,
        {
            proof {
                self.lemma_sound();
            }
            assert(vs[r as int] == stored@[r as int]@);
            match self.pending_cell(col, r as u64) {
                Some(v) => {
                    out.push(v.clone());
                },
                None => {
                    out.push(stored[r].clone());
                },
            }
            r = r + 1;
        }
        assert(record::value_models(out@) =~= self@.overlaid(col as int, vs));
        Ok(out)
    }

    fn values_of(&self, disk: &Table, cols: &Vec<usize>) -> (res: Result<
        Vec<Vec<RecordValue>>,
        WriteTableError,
    >)
        requires
            self.wf(),
            forall|k: int|
                0 <= k < cols@.len() ==> (#[trigger] cols@[k]) < self@.desc.columns.len()
                    && disk@.has_column(cols@[k] as int),
        ensures
            match self@.manager_values(disk@, cols@, 0, self@.no_values()) {
                Ok(vs) => res is Ok && ssmdata::value_lists(res->Ok_0@) == vs,
                Err(f) => res is Err && res->Err_0@ == f,
            },
    {
        let n: usize = self.desc().columns.len();
        let mut out: Vec<Vec<RecordValue>> = Vec::new();
        let mut c: usize = 0;
        while c < n
            invariant
                c <= n,
                out@.len() == c,
                forall|k: int| 0 <= k < c ==> (#[trigger] out@[k])@.len() == 0,
            decreases n - c,
        {
            out.push(Vec::new());
            c = c + 1;
        }
        assert(ssmdata::value_lists(out@) =~= self@.no_values()) by {
            assert forall|k: int| 0 <= k < n implies #[trigger] ssmdata::value_lists(out@)[k]
                =~= Seq::<ValueModel>::empty() by {
                assert(out@[k]@.len() == 0);
            }
        }
        let ghost all = self@.manager_values(disk@, cols@, 0, self@.no_values());
        let mut k: usize = 0;
        while k < cols.len()
            invariant
                k <= cols@.len(),
                self.wf(),
                n == self@.desc.columns.len(),
                out@.len() == n,
                forall|k: int|
                    0 <= k < cols@.len() ==> (#[trigger] cols@[k]) < self@.desc.columns.len()
                        && disk@.has_column(cols@[k] as int),
                all == self@.manager_values(disk@, cols@, 0, self@.no_values()),
                all == self@.manager_values(
                    disk@,
                    cols@,
                    k as int,
                    ssmdata::value_lists(out@),
                ),
            decreases cols@.len() - k,
        {
            let col: usize = cols[k];
            assert(cols@[k as int] == col);
            let ghost before = out@;
            let list = self.current_values(disk, col)?;
            out.set(col, list);
            assert(ssmdata::value_lists(out@) =~= ssmdata::value_lists(before).update(
                col as int,
                record::value_models(list@),
            ));
            k = k + 1;
        }
        Ok(out)
    }

    #[verifier::spinoff_prover]
    #[verifier::rlimit(40)]
    fn rewrite_standard(
        &self,
        disk: &Table,
        seq: u32,
        cols: &Vec<usize>,
        name: String,
        kind: &str,
        numbers: &FloatTexts,
        contents: &[CellContent],
    ) -> (res: Result<Vec<NamedFile>, WriteTableError>)
        requires
            self.wf(),
            forall|k: int|
                0 <= k < cols@.len() ==> (#[trigger] cols@[k]) < self@.desc.columns.len()
                    && disk@.has_column(cols@[k] as int),
            writelaw::listed_once(cols@),
            self@.pending_ready(disk@.dat, cols@),
        ensures
            match self@.standard_rewritten(
                disk@,
                seq,
                cols@,
                name@,
                kind@,
                ssmdata::supplied(numbers, contents@),
            ) {
                Ok(s) => res is Ok && tablecreate::named_models(res->Ok_0@) == s,
                Err(f) => res is Err && res->Err_0@ == f,
            },
    {
        proof {
            reveal(WriteModel::standard_rewritten);
            self.lemma_sound();
            lemma_values_ready(self@, disk@, cols@);
        }
        let values = self.values_of(disk, cols)?;
        let l = match layout_on_disk(disk, seq, cols, self.nrows()) {
            Some(l) => l,
            None => {
                return Err(no_layout_error(kind));
            },
        };
        match build_in_layout(
            disk.dat.header.big_endian,
            self.nrows(),
            kind,
            &disk.dat.desc,
            values.as_slice(),
            cols.as_slice(),
            l,
            numbers,
            contents,
        ) {
            Err(e) => Err(WriteTableError::Rebuild(e)),
            Ok(out) => Ok(standard_files(name, &out)),
        }
    }

    fn rewrite_incremental(
        &self,
        disk: &Table,
        cols: &Vec<usize>,
        name: String,
        kind: &str,
    ) -> (res: Result<Vec<NamedFile>, WriteTableError>)
        requires
            self.wf(),
            forall|k: int|
                0 <= k < cols@.len() ==> (#[trigger] cols@[k]) < self@.desc.columns.len()
                    && disk@.has_column(cols@[k] as int),
            writelaw::listed_once(cols@),
            self@.pending_ready(disk@.dat, cols@),
        ensures
            match self@.incremental_rewritten(disk@, cols@, name@, kind@) {
                Ok(s) => res is Ok && tablecreate::named_models(res->Ok_0@) == s,
                Err(f) => res is Err && res->Err_0@ == f,
            },
    {
        proof {
            reveal(WriteModel::incremental_rewritten);
            self.lemma_sound();
            lemma_values_ready(self@, disk@, cols@);
        }
        let values = self.values_of(disk, cols)?;
        match build_ism_data(
            disk.dat.header.big_endian,
            self.nrows(),
            kind,
            &disk.dat.desc,
            values.as_slice(),
            cols.as_slice(),
        ) {
            Err(e) => Err(WriteTableError::Rebuild(e)),
            Ok(file) => {
                let mut files: Vec<NamedFile> = Vec::new();
                assert(tablecreate::named_models(files@) =~= Seq::<NamedBytes>::empty());
                push_named(&mut files, name, &file);
                assert(tablecreate::named_models(files@) =~= seq![(name@, file@)]);
                Ok(files)
            },
        }
    }

    /// The rebuilt files of the data manager `seq` of the stored table
    /// `disk`: its stored values with the pending ones overlaid. The tiles of
    /// a tiled manager come as `images`.
    pub fn rewrite_manager(
        &self,
        disk: &Table,
        seq: u32,
        numbers: &FloatTexts,
        contents: &[CellContent],
        images: &[TiledImage],
    ) -> (res: Result<Vec<NamedFile>, WriteTableError>)
        requires
            self.wf(),
            forall|c: int| 0 <= c < self@.desc.columns.len() ==> #[trigger] disk@.has_column(c),
            self@.pending_ready(disk@.dat, self@.columns_of(disk@.dat, seq)),
        ensures
            match self@.rewritten(
                disk@.dat,
                disk@,
                seq,
                ssmdata::supplied(numbers, contents@),
                tablecreate::image_models(images@),
            ) {
                Ok(s) => res is Ok && tablecreate::named_models(res->Ok_0@) == s,
                Err(f) => res is Err && res->Err_0@ == f,
            },
    {
        let seqs = self.manager_numbers(&disk.dat);
        let cols = member_list(&seqs, seq as usize);
        let at = match disk.manager_position(seq) {
            Some(i) => i,
            None => {
                let mut s: String = "table.dat lost DM sequence ".to_owned();
                push_u64(&mut s, seq as u64);
                return Err(WriteTableError::Storage(s));
            },
        };
        let kind = disk.dat.column_set.data_managers[at].manager_type.as_str();
        let mut name: String = "table.f".to_owned();
        push_u64(&mut name, seq as u64);
        assert(name@ == tablecreate::data_name(seq as int));
        proof {
            assert(seqs.len() == seqs@.len());
            flushlaw::lemma_members_once(seqs@, seq as int, seqs@.len());
            assert forall|k: int| 0 <= k < cols@.len() implies (#[trigger] cols@[k])
                < disk@.dat.desc.columns.len() by {
                assert(disk@.has_column(cols@[k] as int));
            }
        }
        if text_eq(kind, "StandardStMan") {
            self.rewrite_standard(disk, seq, &cols, name, kind, numbers, contents)
        } else if text_eq(kind, "IncrementalStMan") {
            self.rewrite_incremental(disk, &cols, name, kind)
        } else {
            let mut files: Vec<NamedFile> = Vec::new();
            assert(tablecreate::named_models(files@) =~= Seq::<NamedBytes>::empty());
            match find_image(images, seq) {
                Some(i) if tiled(kind) => {
                    let mut tile: String = name.clone();
                    tile.append("_TSM");
                    push_u64(&mut tile, images[i].file_seq as u64);
                    push_named(&mut files, name, &images[i].header);
                    push_named(&mut files, tile, &images[i].tile);
                    assert(tablecreate::named_models(files@) =~= seq![
                        (name@, images@[i as int].header@),
                        (tile@, images@[i as int].tile@),
                    ]);
                    Ok(files)
                },
                _ => {
                    let mut s: String = "cannot preserve-rewrite data-manager type ".to_owned();
                    s.append(kind);
                    Err(WriteTableError::Storage(s))
                },
            }
        }
    }

    /// Note that the files of the data manager `seq` are stored: the buffered
    /// values of its columns are dropped.
    pub fn manager_stored(&mut self, dat: &TableDat, seq: u32)
        requires
            old(self).wf(),
        ensures
            final(self).wf(),
            final(self)@ == old(self)@.columns_released(old(self)@.columns_of(dat@, seq), 0),
    {
        let seqs = self.manager_numbers(dat);
        let cols = member_list(&seqs, seq as usize);
        let ghost all = self@.columns_released(cols@, 0);
        let mut k: usize = 0;
        while k < cols.len()
            invariant
                k <= cols@.len(),
                self.wf(),
                all == self@.columns_released(cols@, k as int),
            decreases cols@.len() - k,
        {
            self.clear_pending(cols[k]);
            k = k + 1;
        }
    }

    /// A new table in the making for a stored one, with its description and
    /// its rows but nothing written: all cells hold their columns' defaults.
    ///
    /// A flush in place overlays the written rows on the stored ones. A flush
    /// that makes the whole table anew knows the buffered cells only: it is
    /// done where every column was written, such as the only one of a table,
    /// and rows that were not written then get the defaults. Load the stored
    /// values first, with `load_column`, to keep them.
    pub fn open_for_update(dir: &str, cwd: Option<&str>, read: &Table) -> (r: WritableTable)
        requires
            read@.dat.header.nrow <= usize::MAX,
            forall|c: int|
                0 <= c < read@.dat.desc.columns.len() ==> defaults::default_fits(
                    #[trigger] read@.dat.desc.columns[c],
                ),
        ensures
            r.wf(),
            r@ == unwritten(
                crate::paths::absolute_name(dir@, crate::json::base_text(cwd)),
                read@,
            ),
    {
        let mut w = WritableTable::create(dir, cwd, read.dat.desc.clone());
        assert(w@.defaults_fit()) by {
            assert forall|c: int| 0 <= c < w@.desc.columns.len() implies defaults::default_fits(
                #[trigger] w@.desc.columns[c],
            ) by {
                assert(w@.desc.columns[c] == read@.dat.desc.columns[c]);
            }
        }
        w.addrows(read.dat.header.nrow);
        w
    }

    /// A table in the making that holds all cells of a stored one, as if they
    /// had been written.
    pub fn from_table(dir: &str, cwd: Option<&str>, t: &Table) -> (res: Result<
        WritableTable,
        WriteTableError,
    >)
        requires
            t@.dat.header.nrow <= usize::MAX,
            forall|c: int| 0 <= c < t@.dat.desc.columns.len() ==> #[trigger] t@.has_column(c),
            forall|c: int|
                0 <= c < t@.dat.desc.columns.len() ==> defaults::default_fits(
                    #[trigger] t@.dat.desc.columns[c],
                ),
        ensures
            match unwritten(
                crate::paths::absolute_name(dir@, crate::json::base_text(cwd)),
                t@,
            ).all_loaded(t@, 0) {
                Ok(m) => res is Ok && res->Ok_0.wf() && res->Ok_0@ == m,
                Err(f) => res is Err && res->Err_0@ == f,
            },
    {
        let mut w = WritableTable::open_for_update(dir, cwd, t);
        let ghost all = w@.all_loaded(t@, 0);
        let n: usize = t.dat.desc.columns.len();
        let rows: u64 = t.dat.header.nrow;
        let mut j: usize = 0;
        while j < n
            invariant
                j <= n,
                n == t@.dat.desc.columns.len(),
                rows == t@.dat.header.nrow,
                forall|c: int| 0 <= c < t@.dat.desc.columns.len() ==> #[trigger] t@.has_column(c),
                w.wf(),
                all == w@.all_loaded(t@, j as int),
                all == unwritten(
                    crate::paths::absolute_name(dir@, crate::json::base_text(cwd)),
                    t@,
                ).all_loaded(t@, 0),
            decreases n - j,
        {
            assert(t@.has_column(j as int));
            match t.getcol(j, 0, rows) {
                Err(error) => {
                    return Err(WriteTableError::Read { column: j, error });
                },
                Ok(values) => {
                    w.putcol(j, 0, values.as_slice())?;
                },
            }
            j = j + 1;
        }
        Ok(w)
    }
}

impl WriteModel {
    /// The table with the cells of the columns from `k` on released.
    pub open spec fn columns_released(self, cols: Seq<usize>, k: int) -> WriteModel
        decreases cols.len() - k,
    {
        if k < 0 || k >= cols.len() {
            self
        } else {
            self.released(cols[k] as int).columns_released(cols, k + 1)
        }
    }

    /// The table with the cells of a stored one written, from the column `j`
    /// on.
    pub open spec fn all_loaded(self, t: TableModel, j: int) -> Result<WriteModel, WriteFault>
        decreases t.dat.desc.columns.len() - j,
    {
        if j < 0 || j >= t.dat.desc.columns.len() {
            Ok(self)
        } else {
            match t.cells(j, 0, t.dat.header.nrow as nat, Seq::empty()) {
                Err(error) => Err(WriteFault::Read { column: j, error }),
                Ok(vs) => match self.column_written(j, 0, vs, 0) {
                    (m, None) => m.all_loaded(t, j + 1),
                    (_, Some(f)) => Err(f),
                },
            }
        }
    }
}

/// A table in the making with the description and the rows of a stored one,
/// and nothing written.
pub open spec fn unwritten(dir: Seq<char>, t: TableModel) -> WriteModel {
    let n = t.dat.desc.columns.len();
    (WriteModel {
        dir,
        desc: t.dat.desc,
        cells: Seq::new(n, |c: int| Seq::empty()),
        pending: Seq::new(n, |c: int| Set::empty()),
        touched: Seq::new(n, |c: int| false),
        meta_dirty: false,
    }).with_rows(t.dat.header.nrow as nat)
}

fn lists(s: &Vec<u32>, v: u32) -> (r: bool)
    ensures
        r == s@.contains(v),
{
    let mut i: usize = 0;
    while i < s.len()
        invariant
            i <= s@.len(),
            forall|k: int| 0 <= k < i ==> s@[k] != v,
        decreases s@.len() - i,
    {
        if s[i] == v {
            assert(s@[i as int] == v);
            return true;
        }
        i = i + 1;
    }
    false
}

} // verus!
