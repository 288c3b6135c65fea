//! A table in the making: cells are written row by row or column by column,
//! and a flush stores what was written.
use crate::defaults;
use crate::defaults::{default_cell_value, relativize_subtables};
use crate::json;
use crate::json::FloatTexts;
use crate::paths;
use crate::paths::absolute_dir;
use crate::record;
use crate::record::{RecordValue, ValueModel};
use crate::rowset;
use crate::rowset::RowSet;
use crate::ssmdata;
use crate::table::{CreateFault, TableCreateError};
use crate::tabledesc;
use crate::tabledesc::{column_position, ColumnDesc, ColumnModel, TableDesc, TableDescModel};
use crate::tableread::{ReadFault, TableReadError};
use crate::writelaw;
use vstd::prelude::*;

verus! {

/// Errors from building a table incrementally.
#[derive(Debug)]
pub enum WriteTableError {
    RowOutOfRange { row: u64, nrow: u64 },
    NoSuchColumn { name: String },
    NoDefault { name: String },
    Create(TableCreateError),
    /// A column of the stored table cannot be read.
    Read { column: usize, error: TableReadError },
    /// A data manager's files cannot be rebuilt.
    Rebuild(TableCreateError),
    Storage(String),
}

/// What a [`WriteTableError`] says.
pub enum WriteFault {
    RowOutOfRange { row: u64, nrow: u64 },
    NoSuchColumn { name: Seq<char> },
    NoDefault { name: Seq<char> },
    Create(CreateFault),
    Read { column: int, error: ReadFault },
    Rebuild(CreateFault),
    Storage(Seq<char>),
}

impl View for WriteTableError {
    type V = WriteFault;

    open spec fn view(&self) -> WriteFault {
        match *self {
            WriteTableError::RowOutOfRange { row, nrow } => WriteFault::RowOutOfRange {
                row,
                nrow,
            },
            WriteTableError::NoSuchColumn { name } => WriteFault::NoSuchColumn { name: name@ },
            WriteTableError::NoDefault { name } => WriteFault::NoDefault { name: name@ },
            WriteTableError::Create(e) => WriteFault::Create(e@),
            WriteTableError::Read { column, error } => WriteFault::Read {
                column: column as int,
                error: error@,
            },
            WriteTableError::Rebuild(e) => WriteFault::Rebuild(e@),
            WriteTableError::Storage(s) => WriteFault::Storage(s@),
        }
    }
}

/// A writable table built incrementally.
#[derive(Debug)]
pub struct WritableTable {
    dir: String,
    desc: TableDesc,
    /// `cells[col][row]`.
    cells: Vec<Vec<Option<RecordValue>>>,
    /// `pending[col]` holds the rows written since the last flush.
    pending: Vec<RowSet>,
    /// Which columns were written.
    touched: Vec<bool>,
    /// A table or column keyword was written, so that `table.dat` must be
    /// regenerated.
    meta_dirty: bool,
}

/// What a [`WritableTable`] holds.
#[verifier::ext_equal]
pub struct WriteModel {
    pub dir: Seq<char>,
    pub desc: TableDescModel,
    pub cells: Seq<Seq<Option<ValueModel>>>,
    pub pending: Seq<Set<int>>,
    pub touched: Seq<bool>,
    pub meta_dirty: bool,
}

pub open spec fn cell_model(c: Option<RecordValue>) -> Option<ValueModel> {
    match c {
        Some(v) => Some(v@),
        None => None,
    }
}

pub open spec fn cell_list(s: Seq<Option<RecordValue>>) -> Seq<Option<ValueModel>> {
    s.map_values(|c: Option<RecordValue>| cell_model(c))
}

pub open spec fn cell_lists(s: Seq<Vec<Option<RecordValue>>>) -> Seq<Seq<Option<ValueModel>>> {
    s.map_values(|v: Vec<Option<RecordValue>>| cell_list(v@))
}

pub open spec fn row_sets(s: Seq<RowSet>) -> Seq<Set<int>> {
    s.map_values(|r: RowSet| r@)
}

impl View for WritableTable {
    type V = WriteModel;

    closed spec fn view(&self) -> WriteModel {
        WriteModel {
            dir: self.dir@,
            desc: self.desc@,
            cells: cell_lists(self.cells@),
            pending: row_sets(self.pending@),
            touched: self.touched@,
            meta_dirty: self.meta_dirty,
        }
    }
}

/// The rows from 0 to `n` that are not listed.
pub open spec fn kept_rows(rows: Seq<u64>, n: nat) -> Seq<int>
    decreases n,
{
    if n == 0 {
        Seq::empty()
    } else {
        let before = kept_rows(rows, (n - 1) as nat);
        if rows.contains((n - 1) as u64) {
            before
        } else {
            before.push(n - 1)
        }
    }
}

impl WriteModel {
    /// The number of rows: that of the first column.
    pub open spec fn rows(self) -> nat {
        if self.cells.len() == 0 {
            0
        } else {
            self.cells[0].len()
        }
    }

    /// Every column has cells, as many as the others, what is pending is among
    /// its rows, and a column with something pending was written.
    pub open spec fn sound(self) -> bool {
        &&& self.cells.len() == self.desc.columns.len()
        &&& self.pending.len() == self.desc.columns.len()
        &&& self.touched.len() == self.desc.columns.len()
        &&& forall|c: int| 0 <= c < self.cells.len() ==> (#[trigger] self.cells[c]).len() == self.rows()
        &&& forall|c: int, r: int|
            0 <= c < self.pending.len() && (#[trigger] self.pending[c].contains(r)) ==> 0 <= r
                < self.rows() && self.touched[c]
    }

    /// The name of a column, or nothing where there is no such column.
    pub open spec fn column_name(self, col: int) -> Seq<char> {
        if 0 <= col < self.desc.columns.len() {
            self.desc.columns[col].name
        } else {
            Seq::empty()
        }
    }

    /// Why a cell cannot be written, if it cannot.
    pub open spec fn refusal(self, col: int, row: u64) -> Option<WriteFault> {
        if col >= self.cells.len() {
            Some(WriteFault::NoSuchColumn { name: self.column_name(col) })
        } else if row >= self.cells[col].len() {
            Some(WriteFault::RowOutOfRange { row, nrow: self.cells[col].len() as u64 })
        } else {
            None
        }
    }

    /// The table with a cell filled, and nothing marked.
    pub open spec fn filled(self, col: int, row: int, v: ValueModel) -> WriteModel {
        WriteModel {
            cells: self.cells.update(col, self.cells[col].update(row, Some(v))),
            ..self
        }
    }

    /// The table with a cell written.
    pub open spec fn written(self, col: int, row: int, v: ValueModel) -> WriteModel {
        WriteModel {
            pending: self.pending.update(col, self.pending[col].insert(row)),
            touched: self.touched.update(col, true),
            ..self.filled(col, row, v)
        }
    }

    /// The table with the values from `i` on written from the row `start + i`
    /// on, up to the first that cannot be, and why that cannot be.
    pub open spec fn column_written(self, col: int, start: u64, values: Seq<ValueModel>, i: int) -> (
        WriteModel,
        Option<WriteFault>,
    )
        decreases values.len() - i,
    {
        if i < 0 || i >= values.len() {
            (self, None)
        } else {
            match self.refusal(col, (start + i) as u64) {
                Some(f) => (self, Some(f)),
                None => self.written(col, start + i, values[i]).column_written(
                    col,
                    start,
                    values,
                    i + 1,
                ),
            }
        }
    }

    /// The table with the values from `i` on filled in from the row `i` on.
    pub open spec fn column_filled(self, col: int, values: Seq<ValueModel>, i: int) -> WriteModel
        decreases values.len() - i,
    {
        if i < 0 || i >= values.len() || col >= self.cells.len() || i >= self.cells[col].len() {
            self
        } else {
            self.filled(col, i, values[i]).column_filled(col, values, i + 1)
        }
    }

    /// The table with `n` more rows, which hold the columns' defaults.
    pub open spec fn with_rows(self, n: nat) -> WriteModel {
        WriteModel {
            cells: Seq::new(
                self.cells.len(),
                |c: int|
                    self.cells[c] + Seq::new(
                        n,
                        |i: int| Some(defaults::default_value(self.desc.columns[c])),
                    ),
            ),
            ..self
        }
    }

    /// The table with one more column, whose cells are not filled.
    pub open spec fn with_column(self, cd: ColumnModel) -> WriteModel {
        WriteModel {
            desc: TableDescModel { columns: self.desc.columns.push(cd), ..self.desc },
            cells: self.cells.push(Seq::new(self.rows(), |i: int| None)),
            pending: self.pending.push(Set::empty()),
            touched: self.touched.push(false),
            ..self
        }
    }

    /// The table without a column.
    pub open spec fn without_column(self, col: int) -> WriteModel {
        if 0 <= col < self.desc.columns.len() {
            WriteModel {
                desc: TableDescModel { columns: self.desc.columns.remove(col), ..self.desc },
                cells: self.cells.remove(col),
                pending: self.pending.remove(col),
                touched: self.touched.remove(col),
                ..self
            }
        } else {
            self
        }
    }

    /// The table with only the rows `kept`, renumbered.
    pub open spec fn with_kept(self, kept: Seq<int>) -> WriteModel {
        WriteModel {
            cells: self.cells.map_values(
                |s: Seq<Option<ValueModel>>| Seq::new(kept.len(), |j: int| s[kept[j]]),
            ),
            pending: self.pending.map_values(|s: Set<int>| rowset::renumbered(s, kept)),
            ..self
        }
    }

    /// The table with the description of a column replaced.
    pub open spec fn with_desc(self, col: int, cd: ColumnModel) -> WriteModel {
        WriteModel {
            desc: TableDescModel { columns: self.desc.columns.update(col, cd), ..self.desc },
            ..self
        }
    }

    /// The table with nothing pending in a column, whose cells are on disk.
    pub open spec fn released(self, col: int) -> WriteModel {
        if 0 <= col < self.cells.len() {
            WriteModel {
                cells: self.cells.update(col, Seq::new(self.cells[col].len(), |i: int| None)),
                pending: self.pending.update(col, Set::empty()),
                ..self
            }
        } else {
            self
        }
    }

    /// The table with nothing pending at all.
    pub open spec fn all_released(self) -> WriteModel {
        WriteModel {
            cells: self.cells.map_values(
                |s: Seq<Option<ValueModel>>| Seq::new(s.len(), |i: int| None),
            ),
            pending: self.pending.map_values(|s: Set<int>| Set::empty()),
            ..self
        }
    }

    /// The value of a cell, with the column's default for one that is not
    /// filled.
    pub open spec fn value(self, col: int, row: int) -> ValueModel {
        match self.cells[col][row] {
            Some(v) => v,
            None => defaults::default_value(self.desc.columns[col]),
        }
    }

    /// All values, column by column.
    pub open spec fn values(self) -> Seq<Seq<ValueModel>> {
        Seq::new(
            self.cells.len(),
            |c: int| Seq::new(self.cells[c].len(), |r: int| self.value(c, r)),
        )
    }

    /// The defaults of all columns have machine sizes.
    pub open spec fn defaults_fit(self) -> bool {
        forall|c: int|
            0 <= c < self.desc.columns.len() ==> defaults::default_fits(
                #[trigger] self.desc.columns[c],
            )
    }

    /// Values of a column with those overlaid that are pending and filled.
    pub open spec fn overlaid(self, col: int, values: Seq<ValueModel>) -> Seq<ValueModel> {
        Seq::new(
            values.len(),
            |r: int|
                if self.pending[col].contains(r) && self.cells[col][r] is Some {
                    self.cells[col][r]->0
                } else {
                    values[r]
                },
        )
    }
}

fn unfilled(n: usize) -> (r: Vec<Option<RecordValue>>)
    ensures
        cell_list(r@) == Seq::new(n as nat, |i: int| None::<ValueModel>),
{
    let mut out: Vec<Option<RecordValue>> = Vec::new();
    let mut i: usize = 0;
    while i < n
        invariant
            i <= n,
            out@.len() == i,
            forall|k: int| 0 <= k < i ==> #[trigger] out@[k] is None,
        decreases n - i,
    {
        out.push(None);
        i = i + 1;
    }
    assert(cell_list(out@) =~= Seq::new(n as nat, |i: int| None::<ValueModel>));
    out
}

fn copied(c: &Option<RecordValue>) -> (r: Option<RecordValue>)
    ensures
        cell_model(r) == cell_model(*c),
{
    match c {
        Some(v) => Some(v.clone()),
        None => None,
    }
}

impl WritableTable {
    /// The table is sound, and the sets of pending rows have room for all
    /// rows.
    pub closed spec fn wf(&self) -> bool {
        &&& self@.sound()
        &&& self@.rows() <= usize::MAX
        &&& forall|c: int|
            0 <= c < self.pending@.len() ==> (#[trigger] self.pending@[c]).room() >= self@.rows()
    }

    /// A well-formed table is sound.
    pub proof fn lemma_sound(&self)
        requires
            self.wf(),
        ensures
            self@.sound(),
            self@.rows() <= usize::MAX,
    {
    }

    /// Start a new table with the given schema and no rows. A relative
    /// directory is seen from the working directory `cwd`.
    pub fn create(dir: &str, cwd: Option<&str>, desc: TableDesc) -> (r: WritableTable)
        ensures
            r.wf(),
            r@ == (WriteModel {
                dir: paths::absolute_name(dir@, json::base_text(cwd)),
                desc: desc@,
                cells: Seq::new(desc@.columns.len(), |c: int| Seq::empty()),
                pending: Seq::new(desc@.columns.len(), |c: int| Set::empty()),
                touched: Seq::new(desc@.columns.len(), |c: int| false),
                meta_dirty: false,
            }),
    {
        let n: usize = desc.columns.len();
        let mut cells: Vec<Vec<Option<RecordValue>>> = Vec::new();
        let mut pending: Vec<RowSet> = Vec::new();
        let mut touched: Vec<bool> = Vec::new();
        let mut i: usize = 0;
        while i < n
            invariant
                i <= n,
                cells@.len() == i,
                pending@.len() == i,
                touched@.len() == i,
                forall|c: int| 0 <= c < i ==> (#[trigger] cells@[c])@.len() == 0,
                forall|c: int| 0 <= c < i ==> (#[trigger] pending@[c])@ == Set::<int>::empty(),
                forall|c: int| 0 <= c < i ==> !#[trigger] touched@[c],
            decreases n - i,
        {
            cells.push(Vec::new());
            pending.push(RowSet::new());
            touched.push(false);
            i = i + 1;
        }
        let ghost d = desc@;
        let r = WritableTable {
            dir: absolute_dir(dir, cwd),
            desc,
            cells,
            pending,
            touched,
            meta_dirty: false,
        };
        proof {
            assert(d.columns.len() == n);
            assert forall|c: int| 0 <= c < n implies (#[trigger] r@.cells[c]) == Seq::<
                Option<ValueModel>,
            >::empty() by {
                assert(cells@[c]@.len() == 0);
                assert(r@.cells[c] =~= Seq::<Option<ValueModel>>::empty());
            }
            assert(r@.cells =~= Seq::new(
                d.columns.len(),
                |c: int| Seq::<Option<ValueModel>>::empty(),
            ));
            assert(r@.pending =~= Seq::new(d.columns.len(), |c: int| Set::<int>::empty()));
            assert(r@.touched =~= Seq::new(d.columns.len(), |c: int| false));
        }
        r
    }

    /// The number of rows.
    pub fn nrows(&self) -> (r: u64)
        requires
            self.wf(),
        ensures
            r == self@.rows(),
    {
        if self.cells.len() == 0 {
            0
        } else {
            assert(self@.cells[0] == cell_list(self.cells@[0]@));
            self.cells[0].len() as u64
        }
    }

    /// Append `n` rows. Their cells hold the columns' default values.
    pub fn addrows(&mut self, n: u64)
        requires
            old(self).wf(),
            old(self)@.defaults_fit(),
            old(self)@.rows() + n <= usize::MAX,
        ensures
            final(self).wf(),
            final(self)@ == old(self)@.with_rows(n as nat),
    {
        let ghost start = self@;
        let ghost before = self.cells@;
        let mut c: usize = 0;
        let columns: usize = self.cells.len();
        while c < columns
            invariant
                c <= columns,
                start == old(self)@,
                start.sound(),
                start.defaults_fit(),
                start.rows() + n <= usize::MAX,
                columns == start.desc.columns.len(),
                columns == self.cells@.len(),
                columns == self.pending@.len(),
                self.desc@ == start.desc,
                self.dir@ == start.dir,
                self.touched@ == start.touched,
                self.meta_dirty == start.meta_dirty,
                row_sets(self.pending@) == start.pending,
                forall|k: int|
                    c <= k < columns ==> cell_list((#[trigger] self.cells@[k])@) == start.cells[k],
                forall|k: int|
                    0 <= k < c ==> cell_list((#[trigger] self.cells@[k])@)
                        == start.with_rows(n as nat).cells[k],
                forall|k: int|
                    0 <= k < c ==> (#[trigger] self.pending@[k]).room() >= start.rows() + n,
            decreases columns - c,
        {
            assert(start.desc.columns[c as int] == self.desc.columns@[c as int]@);
            assert(cell_list(self.cells@[c as int]@) == start.cells[c as int]);
            let cd = &self.desc.columns[c];
            let value = default_cell_value(cd);
            let ghost dv = defaults::default_value(cd@);
            let mut list: Vec<Option<RecordValue>> = Vec::new();
            let len: usize = self.cells[c].len();
            assert(len == start.rows());
            let mut i: usize = 0;
            while i < len
                invariant
                    i <= len,
                    c < self.cells@.len(),
                    len == self.cells@[c as int]@.len(),
                    list@.len() == i,
                    forall|k: int|
                        0 <= k < i ==> cell_model(#[trigger] list@[k]) == cell_model(
                            self.cells@[c as int]@[k],
                        ),
                decreases len - i,
            {
                list.push(copied(&self.cells[c][i]));
                i = i + 1;
            }
            let mut j: u64 = 0;
            while j < n
                invariant
                    j <= n,
                    len + n <= usize::MAX,
                    list@.len() == len + j,
                    value matches Some(v) && v@ == dv,
                    c < self.cells@.len(),
                    len == self.cells@[c as int]@.len(),
                    forall|k: int|
                        0 <= k < len ==> cell_model(#[trigger] list@[k]) == cell_model(
                            self.cells@[c as int]@[k],
                        ),
                    forall|k: int|
                        len <= k < len + j ==> cell_model(#[trigger] list@[k]) == Some(dv),
                decreases n - j,
            {
                list.push(copied(&value));
                j = j + 1;
            }
            let total: usize = list.len();
            assert(cell_list(list@) =~= start.with_rows(n as nat).cells[c as int]) by {
                assert forall|k: int| 0 <= k < len implies cell_list(list@)[k]
                    == start.cells[c as int][k] by {
                    assert(cell_list(self.cells@[c as int]@)[k] == cell_model(
                        self.cells@[c as int]@[k],
                    ));
                    assert(cell_list(list@)[k] == cell_model(list@[k]));
                }
                assert forall|k: int| len <= k < len + n implies cell_list(list@)[k] == Some(
                    dv,
                ) by {
                    assert(cell_list(list@)[k] == cell_model(list@[k]));
                }
            }
            self.cells.set(c, list);
            let ghost sets = self.pending@;
            self.pending[c].reserve(total);
            assert(row_sets(self.pending@) =~= row_sets(sets));
            c = c + 1;
        }
        proof {
            let want = start.with_rows(n as nat);
            assert(self@.cells =~= want.cells);
            assert(self@ == want);
            if columns > 0 {
                assert(want.cells[0].len() == start.rows() + n);
            }
            assert forall|k: int| 0 <= k < want.cells.len() implies (#[trigger] want.cells[k]).len()
                == want.rows() by {
                assert(start.cells[k].len() == start.rows());
            }
            assert forall|k: int, r: int|
                0 <= k < want.pending.len() && (#[trigger] want.pending[k].contains(r)) implies 0 <= r
                < want.rows() by {
                assert(start.pending[k].contains(r));
            }
        }
    }
}

impl WritableTable {
    fn why_not(&self, col_idx: usize, row: u64) -> (r: Option<WriteTableError>)
        requires
            self.wf(),
        ensures
            match self@.refusal(col_idx as int, row) {
                Some(f) => r matches Some(e) && e@ == f,
                None => r is None,
            },
    {
        if col_idx >= self.cells.len() {
            let name: String = String::new();
            assert(name@ =~= Seq::<char>::empty());
            return Some(WriteTableError::NoSuchColumn { name });
        }
        assert(self@.cells[col_idx as int] == cell_list(self.cells@[col_idx as int]@));
        let nrow: u64 = self.cells[col_idx].len() as u64;
        if row >= nrow {
            return Some(WriteTableError::RowOutOfRange { row, nrow });
        }
        None
    }

    fn fill(&mut self, col_idx: usize, row: usize, value: RecordValue)
        requires
            old(self).wf(),
            old(self)@.refusal(col_idx as int, row as u64) is None,
        ensures
            final(self).wf(),
            final(self)@ == old(self)@.filled(col_idx as int, row as int, value@),
    {
        let ghost start = self@;
        let ghost before = self.cells@;
        assert(start.cells[col_idx as int] == cell_list(before[col_idx as int]@));
        self.cells[col_idx].set(row, Some(value));
        proof {
            let want = start.filled(col_idx as int, row as int, value@);
            assert(cell_list(self.cells@[col_idx as int]@) =~= want.cells[col_idx as int]);
            assert(self@.cells =~= want.cells);
            assert(self@ == want);
            assert forall|c: int| 0 <= c < want.cells.len() implies (#[trigger] want.cells[c]).len()
                == want.rows() by {
                assert(start.cells[c].len() == start.rows());
                assert(start.cells[0].len() == start.rows());
            }
            assert forall|c: int, r: int|
                0 <= c < want.pending.len() && (#[trigger] want.pending[c].contains(r)) implies 0 <= r
                < want.rows() by {
                assert(start.pending[c].contains(r));
            }
        }
    }

    /// Load a cell of an existing table without marking the column as
    /// written.
    pub fn putcell_loaded(&mut self, col_idx: usize, row: u64, value: RecordValue) -> (res: Result<
        (),
        WriteTableError,
    >)
        requires
            old(self).wf(),
        ensures
            final(self).wf(),
            match old(self)@.refusal(col_idx as int, row) {
                Some(f) => res is Err && res->Err_0@ == f && final(self)@ == old(self)@,
                None => res is Ok && final(self)@ == old(self)@.filled(
                    col_idx as int,
                    row as int,
                    value@,
                ),
            },
    {
        if let Some(e) = self.why_not(col_idx, row) {
            return Err(e);
        }
        assert(self@.cells[col_idx as int] == cell_list(self.cells@[col_idx as int]@));
        let len: usize = self.cells[col_idx].len();
        assert(row < len);
        self.fill(col_idx, row as usize, value);
        Ok(())
    }

    /// Set one cell.
    pub fn putcell(&mut self, col_idx: usize, row: u64, value: RecordValue) -> (res: Result<
        (),
        WriteTableError,
    >)
        requires
            old(self).wf(),
        ensures
            final(self).wf(),
            match old(self)@.refusal(col_idx as int, row) {
                Some(f) => res is Err && res->Err_0@ == f && final(self)@ == old(self)@,
                None => res is Ok && final(self)@ == old(self)@.written(
                    col_idx as int,
                    row as int,
                    value@,
                ),
            },
    {
        if let Some(e) = self.why_not(col_idx, row) {
            return Err(e);
        }
        let ghost start = self@;
        assert(self@.cells[col_idx as int] == cell_list(self.cells@[col_idx as int]@));
        let len: usize = self.cells[col_idx].len();
        assert(row < len);
        self.fill(col_idx, row as usize, value);
        let ghost mid = self@;
        let ghost sets = self.pending@;
        assert(mid.rows() == start.rows()) by {
            assert(start.cells[0].len() == start.rows());
        }
        self.pending[col_idx].insert(row as usize);
        self.touched.set(col_idx, true);
        proof {
            let want = start.written(col_idx as int, row as int, value@);
            assert(row_sets(self.pending@) =~= want.pending);
            assert(self.touched@ =~= want.touched);
            assert(self@ == want);
            assert(want.cells == mid.cells);
            assert forall|c: int, r: int|
                0 <= c < want.pending.len() && (#[trigger] want.pending[c].contains(r)) implies 0 <= r
                < want.rows() by {
                if c != col_idx || r != row {
                    assert(mid.pending[c].contains(r));
                }
            }
        }
        Ok(())
    }

    /// Write cells starting at `startrow`, up to the first that cannot be
    /// written.
    pub fn putcol(&mut self, col_idx: usize, startrow: u64, values: &[RecordValue]) -> (res: Result<
        (),
        WriteTableError,
    >)
        requires
            old(self).wf(),
        ensures
            final(self).wf(),
            ({
                let (m, f) = old(self)@.column_written(
                    col_idx as int,
                    startrow,
                    record::value_models(values@),
                    0,
                );
                &&& final(self)@ == m
                &&& match f {
                    Some(f) => res is Err && res->Err_0@ == f,
                    None => res is Ok,
                }
            }),
            res is Ok <==> values@.len() == 0 || (col_idx < old(self)@.cells.len() && startrow
                + values@.len() <= old(self)@.rows()),
            res is Ok ==> forall|i: int|
                0 <= i < values@.len() ==> final(self)@.cells[col_idx as int][startrow + i] == Some(
                    (#[trigger] values@[i])@,
                ) && final(self)@.pending[col_idx as int].contains(startrow + i),
            forall|c: int, r: int|
                0 <= c < old(self)@.cells.len() && 0 <= r < old(self)@.rows() && (c != col_idx || r
                    < startrow || r >= startrow + values@.len())
                    ==> #[trigger] final(self)@.cells[c][r] == old(self)@.cells[c][r],
    {
        let ghost start = self@;
        let ghost vs = record::value_models(values@);
        proof {
            self.lemma_sound();
        }
        let res = self.put_values(col_idx, startrow, values);
        proof {
            writelaw::law_column_put(start, col_idx as int, startrow, vs, 0, 0);
            assert forall|i: int| 0 <= i < values@.len() && res is Ok implies self@.cells[col_idx as int][startrow
                + i] == Some((#[trigger] values@[i])@) && self@.pending[col_idx as int].contains(
                startrow + i,
            ) by {
                assert(vs[i] == values@[i]@);
                writelaw::law_column_put(
                    start,
                    col_idx as int,
                    startrow,
                    vs,
                    col_idx as int,
                    startrow + i,
                );
            }
            assert forall|c: int, r: int|
                0 <= c < start.cells.len() && 0 <= r < start.rows() && (c != col_idx || r < startrow
                    || r >= startrow + values@.len()) implies #[trigger] self@.cells[c][r]
                == start.cells[c][r] by {
                writelaw::law_column_put(start, col_idx as int, startrow, vs, c, r);
            }
        }
        res
    }

    fn put_values(&mut self, col_idx: usize, startrow: u64, values: &[RecordValue]) -> (res: Result<
        (),
        WriteTableError,
    >)
        requires
            old(self).wf(),
        ensures
            final(self).wf(),
            ({
                let (m, f) = old(self)@.column_written(
                    col_idx as int,
                    startrow,
                    record::value_models(values@),
                    0,
                );
                &&& final(self)@ == m
                &&& match f {
                    Some(f) => res is Err && res->Err_0@ == f,
                    None => res is Ok,
                }
            }),
    {
        let ghost vs = record::value_models(values@);
        let ghost all = self@.column_written(col_idx as int, startrow, vs, 0);
        let mut i: usize = 0;
        while i < values.len()
            invariant
                i <= values@.len(),
                vs == record::value_models(values@),
                self.wf(),
                startrow + i <= u64::MAX,
                all == old(self)@.column_written(col_idx as int, startrow, vs, 0),
                all == self@.column_written(col_idx as int, startrow, vs, i as int),
            decreases values@.len() - i,
        {
            assert(vs[i as int] == values@[i as int]@);
            let row: u64 = startrow + i as u64;
            self.putcell(col_idx, row, values[i].clone())?;
            assert(row < u64::MAX) by {
                let c = self@.cells[col_idx as int];
                self.lemma_sound();
                assert(c.len() == self@.rows());
            }
            i = i + 1;
        }
        Ok(())
    }

    /// The number of cells of a column.
    pub fn col_len(&self, col_idx: usize) -> (r: usize)
        ensures
            r == if col_idx < self@.cells.len() {
                self@.cells[col_idx as int].len()
            } else {
                0
            },
    {
        if col_idx < self.cells.len() {
            assert(self@.cells[col_idx as int] == cell_list(self.cells@[col_idx as int]@));
            self.cells[col_idx].len()
        } else {
            0
        }
    }

    /// Fill a column's cells from its existing values without marking it as
    /// written. Values beyond the last row are not used.
    pub fn load_column(&mut self, col_idx: usize, values: &[RecordValue]) -> (res: Result<
        (),
        WriteTableError,
    >)
        requires
            old(self).wf(),
        ensures
            final(self).wf(),
            res is Ok,
            final(self)@ == old(self)@.column_filled(
                col_idx as int,
                record::value_models(values@),
                0,
            ),
    {
        let ghost vs = record::value_models(values@);
        let ghost all = self@.column_filled(col_idx as int, vs, 0);
        let n: usize = self.col_len(col_idx);
        let mut i: usize = 0;
        while i < values.len() && i < n
            invariant
                i <= values@.len(),
                i <= n,
                vs == record::value_models(values@),
                self.wf(),
                all == self@.column_filled(col_idx as int, vs, i as int),
                n == if col_idx < self@.cells.len() {
                    self@.cells[col_idx as int].len()
                } else {
                    0
                },
            decreases values@.len() - i,
        {
            assert(vs[i as int] == values@[i as int]@);
            self.putcell_loaded(col_idx, i as u64, values[i].clone())?;
            i = i + 1;
        }
        Ok(())
    }

    /// Append a column. Its cells hold the column's default value at a flush.
    pub fn addcol(&mut self, cd: ColumnDesc)
        requires
            old(self).wf(),
        ensures
            final(self).wf(),
            final(self)@ == old(self)@.with_column(cd@),
    {
        let ghost start = self@;
        let ghost columns = self.desc.columns@;
        let ghost lists = self.cells@;
        let ghost sets = self.pending@;
        let n: usize = if self.cells.len() == 0 {
            0
        } else {
            assert(start.cells[0] == cell_list(self.cells@[0]@));
            self.cells[0].len()
        };
        assert(n == start.rows());
        self.desc.columns.push(cd);
        let list = unfilled(n);
        self.cells.push(list);
        let mut set = RowSet::new();
        set.reserve(n);
        self.pending.push(set);
        self.touched.push(false);
        proof {
            let want = start.with_column(cd@);
            assert(tabledesc::column_models(self.desc.columns@) =~= want.desc.columns);
            assert(self@.desc == want.desc);
            assert(cell_lists(self.cells@) =~= cell_lists(lists).push(cell_list(list@)));
            assert(self@.cells =~= want.cells);
            assert(row_sets(self.pending@) =~= want.pending);
            assert(self@ == want);
            assert(want.rows() == start.rows());
            assert forall|c: int| 0 <= c < want.cells.len() implies (#[trigger] want.cells[c]).len()
                == want.rows() by {
                if c < start.cells.len() {
                    assert(start.cells[c].len() == start.rows());
                }
            }
            assert forall|c: int, r: int|
                0 <= c < want.pending.len() && (#[trigger] want.pending[c].contains(r)) implies 0 <= r
                < want.rows() by {
                if c < start.pending.len() {
                    assert(start.pending[c].contains(r));
                }
            }
        }
    }

    /// Remove a column by index, if it is there.
    pub fn removecol(&mut self, col_idx: usize)
        requires
            old(self).wf(),
        ensures
            final(self).wf(),
            final(self)@ == old(self)@.without_column(col_idx as int),
    {
        let ghost start = self@;
        if col_idx < self.desc.columns.len() {
            let _ = self.desc.columns.remove(col_idx);
            let _ = self.cells.remove(col_idx);
            let _ = self.pending.remove(col_idx);
            let _ = self.touched.remove(col_idx);
            proof {
                let want = start.without_column(col_idx as int);
                assert(tabledesc::column_models(self.desc.columns@) =~= want.desc.columns);
                assert(self@.cells =~= want.cells);
                assert(row_sets(self.pending@) =~= want.pending);
                assert(self@ == want);
                assert forall|c: int| 0 <= c < want.cells.len() implies (#[trigger] want.cells[c]).len()
                    == start.rows() by {
                    if c < col_idx {
                        assert(start.cells[c].len() == start.rows());
                    } else {
                        assert(start.cells[c + 1].len() == start.rows());
                    }
                }
                if want.cells.len() > 0 {
                    assert(want.cells[0].len() == start.rows());
                    assert forall|c: int, r: int|
                        0 <= c < want.pending.len() && (#[trigger] want.pending[c].contains(r)) implies 0
                        <= r < want.rows() by {
                        if c < col_idx {
                            assert(start.pending[c].contains(r));
                        } else {
                            assert(start.pending[c + 1].contains(r));
                        }
                    }
                }
                assert(want.rows() <= start.rows());
            }
        }
    }

    /// Rename a column.
    pub fn renamecol(&mut self, from: &str, to: &str) -> (res: Result<(), WriteTableError>)
        requires
            old(self).wf(),
        ensures
            final(self).wf(),
            match res {
                Ok(_) => exists|i: int| #[trigger]
                    tabledesc::is_first_column(old(self)@.desc.columns, from@, i) && final(self)@
                        == old(self)@.with_desc(
                        i,
                        ColumnModel { name: to@, ..old(self)@.desc.columns[i] },
                    ),
                Err(e) => !tabledesc::has_column(old(self)@.desc.columns, from@) && e@
                    == (WriteFault::NoSuchColumn { name: from@ }) && final(self)@ == old(self)@,
            },
    {
        let ghost start = self@;
        match column_position(&self.desc.columns, from) {
            None => Err(WriteTableError::NoSuchColumn { name: from.to_owned() }),
            Some(i) => {
                let ghost columns = self.desc.columns@;
                self.desc.columns[i].name = to.to_owned();
                proof {
                    let cd = ColumnModel { name: to@, ..start.desc.columns[i as int] };
                    assert(self.desc.columns@[i as int]@ == cd);
                    assert(tabledesc::column_models(self.desc.columns@) =~= start.desc.columns.update(
                        i as int,
                        cd,
                    ));
                    assert(self@ == start.with_desc(i as int, cd));
                    assert(tabledesc::is_first_column(start.desc.columns, from@, i as int));
                }
                Ok(())
            },
        }
    }

    /// The buffered value of one cell.
    pub fn cell(&self, col_idx: usize, row: u64) -> (r: Option<&RecordValue>)
        ensures
            match r {
                Some(v) => col_idx < self@.cells.len() && row < self@.cells[col_idx as int].len()
                    && self@.cells[col_idx as int][row as int] == Some(v@),
                None => col_idx < self@.cells.len() && row < self@.cells[col_idx as int].len()
                    ==> self@.cells[col_idx as int][row as int] is None,
            },
    {
        if col_idx >= self.cells.len() {
            return None;
        }
        let list = &self.cells[col_idx];
        assert(self@.cells[col_idx as int] == cell_list(list@));
        if row >= list.len() as u64 {
            return None;
        }
        assert(cell_list(list@)[row as int] == cell_model(list@[row as int]));
        match &list[row as usize] {
            Some(v) => Some(v),
            None => None,
        }
    }

    /// The value of one cell, if it was written since the last flush.
    pub fn pending_cell(&self, col_idx: usize, row: u64) -> (r: Option<&RecordValue>)
        requires
            self.wf(),
        ensures
            match r {
                Some(v) => col_idx < self@.cells.len() && self@.pending[col_idx as int].contains(
                    row as int,
                ) && self@.cells[col_idx as int][row as int] == Some(v@),
                None => col_idx < self@.cells.len() && self@.pending[col_idx as int].contains(
                    row as int,
                ) ==> self@.cells[col_idx as int][row as int] is None,
            },
    {
        if col_idx >= self.pending.len() {
            return None;
        }
        assert(self@.pending[col_idx as int] == self.pending@[col_idx as int]@);
        if self.pending[col_idx].contains(row) {
            assert(self@.cells[col_idx as int].len() == self@.rows());
            self.cell(col_idx, row)
        } else {
            None
        }
    }

    /// Cache sizes are not kept.
    pub fn setmaxcachesize(&mut self, _col_idx: usize, _size: usize)
        ensures
            *final(self) == *old(self),
    {
    }

    /// Set a table keyword. The names of subtables are stored relative to
    /// the table directory.
    pub fn putkeyword(&mut self, name: &str, value: &RecordValue)
        requires
            old(self).wf(),
            old(self)@.desc.keywords.backed(name@),
        ensures
            final(self).wf(),
            final(self)@ == (WriteModel {
                desc: TableDescModel {
                    keywords: old(self)@.desc.keywords.set(
                        name@,
                        defaults::relative_value(value@, old(self)@.dir),
                    ),
                    ..old(self)@.desc
                },
                meta_dirty: true,
                ..old(self)@
            }),
    {
        let stored = relativize_subtables(value, self.dir.as_str());
        self.desc.keywords.set(name, stored);
        self.meta_dirty = true;
    }

    /// Remove a table keyword, if it is there.
    pub fn removekeyword(&mut self, name: &str)
        requires
            old(self).wf(),
            old(self)@.desc.keywords.backed(name@),
        ensures
            final(self).wf(),
            final(self)@ == (WriteModel {
                desc: TableDescModel {
                    keywords: old(self)@.desc.keywords.remove(name@),
                    ..old(self)@.desc
                },
                meta_dirty: true,
                ..old(self)@
            }),
    {
        self.desc.keywords.remove(name);
        self.meta_dirty = true;
    }

    /// The table keywords as a JSON object.
    pub fn keywords_json(&self, numbers: &FloatTexts) -> (r: String)
        ensures
            r@ == json::record_json(self@.desc.keywords, None, numbers@),
    {
        self.desc.keywords.to_json_string(numbers)
    }

    /// The table description.
    pub fn desc(&self) -> (r: &TableDesc)
        ensures
            r@ == self@.desc,
    {
        &self.desc
    }

    /// The table directory.
    pub fn dir(&self) -> (r: &str)
        ensures
            r@ == self@.dir,
    {
        self.dir.as_str()
    }

    fn no_column(&self, col_idx: usize) -> (e: WriteTableError)
        requires
            col_idx >= self@.desc.columns.len(),
        ensures
            e@ == (WriteFault::NoSuchColumn { name: self@.column_name(col_idx as int) }),
    {
        let name: String = String::new();
        assert(name@ =~= Seq::<char>::empty());
        WriteTableError::NoSuchColumn { name }
    }

    /// Set a column keyword. The names of subtables are stored relative to
    /// the table directory.
    pub fn putcolkeyword(&mut self, col_idx: usize, name: &str, value: &RecordValue) -> (res: Result<
        (),
        WriteTableError,
    >)
        requires
            old(self).wf(),
            col_idx < old(self)@.desc.columns.len()
                ==> old(self)@.desc.columns[col_idx as int].keywords.backed(name@),
        ensures
            final(self).wf(),
            if col_idx < old(self)@.desc.columns.len() {
                let cd = old(self)@.desc.columns[col_idx as int];
                &&& res is Ok
                &&& final(self)@ == (WriteModel {
                    meta_dirty: true,
                    ..old(self)@.with_desc(
                        col_idx as int,
                        ColumnModel {
                            keywords: cd.keywords.set(
                                name@,
                                defaults::relative_value(value@, old(self)@.dir),
                            ),
                            ..cd
                        },
                    )
                })
            } else {
                &&& res is Err
                &&& res->Err_0@ == (WriteFault::NoSuchColumn {
                    name: old(self)@.column_name(col_idx as int),
                })
                &&& final(self)@ == old(self)@
            },
    {
        let ghost start = self@;
        if col_idx >= self.desc.columns.len() {
            return Err(self.no_column(col_idx));
        }
        assert(start.desc.columns[col_idx as int] == self.desc.columns@[col_idx as int]@);
        let stored = relativize_subtables(value, self.dir.as_str());
        self.desc.columns[col_idx].keywords.set(name, stored);
        self.meta_dirty = true;
        proof {
            let cd = self.desc.columns@[col_idx as int]@;
            assert(tabledesc::column_models(self.desc.columns@) =~= start.desc.columns.update(
                col_idx as int,
                cd,
            ));
        }
        Ok(())
    }

    /// Remove a column keyword, if it is there.
    pub fn removecolkeyword(&mut self, col_idx: usize, name: &str) -> (res: Result<
        (),
        WriteTableError,
    >)
        requires
            old(self).wf(),
            col_idx < old(self)@.desc.columns.len()
                ==> old(self)@.desc.columns[col_idx as int].keywords.backed(name@),
        ensures
            final(self).wf(),
            if col_idx < old(self)@.desc.columns.len() {
                let cd = old(self)@.desc.columns[col_idx as int];
                &&& res is Ok
                &&& final(self)@ == (WriteModel {
                    meta_dirty: true,
                    ..old(self)@.with_desc(
                        col_idx as int,
                        ColumnModel { keywords: cd.keywords.remove(name@), ..cd },
                    )
                })
            } else {
                &&& res is Err
                &&& res->Err_0@ == (WriteFault::NoSuchColumn {
                    name: old(self)@.column_name(col_idx as int),
                })
                &&& final(self)@ == old(self)@
            },
    {
        let ghost start = self@;
        if col_idx >= self.desc.columns.len() {
            return Err(self.no_column(col_idx));
        }
        assert(start.desc.columns[col_idx as int] == self.desc.columns@[col_idx as int]@);
        self.desc.columns[col_idx].keywords.remove(name);
        self.meta_dirty = true;
        proof {
            let cd = self.desc.columns@[col_idx as int]@;
            assert(tabledesc::column_models(self.desc.columns@) =~= start.desc.columns.update(
                col_idx as int,
                cd,
            ));
        }
        Ok(())
    }
}

/// The kept rows are among the rows, ascending.
pub proof fn lemma_kept(rows: Seq<u64>, n: nat)
    requires
        n <= u64::MAX + 1,
    ensures
        kept_rows(rows, n).len() <= n,
        forall|j: int|
            0 <= j < kept_rows(rows, n).len() ==> 0 <= #[trigger] kept_rows(rows, n)[j] < n
                && !rows.contains(kept_rows(rows, n)[j] as u64),
        forall|i: int, j: int|
            0 <= i < j < kept_rows(rows, n).len() ==> kept_rows(rows, n)[i] < kept_rows(
                rows,
                n,
            )[j],
    decreases n,
{
    if n > 0 {
        lemma_kept(rows, (n - 1) as nat);
    }
}

fn lists_row(rows: &[u64], row: u64) -> (r: bool)
    ensures
        r == rows@.contains(row),
{
    let mut i: usize = 0;
    while i < rows.len()
        invariant
            i <= rows@.len(),
            forall|k: int| 0 <= k < i ==> rows@[k] != row,
        decreases rows@.len() - i,
    {
        if rows[i] == row {
            assert(rows@[i as int] == row);
            return true;
        }
        i = i + 1;
    }
    false
}

fn keep(rows: &[u64], n: usize) -> (r: Vec<usize>)
    ensures
        r@.len() == kept_rows(rows@, n as nat).len(),
        forall|j: int| 0 <= j < r@.len() ==> #[trigger] r@[j] == kept_rows(rows@, n as nat)[j],
{
    let mut out: Vec<usize> = Vec::new();
    let mut i: usize = 0;
    while i < n
        invariant
            i <= n,
            out@.len() == kept_rows(rows@, i as nat).len(),
            forall|j: int|
                0 <= j < out@.len() ==> #[trigger] out@[j] == kept_rows(rows@, i as nat)[j],
        decreases n - i,
    {
        if !lists_row(rows, i as u64) {
            out.push(i);
        }
        i = i + 1;
    }
    out
}

fn kept_cells(list: &Vec<Option<RecordValue>>, kept: &Vec<usize>) -> (r: Vec<Option<RecordValue>>)
    requires
        forall|j: int| 0 <= j < kept@.len() ==> #[trigger] kept@[j] < list@.len(),
    ensures
        cell_list(r@) == Seq::new(kept@.len(), |j: int| cell_list(list@)[kept@[j] as int]),
{
    let mut out: Vec<Option<RecordValue>> = Vec::new();
    let mut j: usize = 0;
    while j < kept.len()
        invariant
            j <= kept@.len(),
            out@.len() == j,
            forall|j: int| 0 <= j < kept@.len() ==> #[trigger] kept@[j] < list@.len(),
            forall|k: int|
                0 <= k < j ==> cell_model(#[trigger] out@[k]) == cell_model(
                    list@[kept@[k] as int],
                ),
        decreases kept@.len() - j,
    {
        out.push(copied(&list[kept[j]]));
        j = j + 1;
    }
    assert(cell_list(out@) =~= Seq::new(
        kept@.len(),
        |j: int| cell_list(list@)[kept@[j] as int],
    ));
    out
}

fn kept_set(set: &RowSet, kept: &Vec<usize>, rows: Ghost<Seq<int>>) -> (r: RowSet)
    requires
        rows@.len() == kept@.len(),
        forall|j: int| 0 <= j < kept@.len() ==> #[trigger] kept@[j] == rows@[j],
    ensures
        r@ == rowset::renumbered(set@, rows@),
        r.room() >= kept@.len(),
{
    let mut out = RowSet::new();
    out.reserve(kept.len());
    let mut j: usize = 0;
    while j < kept.len()
        invariant
            j <= kept@.len(),
            rows@.len() == kept@.len(),
            forall|j: int| 0 <= j < kept@.len() ==> #[trigger] kept@[j] == rows@[j],
            out.room() >= kept@.len(),
            forall|k: int| #[trigger]
                out@.contains(k) <==> 0 <= k < j && set@.contains(rows@[k]),
        decreases kept@.len() - j,
    {
        if set.contains(kept[j] as u64) {
            out.insert(j);
        }
        j = j + 1;
    }
    assert(out@ =~= rowset::renumbered(set@, rows@));
    out
}

impl WritableTable {
    /// Remove the given rows. The surviving rows are renumbered, with what is
    /// pending of them.
    pub fn drop_rows(&mut self, rows: &[u64])
        requires
            old(self).wf(),
        ensures
            final(self).wf(),
            final(self)@ == old(self)@.with_kept(kept_rows(rows@, old(self)@.rows())),
    {
        let ghost start = self@;
        let columns: usize = self.cells.len();
        let n: usize = if columns == 0 {
            0
        } else {
            assert(start.cells[0] == cell_list(self.cells@[0]@));
            self.cells[0].len()
        };
        let kept = keep(rows, n);
        let ghost ks = kept_rows(rows@, n as nat);
        proof {
            lemma_kept(rows@, n as nat);
        }
        let mut c: usize = 0;
        while c < columns
            invariant
                c <= columns,
                start.sound(),
                n == start.rows(),
                ks == kept_rows(rows@, n as nat),
                kept@.len() == ks.len(),
                forall|j: int| 0 <= j < kept@.len() ==> #[trigger] kept@[j] == ks[j],
                forall|j: int| 0 <= j < ks.len() ==> 0 <= #[trigger] ks[j] < n,
                columns == start.desc.columns.len(),
                columns == self.cells@.len(),
                columns == self.pending@.len(),
                self.desc@ == start.desc,
                self.dir@ == start.dir,
                self.touched@ == start.touched,
                self.meta_dirty == start.meta_dirty,
                forall|k: int|
                    c <= k < columns ==> cell_list((#[trigger] self.cells@[k])@) == start.cells[k],
                forall|k: int|
                    c <= k < columns ==> (#[trigger] self.pending@[k])@ == start.pending[k],
                forall|k: int|
                    0 <= k < c ==> cell_list((#[trigger] self.cells@[k])@)
                        == start.with_kept(ks).cells[k],
                forall|k: int|
                    0 <= k < c ==> (#[trigger] self.pending@[k])@ == start.with_kept(ks).pending[k],
                forall|k: int|
                    0 <= k < c ==> (#[trigger] self.pending@[k]).room() >= ks.len(),
            decreases columns - c,
        {
            assert(cell_list(self.cells@[c as int]@) == start.cells[c as int]);
            assert(start.cells[c as int].len() == start.rows());
            let list = kept_cells(&self.cells[c], &kept);
            let set = kept_set(&self.pending[c], &kept, Ghost(ks));
            assert(cell_list(list@) =~= start.with_kept(ks).cells[c as int]);
            self.cells.set(c, list);
            self.pending.set(c, set);
            c = c + 1;
        }
        proof {
            let want = start.with_kept(ks);
            assert(self@.cells =~= want.cells);
            assert(self@.pending =~= want.pending);
            assert(self@ == want);
            if columns > 0 {
                assert(want.cells[0].len() == ks.len());
            }
            assert forall|k: int| 0 <= k < want.cells.len() implies (#[trigger] want.cells[k]).len()
                == want.rows() by {
                assert(start.cells[k].len() == start.rows());
            }
            assert forall|k: int, r: int|
                0 <= k < want.pending.len() && (#[trigger] want.pending[k].contains(r)) implies 0 <= r
                < want.rows() by {}
        }
    }

    /// The whole cell store as per-column value lists, with the columns'
    /// defaults for the cells that are not filled.
    pub fn materialize_all(&self) -> (res: Result<Vec<Vec<RecordValue>>, WriteTableError>)
        requires
            self.wf(),
            self@.rows() > 0 ==> self@.defaults_fit(),
        ensures
            res is Ok,
            ssmdata::value_lists(res->Ok_0@) == self@.values(),
    {
        let mut out: Vec<Vec<RecordValue>> = Vec::new();
        let mut c: usize = 0;
        while c < self.cells.len()
            invariant
                c <= self.cells@.len(),
                self.wf(),
                self@.rows() > 0 ==> self@.defaults_fit(),
                out@.len() == c,
                forall|k: int|
                    0 <= k < c ==> record::value_models((#[trigger] out@[k])@)
                        == self@.values()[k],
            decreases self.cells@.len() - c,
        {
            let cd = &self.desc.columns[c];
            let list = &self.cells[c];
            assert(self@.desc.columns[c as int] == cd@);
            assert(self@.cells[c as int] == cell_list(list@));
            assert(list@.len() == self@.rows());
            let mut values: Vec<RecordValue> = Vec::new();
            let mut r: usize = 0;
            while r < list.len()
                invariant
                    r <= list@.len(),
                    list@.len() > 0 ==> defaults::default_fits(cd@),
                    self@.desc.columns[c as int] == cd@,
                    self@.cells[c as int] == cell_list(list@),
                    values@.len() == r,
                    forall|k: int|
                        0 <= k < r ==> (#[trigger] values@[k])@ == self@.value(c as int, k),
                decreases list@.len() - r,
            {
                assert(self@.cells[c as int][r as int] == cell_model(list@[r as int]));
                match &list[r] {
                    Some(v) => {
                        values.push(v.clone());
                    },
                    None => match default_cell_value(cd) {
                        Some(v) => {
                            values.push(v);
                        },
                        None => {
                            return Err(WriteTableError::NoDefault { name: cd.name.clone() });
                        },
                    },
                }
                r = r + 1;
            }
            assert(record::value_models(values@) =~= self@.values()[c as int]);
            out.push(values);
            c = c + 1;
        }
        assert(ssmdata::value_lists(out@) =~= self@.values());
        Ok(out)
    }

    /// Whether any row of a column was written since the last flush.
    pub fn has_pending(&self, col_idx: usize) -> (r: bool)
        ensures
            r == (col_idx < self@.pending.len() && exists|row: int| #[trigger]
                self@.pending[col_idx as int].contains(row)),
    {
        if col_idx >= self.pending.len() {
            return false;
        }
        assert(self@.pending[col_idx as int] == self.pending@[col_idx as int]@);
        self.pending[col_idx].any()
    }

    /// The rows of a column written since the last flush, ascending.
    pub fn pending_rows(&self, col_idx: usize) -> (out: Vec<u64>)
        requires
            self.wf(),
        ensures
            col_idx >= self@.pending.len() ==> out@.len() == 0,
            forall|i: int, j: int| 0 <= i < j < out@.len() ==> out@[i] < out@[j],
            col_idx < self@.pending.len() ==> forall|r: int|
                self@.pending[col_idx as int].contains(r) <==> 0 <= r <= u64::MAX
                    && #[trigger] out@.contains(r as u64),
    {
        let mut out: Vec<u64> = Vec::new();
        if col_idx >= self.pending.len() {
            return out;
        }
        let ghost set = self@.pending[col_idx as int];
        assert(set == self.pending@[col_idx as int]@);
        let n: u64 = self.nrows();
        let mut row: u64 = 0;
        while row < n
            invariant
                self.wf(),
                n == self@.rows(),
                row <= n,
                col_idx < self.pending@.len(),
                set == self.pending@[col_idx as int]@,
                forall|i: int, j: int| 0 <= i < j < out@.len() ==> out@[i] < out@[j],
                forall|i: int|
                    0 <= i < out@.len() ==> set.contains(#[trigger] out@[i] as int) && out@[i] < row,
                forall|r: int| 0 <= r < row && #[trigger] set.contains(r) ==> out@.contains(r as u64),
            decreases n - row,
        {
            let ghost before = out@;
            if self.pending[col_idx].contains(row) {
                out.push(row);
                assert(out@[before.len() as int] == row);
                assert forall|r: int| 0 <= r < row && #[trigger] set.contains(r) implies out@.contains(
                    r as u64,
                ) by {
                    let k = choose|k: int| 0 <= k < before.len() && before[k] == r as u64;
                    assert(out@[k] == r as u64);
                }
            }
            row = row + 1;
        }
        assert forall|r: int| set.contains(r) <==> 0 <= r <= u64::MAX && #[trigger] out@.contains(
            r as u64,
        ) by {
            if set.contains(r) {
                assert(self@.pending[col_idx as int].contains(r));
                assert(0 <= r < self@.rows());
            }
        }
        out
    }

    /// Drop the buffered values and marks of one column: its rows now live on
    /// disk.
    pub fn clear_pending(&mut self, col_idx: usize)
        requires
            old(self).wf(),
        ensures
            final(self).wf(),
            final(self)@ == old(self)@.released(col_idx as int),
    {
        let ghost start = self@;
        if col_idx < self.cells.len() {
            assert(start.cells[col_idx as int] == cell_list(self.cells@[col_idx as int]@));
            let n: usize = self.cells[col_idx].len();
            let list = unfilled(n);
            self.cells.set(col_idx, list);
            self.pending[col_idx].clear();
            proof {
                let want = start.released(col_idx as int);
                assert(self@.cells =~= want.cells);
                assert(self@.pending =~= want.pending);
                assert(self@ == want);
                assert(start.cells[0].len() == start.rows());
                assert forall|k: int| 0 <= k < want.cells.len() implies (#[trigger] want.cells[k]).len()
                    == want.rows() by {
                    assert(start.cells[k].len() == start.rows());
                }
                assert forall|k: int, r: int|
                    0 <= k < want.pending.len() && (#[trigger] want.pending[k].contains(r)) implies 0
                    <= r < want.rows() by {
                    assert(start.pending[k].contains(r));
                }
            }
        }
    }

    /// Drop the buffered values and marks of all columns.
    pub fn clear_all_pending(&mut self)
        requires
            old(self).wf(),
        ensures
            final(self).wf(),
            final(self)@ == old(self)@.all_released(),
    {
        let ghost start = self@;
        let n: usize = self.cells.len();
        let mut c: usize = 0;
        while c < n
            invariant
                c <= n,
                start == old(self)@,
                self.wf(),
                n == start.cells.len(),
                n == self@.cells.len(),
                start.sound(),
                self@.dir == start.dir,
                self@.desc == start.desc,
                self@.touched == start.touched,
                self@.meta_dirty == start.meta_dirty,
                forall|k: int|
                    0 <= k < c ==> #[trigger] self@.cells[k] == start.all_released().cells[k],
                forall|k: int|
                    0 <= k < c ==> #[trigger] self@.pending[k] == Set::<int>::empty(),
                forall|k: int| c <= k < n ==> #[trigger] self@.cells[k] == start.cells[k],
            decreases n - c,
        {
            assert(self@.cells[c as int] == start.cells[c as int]);
            self.clear_pending(c);
            assert(self@.cells[c as int] =~= start.all_released().cells[c as int]);
            c = c + 1;
        }
        proof {
            let want = start.all_released();
            assert(self@.cells =~= want.cells);
            assert(self@.pending =~= want.pending);
            assert(self@ == want);
        }
    }

    /// Which columns were written, column by column.
    pub fn touched(&self, col_idx: usize) -> (r: bool)
        ensures
            r == (col_idx < self@.touched.len() && self@.touched[col_idx as int]),
    {
        col_idx < self.touched.len() && self.touched[col_idx]
    }

    /// Whether a keyword was written.
    pub fn meta_dirty(&self) -> (r: bool)
        ensures
            r == self@.meta_dirty,
    {
        self.meta_dirty
    }
}

} // verus!
