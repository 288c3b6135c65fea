//! What a flush stores: the written cells over the stored ones.
use crate::celllaw;
use crate::defaults;
use crate::record::ValueModel;
use crate::rowset;
use crate::ssmcell;
use crate::ssmdata::Supplied;
use crate::tablecreate;
use crate::tablecreate::TiledImageModel;
use crate::tabledesc::ColumnModel;
use crate::tablelaw;
use crate::tableread;
use crate::tableread::{ReadFault, TableModel};
use crate::writetable;
use crate::writetable::{WriteFault, WriteModel};
use vstd::prelude::*;

verus! {

/// A written cell is there and pending; every other cell stays as it was, and
/// so does what is pending elsewhere.
pub proof fn law_written_cell(m: WriteModel, col: int, row: u64, v: ValueModel, c: int, r: int)
    requires
        m.sound(),
        0 <= col,
        m.refusal(col, row) is None,
        0 <= c < m.cells.len(),
        0 <= r < m.rows(),
    ensures
        ({
            let n = m.written(col, row as int, v);
            &&& n.rows() == m.rows()
            &&& n.sound()
            &&& n.cells[col][row as int] == Some(v)
            &&& n.pending[col].contains(row as int)
            &&& c != col || r != row ==> n.cells[c][r] == m.cells[c][r] && n.pending[c].contains(r)
                == m.pending[c].contains(r)
        }),
{
    let n = m.written(col, row as int, v);
    assert(m.cells[col].len() == m.rows());
    assert(n.rows() == m.rows());
    assert forall|x: int| 0 <= x < n.cells.len() implies (#[trigger] n.cells[x]).len()
        == n.rows() by {
        assert(m.cells[x].len() == m.rows());
    }
    assert forall|x: int, y: int|
        0 <= x < n.pending.len() && (#[trigger] n.pending[x].contains(y)) implies 0 <= y
        < n.rows() by {
        if x != col || y != row {
            assert(m.pending[x].contains(y));
        }
    }
}

/// The rows that stay are those not listed, in their order.
pub proof fn law_kept_rows(rows: Seq<u64>, n: nat, r: int)
    requires
        n <= u64::MAX,
        0 <= r < n,
    ensures
        writetable::kept_rows(rows, n).contains(r) <==> !rows.contains(r as u64),
        forall|i: int, j: int|
            0 <= i < j < writetable::kept_rows(rows, n).len() ==> #[trigger] writetable::kept_rows(
                rows,
                n,
            )[i] < #[trigger] writetable::kept_rows(rows, n)[j],
{
    lemma_kept(rows, n);
}

#[verifier::rlimit(40)]
proof fn lemma_kept(rows: Seq<u64>, n: nat)
    requires
        n <= u64::MAX,
    ensures
        ({
            let kept = writetable::kept_rows(rows, n);
            &&& forall|i: int| 0 <= i < kept.len() ==> 0 <= #[trigger] kept[i] < n
            &&& forall|r: int|
                0 <= r < n ==> (#[trigger] kept.contains(r) <==> !rows.contains(r as u64))
            &&& forall|i: int, j: int|
                0 <= i < j < kept.len() ==> #[trigger] kept[i] < #[trigger] kept[j]
        }),
    decreases n,
{
    if n > 0 {
        let before = writetable::kept_rows(rows, (n - 1) as nat);
        let kept = writetable::kept_rows(rows, n);
        lemma_kept(rows, (n - 1) as nat);
        assert forall|r: int| 0 <= r < n implies (#[trigger] kept.contains(r) <==> !rows.contains(
            r as u64,
        )) by {
            if r < n - 1 {
                assert(before.contains(r) <==> !rows.contains(r as u64));
                if before.contains(r) {
                    let i = before.index_of(r);
                    assert(kept[i] == r);
                }
                if kept.contains(r) {
                    let i = kept.index_of(r);
                    assert(i < before.len() ==> before[i] == r);
                }
            } else {
                if !rows.contains(r as u64) {
                    assert(kept[before.len() as int] == r);
                } else if before.contains(r) {
                    let i = before.index_of(r);
                    assert(before[i] < n - 1);
                }
            }
        }
    }
}

/// The value that a flush stores for a cell: the one written, where it is
/// pending, else the one on disk.
pub open spec fn flushed(m: WriteModel, disk: TableModel, col: int, row: int) -> ValueModel {
    if m.pending[col].contains(row) && m.cells[col][row] is Some {
        m.cells[col][row]->0
    } else {
        disk.cell(col, row as u64)->Ok_0
    }
}

pub proof fn lemma_cells(disk: TableModel, col: int, row: int, n: nat, acc: Seq<ValueModel>, r: int)
    requires
        disk.cells(col, row, n, acc) is Ok,
    ensures
        ({
            let all = disk.cells(col, row, n, acc)->Ok_0;
            &&& all.len() == acc.len() + n
            &&& 0 <= r < acc.len() ==> all[r] == acc[r]
            &&& acc.len() <= r < all.len() ==> disk.cell(col, (row + (r - acc.len())) as u64)
                == Ok::<ValueModel, crate::tableread::ReadFault>(all[r])
        }),
    decreases n,
{
    if n > 0 {
        let v = disk.cell(col, row as u64)->Ok_0;
        lemma_cells(disk, col, row + 1, (n - 1) as nat, acc.push(v), r);
    }
}

/// No column is listed twice.
pub open spec fn listed_once(cols: Seq<usize>) -> bool {
    forall|i: int, j: int| 0 <= i < j < cols.len() ==> #[trigger] cols[i] != #[trigger] cols[j]
}

#[verifier::rlimit(40)]
pub proof fn lemma_manager_values(
    m: WriteModel,
    disk: TableModel,
    cols: Seq<usize>,
    k: int,
    acc: Seq<Seq<ValueModel>>,
    c: int,
)
    requires
        0 <= k <= cols.len(),
        listed_once(cols),
        acc.len() == m.desc.columns.len(),
        forall|i: int| 0 <= i < cols.len() ==> #[trigger] cols[i] < m.desc.columns.len(),
        m.manager_values(disk, cols, k, acc) is Ok,
        0 <= c < acc.len(),
    ensures
        ({
            let vs = m.manager_values(disk, cols, k, acc)->Ok_0;
            &&& vs.len() == acc.len()
            &&& (forall|i: int| k <= i < cols.len() ==> #[trigger] cols[i] != c) ==> vs[c] == acc[c]
            &&& forall|i: int|
                k <= i < cols.len() && #[trigger] cols[i] == c ==> m.current(disk, c) == Ok::<
                    Seq<ValueModel>,
                    WriteFault,
                >(vs[c])
        }),
    decreases cols.len() - k,
{
    if k < cols.len() {
        let vs = m.current(disk, cols[k] as int)->Ok_0;
        let next = acc.update(cols[k] as int, vs);
        lemma_manager_values(m, disk, cols, k + 1, next, c);
        if cols[k] == c {
            assert forall|i: int| k + 1 <= i < cols.len() implies #[trigger] cols[i] != c by {
                assert(cols[k] != cols[i]);
            }
        }
    }
}

/// A manager's files are rebuilt from the written values and, where a row was
/// not written, the values on disk.
pub proof fn law_flushed_values(m: WriteModel, disk: TableModel, cols: Seq<usize>, j: int, row: u64)
    requires
        listed_once(cols),
        forall|i: int| 0 <= i < cols.len() ==> #[trigger] cols[i] < m.desc.columns.len(),
        m.manager_values(disk, cols, 0, m.no_values()) is Ok,
        0 <= j < cols.len(),
        row < m.rows(),
    ensures
        ({
            let vs = m.manager_values(disk, cols, 0, m.no_values())->Ok_0;
            &&& vs[cols[j] as int].len() == m.rows()
            &&& vs[cols[j] as int][row as int] == flushed(m, disk, cols[j] as int, row as int)
        }),
{
    let c = cols[j] as int;
    lemma_manager_values(m, disk, cols, 0, m.no_values(), c);
    assert(cols[j] == c);
    lemma_cells(disk, c, 0, m.rows(), Seq::empty(), row as int);
}

/// A whole table that was flushed is read back: every cell has its value, and
/// one that was never filled its column's default.
pub proof fn law_regrown_reads_back(
    path: Seq<char>,
    readonly: bool,
    m: WriteModel,
    t: Supplied,
    images: Seq<TiledImageModel>,
    c: int,
    row: u64,
)
    requires
        m.sound(),
        tablelaw::storable(m.desc, m.values(), t, images),
        0 <= c < m.desc.columns.len(),
        row < m.rows(),
        m.rows() <= u64::MAX,
        tablelaw::faithful(m.desc.columns[c], m.value(c, row as int)),
    ensures
        ({
            let files = tablecreate::created(m.desc, m.values(), t, images)->Ok_0;
            let fs = tablelaw::found(files.files, tablelaw::slots(m.desc).len());
            tableread::table_of(path, readonly, files.dat, None, fs) matches Ok(r) && r.cell(c, row)
                == Ok::<ValueModel, ReadFault>(m.value(c, row as int))
        }),
{
    assert(m.cells[c].len() == m.rows());
    assert(m.cells[0].len() == m.rows());
    assert(m.values()[0].len() == m.rows());
    assert(m.values()[c][row as int] == m.value(c, row as int));
    tablelaw::law_created_reads_back(path, readonly, m.desc, m.values(), t, images, c, row);
}

/// Rows that were appended hold the columns' defaults: in a column of arrays of
/// one shape, arrays of that shape all of whose elements are zero. Nothing else
/// changes.
pub proof fn law_appended_rows(m: WriteModel, n: nat, c: int, r: int)
    requires
        m.sound(),
        0 <= c < m.cells.len(),
        0 <= r < m.rows() + n,
    ensures
        ({
            let after = m.with_rows(n);
            let cd = m.desc.columns[c];
            &&& after.rows() == m.rows() + n
            &&& after.cells.len() == m.cells.len()
            &&& after.cells[c].len() == m.rows() + n
            &&& after.desc == m.desc
            &&& after.pending == m.pending
            &&& after.touched == m.touched
            &&& r < m.rows() ==> after.cells[c][r] == m.cells[c][r]
            &&& r >= m.rows() && cd.kind is Scalar ==> after.cells[c][r] == Some(cd.kind->Scalar_0)
            &&& r >= m.rows() && cd.kind is Array && defaults::holds_arrays(cd.data_type) && (
            cd.shape matches Some(s) && s.len() > 0 && forall|i: int|
                0 <= i < s.len() ==> 0 <= #[trigger] s[i] <= u32::MAX) ==> (
            after.cells[c][r] matches Some(ValueModel::Array(a)) && {
                let s = cd.shape->0;
                &&& a.shape.len() == s.len()
                &&& forall|i: int| 0 <= i < s.len() ==> #[trigger] a.shape[i] == s[s.len() - 1 - i]
                &&& defaults::of_type(cd.data_type, a.data)
                &&& defaults::all_zero(a.data)
                &&& celllaw::element_count(a.data) == ssmcell::product(a.shape)
            })
        }),
{
    let cd = m.desc.columns[c];
    assert(m.cells[c].len() == m.rows());
    assert(m.cells[0].len() == m.rows());
    if cd.kind is Array && defaults::holds_arrays(cd.data_type) && (cd.shape matches Some(s)
        && s.len() > 0 && forall|i: int|
        0 <= i < s.len() ==> 0 <= #[trigger] s[i] <= u32::MAX) {
        defaults::law_unwritten_array(cd);
    }
}

/// The values of a column that was put, from the value `i` on.
#[verifier::rlimit(40)]
proof fn lemma_column_put(
    m: WriteModel,
    col: int,
    start: u64,
    values: Seq<ValueModel>,
    i: int,
    c: int,
    r: int,
)
    requires
        m.sound(),
        0 <= i <= values.len(),
        0 <= col,
        start + i <= u64::MAX,
        m.rows() <= u64::MAX,
    ensures
        ({
            let (after, fault) = m.column_written(col, start, values, i);
            &&& after.sound()
            &&& after.cells.len() == m.cells.len()
            &&& after.rows() == m.rows()
            &&& after.desc == m.desc
            &&& fault is None <==> i == values.len() || (col < m.cells.len() && start
                + values.len() <= m.rows())
            &&& 0 <= c < m.cells.len() && 0 <= r < m.rows() ==> {
                &&& fault is None && c == col && start + i <= r < start + values.len() ==> {
                    &&& after.cells[c][r] == Some(values[r - start])
                    &&& after.pending[c].contains(r)
                }
                &&& c != col || r < start + i || r >= start + values.len() ==> {
                    &&& after.cells[c][r] == m.cells[c][r]
                    &&& after.pending[c].contains(r) == m.pending[c].contains(r)
                }
            }
        }),
    decreases values.len() - i,
{
    if i < values.len() {
        if m.refusal(col, (start + i) as u64) is None {
            let row = start + i;
            assert(m.cells[col].len() == m.rows());
            law_written_cell(m, col, row as u64, values[i], col, row);
            if 0 <= c < m.cells.len() && 0 <= r < m.rows() {
                law_written_cell(m, col, row as u64, values[i], c, r);
            }
            lemma_column_put(m.written(col, row, values[i]), col, start, values, i + 1, c, r);
        } else if col < m.cells.len() {
            assert(m.cells[col].len() == m.rows());
        }
    }
}

/// Putting a column of values from a row on: it succeeds where the column has
/// that many rows from there on (or no value is given), and then value `i` is
/// in the row `start + i` and pending; every other cell stays as it was, and so
/// does whether it is pending.
pub proof fn law_column_put(
    m: WriteModel,
    col: int,
    start: u64,
    values: Seq<ValueModel>,
    c: int,
    r: int,
)
    requires
        m.sound(),
        m.rows() <= u64::MAX,
        0 <= col,
    ensures
        ({
            let (after, fault) = m.column_written(col, start, values, 0);
            &&& after.cells.len() == m.cells.len()
            &&& after.rows() == m.rows()
            &&& after.desc == m.desc
            &&& fault is None <==> values.len() == 0 || (col < m.cells.len() && start
                + values.len() <= m.rows())
            &&& 0 <= c < m.cells.len() && 0 <= r < m.rows() ==> {
                &&& fault is None && c == col && start <= r < start + values.len() ==> {
                    &&& after.cells[c][r] == Some(values[r - start])
                    &&& after.pending[c].contains(r)
                }
                &&& c != col || r < start || r >= start + values.len() ==> {
                    &&& after.cells[c][r] == m.cells[c][r]
                    &&& after.pending[c].contains(r) == m.pending[c].contains(r)
                }
            }
        }),
{
    lemma_column_put(m, col, start, values, 0, c, r);
}

#[verifier::rlimit(40)]
proof fn lemma_column_loaded(
    m: WriteModel,
    col: int,
    values: Seq<ValueModel>,
    i: int,
    c: int,
    r: int,
)
    requires
        m.sound(),
        0 <= i <= values.len(),
        0 <= col,
        0 <= c < m.cells.len(),
        0 <= r < m.rows(),
    ensures
        ({
            let after = m.column_filled(col, values, i);
            &&& after.cells.len() == m.cells.len()
            &&& after.cells[c].len() == m.rows()
            &&& after.desc == m.desc
            &&& after.pending == m.pending
            &&& after.touched == m.touched
            &&& c == col && i <= r < values.len() ==> after.cells[c][r] == Some(values[r])
            &&& c != col || r < i || r >= values.len() ==> after.cells[c][r] == m.cells[c][r]
        }),
    decreases values.len() - i,
{
    assert(m.cells[c].len() == m.rows());
    if i < values.len() && col < m.cells.len() && i < m.cells[col].len() {
        let next = m.filled(col, i, values[i]);
        assert forall|x: int| 0 <= x < next.cells.len() implies (#[trigger] next.cells[x]).len()
            == m.rows() by {
            assert(m.cells[x].len() == m.rows());
        }
        assert(next.cells[0].len() == m.rows());
        assert(next.sound());
        lemma_column_loaded(next, col, values, i + 1, c, r);
    } else if i < values.len() && col < m.cells.len() {
        assert(m.cells[col].len() == m.rows());
    }
}

/// Loading a column puts value `i` in row `i`, as far as there are rows, and
/// marks nothing as written; every other cell stays as it was.
pub proof fn law_column_loaded(m: WriteModel, col: int, values: Seq<ValueModel>, c: int, r: int)
    requires
        m.sound(),
        0 <= col,
        0 <= c < m.cells.len(),
        0 <= r < m.rows(),
    ensures
        ({
            let after = m.column_filled(col, values, 0);
            &&& after.desc == m.desc
            &&& after.pending == m.pending
            &&& after.touched == m.touched
            &&& after.cells[c].len() == m.rows()
            &&& c == col && r < values.len() ==> after.cells[c][r] == Some(values[r])
            &&& c != col || r >= values.len() ==> after.cells[c][r] == m.cells[c][r]
        }),
{
    lemma_column_loaded(m, col, values, 0, c, r);
}

/// A column that is added comes last and has as many rows as the others; none
/// of its cells is filled or pending. The other columns stay as they were.
pub proof fn law_column_added(m: WriteModel, cd: ColumnModel, c: int, r: int)
    requires
        m.sound(),
        0 <= c < m.cells.len(),
        0 <= r < m.rows(),
    ensures
        ({
            let after = m.with_column(cd);
            let n = m.cells.len() as int;
            &&& after.rows() == m.rows()
            &&& after.desc.columns.len() == n + 1
            &&& after.desc.columns[n] == cd
            &&& after.desc.columns[c] == m.desc.columns[c]
            &&& after.cells[n].len() == m.rows()
            &&& after.cells[n][r] is None
            &&& !after.pending[n].contains(r)
            &&& !after.touched[n]
            &&& after.cells[c] == m.cells[c]
            &&& after.pending[c] == m.pending[c]
            &&& after.touched[c] == m.touched[c]
        }),
{
    assert(m.cells[0].len() == m.rows());
}

/// Removing a column keeps the others in their order, with all that is theirs.
pub proof fn law_column_removed(m: WriteModel, col: int, c: int)
    requires
        m.sound(),
        0 <= col < m.cells.len(),
        0 <= c < m.cells.len(),
        c != col,
    ensures
        ({
            let after = m.without_column(col);
            let d = if c < col {
                c
            } else {
                c - 1
            };
            &&& after.cells.len() == m.cells.len() - 1
            &&& after.desc.columns.len() == m.desc.columns.len() - 1
            &&& after.desc.columns[d] == m.desc.columns[c]
            &&& after.cells[d] == m.cells[c]
            &&& after.pending[d] == m.pending[c]
            &&& after.touched[d] == m.touched[c]
        }),
{
}

/// Adding a column and removing it again changes nothing.
pub proof fn law_added_column_removed(m: WriteModel, cd: ColumnModel)
    requires
        m.sound(),
    ensures
        m.with_column(cd).without_column(m.cells.len() as int) == m,
{
    let after = m.with_column(cd).without_column(m.cells.len() as int);
    assert(after.desc.columns =~= m.desc.columns);
    assert(after.cells =~= m.cells);
    assert(after.pending =~= m.pending);
    assert(after.touched =~= m.touched);
}

/// The number of rows below `n` that are not listed.
pub open spec fn unlisted(rows: Seq<u64>, n: nat) -> nat
    decreases n,
{
    if n == 0 {
        0
    } else {
        unlisted(rows, (n - 1) as nat) + if rows.contains((n - 1) as u64) {
            0nat
        } else {
            1nat
        }
    }
}

proof fn lemma_kept_place(rows: Seq<u64>, n: nat, r: int)
    requires
        n <= u64::MAX,
        0 <= r < n,
    ensures
        writetable::kept_rows(rows, n).len() == unlisted(rows, n),
        !rows.contains(r as u64) ==> unlisted(rows, r as nat) < unlisted(rows, n)
            && writetable::kept_rows(rows, n)[unlisted(rows, r as nat) as int] == r,
    decreases n,
{
    let before = writetable::kept_rows(rows, (n - 1) as nat);
    if n == 1 {
        assert(before.len() == 0);
    } else {
        lemma_kept_place(rows, (n - 1) as nat, 0);
    }
    if r < n - 1 {
        lemma_kept_place(rows, (n - 1) as nat, r);
    }
}

/// Dropping rows: a row that is not listed stays, with its cells and with what
/// is pending, and moves up by as many rows as were dropped before it.
pub proof fn law_rows_dropped(m: WriteModel, rows: Seq<u64>, c: int, r: int)
    requires
        m.sound(),
        m.rows() <= u64::MAX,
        0 <= c < m.cells.len(),
        0 <= r < m.rows(),
        !rows.contains(r as u64),
    ensures
        ({
            let after = m.with_kept(writetable::kept_rows(rows, m.rows()));
            let s = unlisted(rows, r as nat) as int;
            &&& after.desc == m.desc
            &&& after.cells[c].len() == unlisted(rows, m.rows())
            &&& s < after.cells[c].len()
            &&& after.cells[c][s] == m.cells[c][r]
            &&& after.pending[c].contains(s) == m.pending[c].contains(r)
        }),
{
    let kept = writetable::kept_rows(rows, m.rows());
    let s = unlisted(rows, r as nat) as int;
    let after = m.with_kept(kept);
    lemma_kept_place(rows, m.rows(), r);
    assert(kept[s] == r);
    assert(after.pending[c] == rowset::renumbered(m.pending[c], kept));
}

/// Putting a column keeps a table in order.
pub proof fn lemma_put_sound(m: WriteModel, col: int, start: u64, values: Seq<ValueModel>)
    requires
        m.sound(),
        m.rows() <= u64::MAX,
        0 <= col,
    ensures
        m.column_written(col, start, values, 0).0.sound(),
{
    lemma_column_put(m, col, start, values, 0, 0, 0);
}

/// All values of a table: each cell's, and the column's default for one that is
/// not filled.
pub proof fn law_all_values(m: WriteModel, c: int, r: int)
    requires
        m.sound(),
        0 <= c < m.cells.len(),
        0 <= r < m.rows(),
    ensures
        m.values().len() == m.cells.len(),
        m.values()[c].len() == m.rows(),
        m.cells[c][r] matches Some(v) ==> m.values()[c][r] == v,
        m.cells[c][r] is None && m.desc.columns[c].kind is Scalar ==> m.values()[c][r]
            == m.desc.columns[c].kind->Scalar_0,
        m.cells[c][r] is None && m.desc.columns[c].kind is Array ==> (
        m.values()[c][r] matches ValueModel::Array(a) && (defaults::holds_arrays(
            m.desc.columns[c].data_type,
        ) && (m.desc.columns[c].shape matches Some(s) && s.len() > 0 && forall|i: int|
            0 <= i < s.len() ==> 0 <= #[trigger] s[i] <= u32::MAX) ==> defaults::all_zero(a.data))),
{
    let cd = m.desc.columns[c];
    assert(m.cells[c].len() == m.rows());
    if cd.kind is Array && defaults::holds_arrays(cd.data_type) && (cd.shape matches Some(s)
        && s.len() > 0 && forall|i: int|
        0 <= i < s.len() ==> 0 <= #[trigger] s[i] <= u32::MAX) {
        defaults::law_unwritten_array(cd);
    }
}

/// Writing a cell marks its column, and changes neither the description nor
/// what is marked otherwise.
pub proof fn law_written_marked(m: WriteModel, col: int, row: u64, v: ValueModel)
    requires
        m.sound(),
        0 <= col,
        m.refusal(col, row) is None,
    ensures
        ({
            let n = m.written(col, row as int, v);
            &&& n.desc == m.desc && n.meta_dirty == m.meta_dirty
            &&& n.touched.len() == m.touched.len() && n.touched[col]
            &&& forall|c: int|
                0 <= c < m.touched.len() && c != col ==> #[trigger] n.touched[c] == m.touched[c]
        }),
{
}

/// Once everything is stored, nothing is pending and no cell is buffered; the
/// rows, the description and what was marked as written stay.
pub proof fn law_all_released(m: WriteModel, c: int, r: int)
    requires
        m.sound(),
        0 <= c < m.cells.len(),
        0 <= r < m.cells[c].len(),
    ensures
        ({
            let n = m.all_released();
            &&& n.cells.len() == m.cells.len() && n.cells[c].len() == m.cells[c].len()
            &&& n.rows() == m.rows()
            &&& n.cells[c][r] is None && n.pending[c] == Set::<int>::empty()
            &&& n.desc == m.desc && n.touched == m.touched && n.meta_dirty == m.meta_dirty
        }),
{
}

/// A column's description replaced: the other columns keep theirs, and no cell
/// changes.
pub proof fn law_column_redescribed(m: WriteModel, col: int, cd: ColumnModel, c: int)
    requires
        0 <= col < m.desc.columns.len(),
        0 <= c < m.desc.columns.len(),
    ensures
        ({
            let n = m.with_desc(col, cd);
            &&& n.desc.columns.len() == m.desc.columns.len()
            &&& n.desc.columns[col] == cd
            &&& c != col ==> n.desc.columns[c] == m.desc.columns[c]
            &&& n.desc.name == m.desc.name && n.desc.keywords == m.desc.keywords
            &&& n.cells == m.cells && n.pending == m.pending && n.touched == m.touched
        }),
{
}

} // verus!
