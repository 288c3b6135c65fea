//! Building the data file of one IncrementalStMan manager from column values.
use crate::ism;
use crate::ism::IsmFault;
use crate::ismlaw;
use crate::ismout;
use crate::ismout::{try_write_ism_file, IsmCells, WriteIsmColumn};
use crate::record;
use crate::record::{DataType, RecordValue, ValueModel};
use crate::recordlaw;
use crate::ssmcell;
use crate::ssmcell::scalar_cell_size;
use crate::ssmdata;
use crate::ssmout;
use crate::ssmout::encode_scalar_cell;
use crate::table::{CreateFault, TableCreateError};
use crate::tabledesc::{ColumnDesc, ColumnKind, ColumnModel, TableDesc, TableDescModel};
use vstd::prelude::*;

verus! {

/// Why a column cannot be stored, if it cannot: only scalar columns of fixed
/// size can.
pub open spec fn refused(cd: ColumnModel) -> Option<CreateFault> {
    if !(cd.kind is Scalar) {
        Some(CreateFault::NotScalar(cd.name))
    } else if cd.data_type == DataType::String {
        Some(
            CreateFault::Io(
                "IncrementalStMan string column "@ + cd.name + " is not writable yet"@,
            ),
        )
    } else {
        None
    }
}

/// The cell of a value.
pub open spec fn value_cell(big: bool, cd: ColumnModel, v: ValueModel) -> Seq<u8> {
    ssmout::scalar_cell(big, cd.data_type, cd.max_length, v)->Ok_0
}

/// The cells of the first `n` values of a column.
pub open spec fn list_cells(big: bool, cd: ColumnModel, list: Seq<ValueModel>, n: nat) -> Seq<u8>
    decreases n,
{
    if n == 0 {
        Seq::empty()
    } else {
        list_cells(big, cd, list, (n - 1) as nat) + value_cell(big, cd, list[n - 1])
    }
}

/// The cells of the columns from `k` on, after `acc`, or why a column cannot
/// be stored.
pub open spec fn column_lists(
    big: bool,
    desc: TableDescModel,
    values: Seq<Seq<ValueModel>>,
    dm_cols: Seq<usize>,
    k: int,
    acc: Seq<IsmCells>,
) -> Result<Seq<IsmCells>, CreateFault>
    decreases dm_cols.len() - k,
{
    if k >= dm_cols.len() {
        Ok(acc)
    } else {
        let c = dm_cols[k] as int;
        let cd = desc.columns[c];
        match refused(cd) {
            Some(f) => Err(f),
            None => column_lists(
                big,
                desc,
                values,
                dm_cols,
                k + 1,
                acc.push(
                    IsmCells {
                        cell_size: ssmcell::cell_size(cd.data_type, cd.max_length),
                        bytes: list_cells(big, cd, values[c], values[c].len()),
                    },
                ),
            ),
        }
    }
}

/// The data file of a manager, or why there is none.
pub open spec fn ism_data(
    big: bool,
    nrow: u64,
    name: Seq<char>,
    desc: TableDescModel,
    values: Seq<Seq<ValueModel>>,
    dm_cols: Seq<usize>,
) -> Result<Seq<u8>, CreateFault> {
    match column_lists(big, desc, values, dm_cols, 0, Seq::empty()) {
        Err(f) => Err(f),
        Ok(cols) => if ismout::file_fits(big, nrow, cols) {
            Ok(ismout::file_bytes(big, nrow, cols))
        } else {
            Err(CreateFault::Io("no room in the buckets of "@ + name))
        },
    }
}

/// The row boundaries of a manager's buckets fit the 32-bit index.
pub open spec fn indexable(
    big: bool,
    nrow: u64,
    desc: TableDescModel,
    values: Seq<Seq<ValueModel>>,
    dm_cols: Seq<usize>,
) -> bool {
    column_lists(big, desc, values, dm_cols, 0, Seq::empty()) matches Ok(cols)
        ==> ismlaw::indexable(nrow, cols)
}

fn encode_list(big: bool, cd: &ColumnDesc, list: &Vec<RecordValue>) -> (r: Vec<u8>)
    requires
        refused(cd@) is None,
        forall|i: int|
            0 <= i < list@.len() ==> ssmdata::value_ready(
                cd@,
                #[trigger] record::value_models(list@)[i],
            ),
    ensures
        r@ == list_cells(big, cd@, record::value_models(list@), list@.len()),
{
    let ghost models = record::value_models(list@);
    let mut out: Vec<u8> = Vec::new();
    let mut i: usize = 0;
    assert(out@ =~= Seq::<u8>::empty());
    while i < list.len()
        invariant
            i <= list@.len(),
            models == record::value_models(list@),
            models.len() == list@.len(),
            refused(cd@) is None,
            forall|i: int|
                0 <= i < list@.len() ==> ssmdata::value_ready(cd@, #[trigger] models[i]),
            out@ == list_cells(big, cd@, models, i as nat),
        decreases list@.len() - i,
    {
        assert(models[i as int] == list@[i as int]@);
        match encode_scalar_cell(big, cd, &list[i]) {
            Ok(cell) => {
                let ghost before = out@;
                out.extend_from_slice(cell.as_slice());
                assert(out@ =~= before + cell@);
            },
            Err(_) => {
                assert(false);
            },
        }
        i = i + 1;
    }
    out
}

/// The cells of one column.
struct ColumnBytes {
    size: u32,
    bytes: Vec<u8>,
}

spec fn column_bytes_models(s: Seq<ColumnBytes>) -> Seq<IsmCells> {
    s.map_values(|c: ColumnBytes| IsmCells { cell_size: c.size, bytes: c.bytes@ })
}

fn refusal(cd: &ColumnDesc) -> (r: Option<TableCreateError>)
    ensures
        match refused(cd@) {
            Some(f) => r matches Some(e) && e@ == f,
            None => r is None,
        },
{
    match cd.kind {
        ColumnKind::Scalar(_) => match cd.data_type {
            DataType::String => {
                let mut s: String = "IncrementalStMan string column ".to_owned();
                s.append(cd.name.as_str());
                s.append(" is not writable yet");
                Some(TableCreateError::Io(s))
            },
            _ => None,
        },
        _ => Some(TableCreateError::NotScalar(cd.name.clone())),
    }
}

/// Build the IncrementalStMan data file of one data manager, whose columns
/// are scalar columns of fixed size.
pub fn build_ism_data(
    big_endian: bool,
    nrow: u64,
    dm_name: &str,
    desc: &TableDesc,
    values: &[Vec<RecordValue>],
    dm_cols: &[usize],
) -> (res: Result<Vec<u8>, TableCreateError>)
    requires
        ssmdata::values_ready(desc@, ssmdata::value_lists(values@), dm_cols@, nrow),
    ensures
        match ism_data(
            big_endian,
            nrow,
            dm_name@,
            desc@,
            ssmdata::value_lists(values@),
            dm_cols@,
        ) {
            Ok(b) => res is Ok && res->Ok_0@ == b,
            Err(f) => res is Err && res->Err_0@ == f,
        },
{
    let ghost d = desc@;
    let ghost lists = ssmdata::value_lists(values@);
    let ghost all = column_lists(big_endian, d, lists, dm_cols@, 0, Seq::empty());
    let mut cells: Vec<ColumnBytes> = Vec::new();
    assert(column_bytes_models(cells@) =~= Seq::<IsmCells>::empty());
    let mut k: usize = 0;
    while k < dm_cols.len()
        invariant
            k <= dm_cols@.len(),
            d == desc@,
            lists == ssmdata::value_lists(values@),
            ssmdata::values_ready(d, lists, dm_cols@, nrow),
            all == column_lists(big_endian, d, lists, dm_cols@, 0, Seq::empty()),
            all == column_lists(
                big_endian,
                d,
                lists,
                dm_cols@,
                k as int,
                column_bytes_models(cells@),
            ),
        decreases dm_cols@.len() - k,
    {
        let c: usize = dm_cols[k];
        assert(dm_cols@[k as int] == c);
        let cd = &desc.columns[c];
        assert(d.columns[c as int] == cd@);
        assert(lists[c as int] == record::value_models(values@[c as int]@));
        if let Some(e) = refusal(cd) {
            return Err(e);
        }
        let ghost before = cells@;
        let b = encode_list(big_endian, cd, &values[c]);
        cells.push(ColumnBytes { size: scalar_cell_size(cd), bytes: b });
        assert(column_bytes_models(cells@) =~= column_bytes_models(before).push(
            IsmCells {
                cell_size: ssmcell::cell_size(cd@.data_type, cd@.max_length),
                bytes: b@,
            },
        ));
        k = k + 1;
    }
    let mut cols: Vec<WriteIsmColumn<'_>> = Vec::new();
    let mut j: usize = 0;
    while j < cells.len()
        invariant
            j <= cells@.len(),
            cols@.len() == j,
            forall|i: int|
                0 <= i < j ==> (#[trigger] cols@[i])@ == (IsmCells {
                    cell_size: cells@[i].size,
                    bytes: cells@[i].bytes@,
                }),
        decreases cells@.len() - j,
    {
        let c = &cells[j];
        cols.push(WriteIsmColumn { cell_size: c.size, bytes: c.bytes.as_slice() });
        j = j + 1;
    }
    assert(ismout::ism_cells(cols@) =~= column_bytes_models(cells@));
    match try_write_ism_file(big_endian, nrow, cols.as_slice()) {
        Some(file) => Ok(file),
        None => {
            let mut s: String = "no room in the buckets of ".to_owned();
            s.append(dm_name);
            Err(TableCreateError::Io(s))
        },
    }
}

#[verifier::rlimit(40)]
proof fn lemma_list_cells(
    big: bool,
    cd: ColumnModel,
    list: Seq<ValueModel>,
    n: nat,
    r: int,
)
    requires
        n <= list.len(),
        refused(cd) is None,
    ensures
        ({
            let size = ssmcell::cell_size(cd.data_type, cd.max_length) as int;
            let b = list_cells(big, cd, list, n);
            &&& b.len() == n * size
            &&& 0 <= r < n ==> 0 <= r * size <= r * size + size <= b.len() && b.subrange(
                r * size,
                r * size + size,
            ) == value_cell(big, cd, list[r])
        }),
    decreases n,
{
    let size = ssmcell::cell_size(cd.data_type, cd.max_length) as int;
    if n > 0 {
        let m = (n - 1) as nat;
        let before = list_cells(big, cd, list, m);
        let last = value_cell(big, cd, list[n - 1]);
        lemma_list_cells(big, cd, list, m, r);
        ssmout::lemma_scalar_cell_len(big, cd.data_type, cd.max_length, list[n - 1]);
        assert(n * size == m * size + size) by (nonlinear_arith)
            requires
                n == m + 1,
        ;
        if r == m {
            assert((before + last).subrange(r * size, r * size + size) =~= last);
        } else if 0 <= r < m {
            assert((before + last).subrange(r * size, r * size + size) =~= before.subrange(
                r * size,
                r * size + size,
            ));
        }
        if 0 <= r < n {
            assert(0 <= r * size) by (nonlinear_arith)
                requires
                    0 <= r,
                    0 <= size,
            ;
        }
    } else {
        assert(0 * size == 0);
    }
}

#[verifier::rlimit(40)]
proof fn lemma_column_lists(
    big: bool,
    desc: TableDescModel,
    values: Seq<Seq<ValueModel>>,
    dm_cols: Seq<usize>,
    k: int,
    acc: Seq<IsmCells>,
    j: int,
)
    requires
        0 <= k <= dm_cols.len(),
        acc.len() == k,
    ensures
        column_lists(big, desc, values, dm_cols, k, acc) matches Ok(cols) ==> {
            let c = dm_cols[j] as int;
            let cd = desc.columns[c];
            &&& cols.len() == dm_cols.len()
            &&& forall|x: int| 0 <= x < k ==> cols[x] == acc[x]
            &&& k <= j < dm_cols.len() ==> refused(cd) is None && cols[j] == (IsmCells {
                cell_size: ssmcell::cell_size(cd.data_type, cd.max_length),
                bytes: list_cells(big, cd, values[c], values[c].len()),
            })
        },
    decreases dm_cols.len() - k,
{
    if k < dm_cols.len() {
        let c = dm_cols[k] as int;
        let cd = desc.columns[c];
        if refused(cd) is None {
            let m = IsmCells {
                cell_size: ssmcell::cell_size(cd.data_type, cd.max_length),
                bytes: list_cells(big, cd, values[c], values[c].len()),
            };
            lemma_column_lists(big, desc, values, dm_cols, k + 1, acc.push(m), j);
            match column_lists(big, desc, values, dm_cols, k + 1, acc.push(m)) {
                Err(_) => {},
                Ok(cols) => {
                    assert(cols[k] == acc.push(m)[k]);
                    assert forall|x: int| 0 <= x < k implies cols[x] == acc[x] by {
                        assert(cols[x] == acc.push(m)[x]);
                    }
                },
            }
        }
    }
}

/// Every value of an IncrementalStMan manager is read back, from every column
/// and row.
#[verifier::rlimit(40)]
pub proof fn law_read_back(
    big: bool,
    nrow: u64,
    name: Seq<char>,
    desc: TableDescModel,
    values: Seq<Seq<ValueModel>>,
    dm_cols: Seq<usize>,
    j: int,
    row: u64,
)
    requires
        indexable(big, nrow, desc, values, dm_cols),
        ssmdata::values_ready(desc, values, dm_cols, nrow),
        ism_data(big, nrow, name, desc, values, dm_cols) is Ok,
        0 <= j < dm_cols.len(),
        row < nrow,
        recordlaw::scalar_fits(
            desc.columns[dm_cols[j] as int].data_type,
            values[dm_cols[j] as int][row as int],
        ),
    ensures
        ism::parsed(
            ism_data(big, nrow, name, desc, values, dm_cols)->Ok_0,
            big,
        ) matches Ok(m) && m.scalar(j, desc.columns[dm_cols[j] as int], row) == Ok::<
            ValueModel,
            IsmFault,
        >(values[dm_cols[j] as int][row as int]),
{
    let cols = column_lists(big, desc, values, dm_cols, 0, Seq::empty())->Ok_0;
    let c = dm_cols[j] as int;
    let cd = desc.columns[c];
    let v = values[c][row as int];
    lemma_column_lists(big, desc, values, dm_cols, 0, Seq::empty(), j);
    lemma_list_cells(big, cd, values[c], values[c].len(), row as int);
    assert forall|x: int| 0 <= x < cols.len() implies (#[trigger] cols[x]).cell_size <= 16 by {
        lemma_column_lists(big, desc, values, dm_cols, 0, Seq::empty(), x);
    }
    ismlaw::law_file_parsed(big, nrow, cols);
    ismlaw::law_scalar_read_back(big, nrow, cols, j, row, cd, v);
}

/// What the values of columns are written as.
pub open spec fn column_images(
    big: bool,
    cds: Seq<ColumnModel>,
    values: Seq<Seq<ValueModel>>,
) -> Seq<IsmCells> {
    Seq::new(
        cds.len(),
        |c: int|
            IsmCells {
                cell_size: ssmcell::cell_size(cds[c].data_type, cds[c].max_length),
                bytes: list_cells(big, cds[c], values[c], values[c].len()),
            },
    )
}

/// A file written from the values of scalar columns of fixed size: it parses,
/// every value is read back, in whatever bucket its row lies, and the rows
/// after the last are out of range.
#[verifier::rlimit(40)]
pub proof fn law_written_values(
    big: bool,
    n_rows: u64,
    cds: Seq<ColumnModel>,
    values: Seq<Seq<ValueModel>>,
    c: int,
    row: u64,
)
    requires
        values.len() == cds.len(),
        forall|c: int| 0 <= c < cds.len() ==> refused(#[trigger] cds[c]) is None,
        forall|c: int| 0 <= c < cds.len() ==> (#[trigger] values[c]).len() == n_rows,
        ismlaw::indexable(n_rows, column_images(big, cds, values)),
        n_rows > 0 ==> ismout::row_fits(
            ismout::ISM_BUCKET_SIZE as int,
            column_images(big, cds, values),
        ),
        0 <= c < cds.len(),
        row < n_rows ==> recordlaw::scalar_fits(cds[c].data_type, values[c][row as int]),
    ensures
        ism::parsed(
            ismout::file_bytes(big, n_rows, column_images(big, cds, values)),
            big,
        ) matches Ok(m) && m.scalar(c, cds[c], row) == if row < n_rows {
            Ok::<ValueModel, IsmFault>(values[c][row as int])
        } else {
            Err::<ValueModel, IsmFault>(IsmFault::RowOutOfRange { row })
        },
{
    let cols = column_images(big, cds, values);
    assert(refused(cds[c]) is None);
    assert forall|x: int| 0 <= x < cols.len() implies n_rows * (#[trigger] cols[x]).cell_size
        <= cols[x].bytes.len() && cols[x].cell_size <= 16 by {
        assert(refused(cds[x]) is None);
        assert(values[x].len() == n_rows);
        lemma_list_cells(big, cds[x], values[x], values[x].len(), 0);
    }
    ismlaw::law_written_file(big, n_rows, cols, c, row);
    if row < n_rows {
        let v = values[c][row as int];
        assert(values[c].len() == n_rows);
        lemma_list_cells(big, cds[c], values[c], values[c].len(), row as int);
        ismout::law_file_fits(big, n_rows, cols);
        crate::celllaw::law_scalar_cell_round_trip(big, cds[c], v);
        ismlaw::law_scalar_read_back(big, n_rows, cols, c, row, cds[c], v);
    }
}

} // verus!
