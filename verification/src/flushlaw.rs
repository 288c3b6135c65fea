//! What a reopened table reads after a flush in place.
use crate::aipsio::Cursor;
use crate::bytes;
use crate::columnset;
use crate::columnset::{InfoModel, ManagerModel, StandardModel};
use crate::celllaw;
use crate::datalaw;
use crate::flush;
use crate::ism;
use crate::ism::{IsmFault, IsmModel};
use crate::ismdata;
use crate::ismlaw;
use crate::record::{DataType, ValueModel};
use crate::recordlaw;
use crate::ssm;
use crate::ssm::{SsmFault, SsmModel};
use crate::ssmcell;
use crate::ssmdata;
use crate::ssmdata::{SsmOutput, Supplied};
use crate::table;
use crate::table::{CreateFault, TableDatFault, TableDatModel};
use crate::tablecells;
use crate::tablecreate;
use crate::tablecreate::{NamedBytes, TiledImageModel};
use crate::tabledesc;
use crate::tabledesc::ColumnModel;
use crate::tablelaw;
use crate::tableread;
use crate::tableread::{ManagerFileModel, ReadFault, TableModel};
use crate::writelaw;
use crate::writetable::WriteModel;
use vstd::prelude::*;

verus! {

/// A manager whose file is among the files and can be opened.
pub open spec fn opens(m: ManagerModel, files: Seq<ManagerFileModel>, big: bool) -> bool {
    if m.manager_type == "StandardStMan"@ {
        tableread::manager_file(files, m.sequence_nr, 0) matches Some(f) && ssm::parsed(f.data, big)
            is Ok
    } else if m.manager_type == "IncrementalStMan"@ {
        tableread::manager_file(files, m.sequence_nr, 0) matches Some(f) && ism::parsed(f.data, big)
            is Ok
    } else {
        tableread::is_tiled(m.manager_type)
    }
}

/// The managers of opened files can all be opened.
proof fn lemma_each_opens(
    dms: Seq<ManagerModel>,
    files: Seq<ManagerFileModel>,
    big: bool,
    k: int,
    s: Seq<(u32, SsmModel)>,
    i: Seq<(u32, IsmModel)>,
    x: int,
)
    requires
        0 <= k <= x < dms.len(),
        tableread::opened_managers(dms, files, big, k, s, i) is Ok,
    ensures
        opens(dms[x], files, big),
    decreases dms.len() - k,
{
    let seq = dms[k].sequence_nr;
    tablelaw::lemma_types_apart();
    if k < x {
        if dms[k].manager_type == "StandardStMan"@ {
            let f = tableread::manager_file(files, seq, 0)->0;
            let m = ssm::parsed(f.data, big)->Ok_0;
            lemma_each_opens(
                dms,
                files,
                big,
                k + 1,
                s.push((seq, SsmModel { f0i: f.index, ..m })),
                i,
                x,
            );
        } else if dms[k].manager_type == "IncrementalStMan"@ {
            let f = tableread::manager_file(files, seq, 0)->0;
            let m = ism::parsed(f.data, big)->Ok_0;
            lemma_each_opens(dms, files, big, k + 1, s, i.push((seq, m)), x);
        } else {
            lemma_each_opens(dms, files, big, k + 1, s, i, x);
        }
    }
}

/// Managers that can all be opened are opened. What stands for the number
/// `seq` is what stood for it before, or else comes from the first manager
/// with that number.
proof fn lemma_all_open(
    dms: Seq<ManagerModel>,
    files: Seq<ManagerFileModel>,
    big: bool,
    k: int,
    s: Seq<(u32, SsmModel)>,
    i: Seq<(u32, IsmModel)>,
    seq: u32,
)
    requires
        0 <= k <= dms.len(),
        forall|x: int| k <= x < dms.len() ==> opens(#[trigger] dms[x], files, big),
    ensures
        tableread::opened_managers(dms, files, big, k, s, i) matches Ok((s2, i2)) && {
            &&& tableread::keyed(s2, seq, 0) == match tableread::keyed(s, seq, 0) {
                Some(m) => Some(m),
                None => from_files(dms, files, big, seq, k),
            }
            &&& tableread::keyed(i2, seq, 0) == match tableread::keyed(i, seq, 0) {
                Some(m) => Some(m),
                None => from_incremental(dms, files, big, seq, k),
            }
        },
    decreases dms.len() - k,
{
    tablelaw::lemma_types_apart();
    if k < dms.len() {
        let own = dms[k].sequence_nr;
        assert(opens(dms[k], files, big));
        if dms[k].manager_type == "StandardStMan"@ {
            let f = tableread::manager_file(files, own, 0)->0;
            let m = SsmModel { f0i: f.index, ..ssm::parsed(f.data, big)->Ok_0 };
            tablelaw::lemma_keyed_push(s, (own, m), seq, 0);
            lemma_all_open(dms, files, big, k + 1, s.push((own, m)), i, seq);
        } else if dms[k].manager_type == "IncrementalStMan"@ {
            let f = tableread::manager_file(files, own, 0)->0;
            let m = ism::parsed(f.data, big)->Ok_0;
            tablelaw::lemma_keyed_push(i, (own, m), seq, 0);
            lemma_all_open(dms, files, big, k + 1, s, i.push((own, m)), seq);
        } else {
            lemma_all_open(dms, files, big, k + 1, s, i, seq);
        }
    }
}

/// The StandardStMan file of the first manager, from `k` on, with a number.
spec fn from_files(
    dms: Seq<ManagerModel>,
    files: Seq<ManagerFileModel>,
    big: bool,
    seq: u32,
    k: int,
) -> Option<SsmModel>
    decreases dms.len() - k,
{
    if k < 0 || k >= dms.len() {
        None
    } else if dms[k].sequence_nr == seq && dms[k].manager_type == "StandardStMan"@ {
        let f = tableread::manager_file(files, seq, 0)->0;
        Some(SsmModel { f0i: f.index, ..ssm::parsed(f.data, big)->Ok_0 })
    } else {
        from_files(dms, files, big, seq, k + 1)
    }
}

/// The IncrementalStMan file of the first manager, from `k` on, with a number.
spec fn from_incremental(
    dms: Seq<ManagerModel>,
    files: Seq<ManagerFileModel>,
    big: bool,
    seq: u32,
    k: int,
) -> Option<IsmModel>
    decreases dms.len() - k,
{
    if k < 0 || k >= dms.len() {
        None
    } else if dms[k].sequence_nr == seq && dms[k].manager_type == "IncrementalStMan"@ {
        let f = tableread::manager_file(files, seq, 0)->0;
        Some(ism::parsed(f.data, big)->Ok_0)
    } else {
        from_incremental(dms, files, big, seq, k + 1)
    }
}

/// Where the file of a number is the same, what stands for it is the same.
proof fn lemma_same_from(
    dms: Seq<ManagerModel>,
    a: Seq<ManagerFileModel>,
    b: Seq<ManagerFileModel>,
    big: bool,
    seq: u32,
    k: int,
)
    requires
        0 <= k,
        tableread::manager_file(a, seq, 0) == tableread::manager_file(b, seq, 0),
    ensures
        from_files(dms, a, big, seq, k) == from_files(dms, b, big, seq, k),
        from_incremental(dms, a, big, seq, k) == from_incremental(dms, b, big, seq, k),
    decreases dms.len() - k,
{
    if k < dms.len() {
        lemma_same_from(dms, a, b, big, seq, k + 1);
    }
}

/// No two managers have the same number.
pub open spec fn numbers_differ(dms: Seq<ManagerModel>) -> bool {
    forall|i: int, j: int|
        0 <= i < j < dms.len() ==> (#[trigger] dms[i]).sequence_nr != (
        #[trigger] dms[j]).sequence_nr
}

/// What stands for the number of a manager comes from its file.
proof fn lemma_manager_from(
    dms: Seq<ManagerModel>,
    files: Seq<ManagerFileModel>,
    big: bool,
    seq: u32,
    k: int,
)
    requires
        0 <= k,
        numbers_differ(dms),
        tablecells::manager_of(dms, seq, k) is Some,
    ensures
        ({
            let m = tablecells::manager_of(dms, seq, k)->0;
            let f = tableread::manager_file(files, seq, 0)->0;
            &&& m.sequence_nr == seq
            &&& exists|x: int| k <= x < dms.len() && #[trigger] dms[x] == m
            &&& m.manager_type == "StandardStMan"@ ==> from_files(dms, files, big, seq, k) == Some(
                SsmModel { f0i: f.index, ..ssm::parsed(f.data, big)->Ok_0 },
            )
            &&& m.manager_type == "IncrementalStMan"@ ==> from_incremental(
                dms,
                files,
                big,
                seq,
                k,
            ) == Some(ism::parsed(f.data, big)->Ok_0)
        }),
    decreases dms.len() - k,
{
    if dms[k].sequence_nr != seq {
        lemma_manager_from(dms, files, big, seq, k + 1);
        let m = tablecells::manager_of(dms, seq, k)->0;
        let x = choose|x: int| k + 1 <= x < dms.len() && #[trigger] dms[x] == m;
        assert(dms[x] == m);
    } else {
        assert(dms[k] == tablecells::manager_of(dms, seq, k)->0);
    }
}

/// The bindings that are read are as many as the columns.
proof fn lemma_infos_len(c: Cursor, cols: Seq<ColumnModel>, i: nat, acc: Seq<InfoModel>)
    requires
        acc.len() == i <= cols.len(),
    ensures
        columnset::infos_at(c, cols, i, acc) matches Ok((s, _)) ==> s.len() == cols.len(),
    decreases cols.len() - i,
{
    if i < cols.len() {
        if let Ok((m, d)) = columnset::info_at(c, cols[i as int].kind) {
            lemma_infos_len(d, cols, i + 1, acc.push(m));
        }
    }
}

/// Every column of a stored table is bound to a manager.
pub proof fn law_columns_bound(dat: Seq<u8>)
    ensures
        table::table_dat_of(dat) matches Ok(d) ==> d.column_set.columns.len()
            == d.desc.columns.len(),
{
    if let Ok((h, c)) = table::header_at(Cursor { data: dat, big: true, pos: 0 }) {
        if let Ok((desc, c)) = tabledesc::table_desc_at(c) {
            if let Ok((_, c)) = columnset::lift(columnset::rows_at(c)) {
                if let Ok((_, c)) = columnset::lift(c.u32()) {
                    if let Ok((nr, c)) = columnset::lift(c.u32()) {
                        if let Ok((_, c)) = columnset::lift(
                            columnset::managers_at(c, nr as nat, Seq::empty()),
                        ) {
                            lemma_infos_len(c, desc.columns, 0, Seq::empty());
                        }
                    }
                }
            }
        }
    }
}

/// A manager's file, replaced by a rebuilt one. The array index file stays
/// where none was rebuilt.
pub open spec fn new_file(f: ManagerFileModel, s: Seq<NamedBytes>) -> ManagerFileModel {
    ManagerFileModel {
        sequence_nr: f.sequence_nr,
        data: s[0].1,
        index: if s.len() == 2 && s[1].0 == s[0].0 + "i"@ {
            Some(s[1].1)
        } else {
            f.index
        },
    }
}

/// The managers that a flush in place rewrites.
pub open spec fn rewritten_managers(m: WriteModel, dat: TableDatModel) -> Seq<u32> {
    m.rewrites(dat, m.desc.columns.len())
}

/// The files of a table after a flush in place: those of the managers that
/// are rewritten are replaced, and the others stay as they are.
pub open spec fn replaced(
    m: WriteModel,
    disk: TableModel,
    files: Seq<ManagerFileModel>,
    t: Supplied,
    images: Seq<TiledImageModel>,
) -> Seq<ManagerFileModel> {
    Seq::new(
        files.len(),
        |i: int|
            if rewritten_managers(m, disk.dat).contains(files[i].sequence_nr) {
                new_file(
                    files[i],
                    m.rewritten(disk.dat, disk, files[i].sequence_nr, t, images)->Ok_0,
                )
            } else {
                files[i]
            },
    )
}

proof fn lemma_replaced(
    m: WriteModel,
    disk: TableModel,
    files: Seq<ManagerFileModel>,
    t: Supplied,
    images: Seq<TiledImageModel>,
    seq: u32,
    i: int,
)
    requires
        0 <= i,
    ensures
        tableread::manager_file(replaced(m, disk, files, t, images), seq, i)
            == match tableread::manager_file(files, seq, i) {
            None => None,
            Some(f) => Some(
                if rewritten_managers(m, disk.dat).contains(seq) {
                    new_file(f, m.rewritten(disk.dat, disk, seq, t, images)->Ok_0)
                } else {
                    f
                },
            ),
        },
    decreases files.len() - i,
{
    if i < files.len() {
        assert(replaced(m, disk, files, t, images)[i].sequence_nr == files[i].sequence_nr);
        if files[i].sequence_nr != seq {
            lemma_replaced(m, disk, files, t, images, seq, i + 1);
        }
    }
}

/// A string does not depend on the array index file.
proof fn lemma_same_string(
    a: SsmModel,
    index: Option<Seq<u8>>,
    b: i32,
    offset: int,
    left: int,
    length: u32,
)
    ensures
        a.string_bytes(b, offset, left, length) == (SsmModel { f0i: index, ..a }).string_bytes(
            b,
            offset,
            left,
            length,
        ),
    decreases left,
{
    let d = SsmModel { f0i: index, ..a };
    assert(a.bucket(b as u32) == d.bucket(b as u32));
    if left > 0 {
        if let Ok(bucket) = a.bucket(b as u32) {
            if bucket.len() >= 16 {
                let used = bytes::signed32(bytes::uint_value(true, bucket.subrange(4, 8)) as u32);
                let next = bytes::signed32(
                    bytes::uint_value(true, bucket.subrange(12, 16)) as u32,
                );
                let n = ssm::min(left, used - offset);
                if used > offset {
                    lemma_same_string(a, index, next, 0, left - n, length);
                }
            }
        }
    }
}

/// Two managers have their columns in the same places.
pub open spec fn same_layout(a: StandardModel, b: StandardModel) -> bool {
    a.column_offset == b.column_offset && a.col_index_map == b.col_index_map
}

/// A scalar does not depend on the array index file, nor on more of its
/// manager than the layout.
pub proof fn lemma_same_scalar(
    file: SsmModel,
    index: Option<Seq<u8>>,
    a: StandardModel,
    b: StandardModel,
    j: int,
    cd: ColumnModel,
    row: u64,
)
    requires
        same_layout(a, b),
    ensures
        file.scalar(a, j, cd, row) == (SsmModel { f0i: index, ..file }).scalar(b, j, cd, row),
{
    let d = SsmModel { f0i: index, ..file };
    if let Ok((k, offset)) = ssmcell::column_place(a, j) {
        let size = ssmcell::cell_size(cd.data_type, cd.max_length);
        assert(file.locate(k as int, row) == d.locate(k as int, row));
        assert(file.cell(k as int, offset, row, size) == d.cell(k as int, offset, row, size));
        assert(file.bit_cell(k as int, offset, row) == d.bit_cell(k as int, offset, row));
        if let Ok(cell) = file.cell(k as int, offset, row, size) {
            let big = file.header.big_endian;
            if let Ok(len) = ssm::i32_in(cell, 8, big) {
                if len > 8 {
                    lemma_same_string(
                        file,
                        index,
                        bytes::signed32(bytes::uint_value(big, cell.subrange(0, 4)) as u32),
                        bytes::signed32(
                            bytes::uint_value(big, cell.subrange(4, 8)) as u32,
                        ) as int,
                        len as u32 as int,
                        len as u32,
                    );
                }
            }
        }
    }
}

proof fn lemma_same_array(
    file: SsmModel,
    a: StandardModel,
    b: StandardModel,
    j: int,
    cd: ColumnModel,
    row: u64,
)
    requires
        same_layout(a, b),
    ensures
        file.array(a, j, cd, row) == file.array(b, j, cd, row),
{
}

/// The columns of a manager are listed once, and are there.
pub proof fn lemma_members_once(seqs: Seq<u32>, dm: int, n: nat)
    requires
        n <= seqs.len() <= usize::MAX,
    ensures
        writelaw::listed_once(tablecreate::members(seqs, dm, n)),
        forall|i: int|
            0 <= i < tablecreate::members(seqs, dm, n).len() ==> #[trigger] tablecreate::members(
                seqs,
                dm,
                n,
            )[i] < n,
    decreases n,
{
    if n > 0 {
        lemma_members_once(seqs, dm, (n - 1) as nat);
    }
}

/// A manager with a written column, and with something pending, is rewritten.
proof fn lemma_is_rewritten(m: WriteModel, dat: TableDatModel, n: nat, c: int)
    requires
        0 <= c < n <= m.desc.columns.len(),
        m.must_rewrite(m.columns_of(dat, m.stored_manager(dat, c))),
    ensures
        m.rewrites(dat, n).contains(m.stored_manager(dat, c)),
    decreases n,
{
    let before = m.rewrites(dat, (n - 1) as nat);
    let seq = m.stored_manager(dat, c);
    let last = m.stored_managers(dat)[n - 1];
    if c < n - 1 {
        lemma_is_rewritten(m, dat, (n - 1) as nat, c);
        let i = before.index_of(seq);
        assert(before.push(last)[i] == seq);
    } else if !before.contains(seq) {
        assert(before.push(last)[before.len() as int] == seq);
    }
}

/// A manager that is rewritten has a column.
proof fn lemma_rewritten_column(m: WriteModel, dat: TableDatModel, n: nat, seq: u32) -> (c: int)
    requires
        n <= m.desc.columns.len(),
        m.rewrites(dat, n).contains(seq),
    ensures
        0 <= c < n,
        m.stored_manager(dat, c) == seq,
    decreases n,
{
    let before = m.rewrites(dat, (n - 1) as nat);
    if n == 0 {
        0
    } else if before.contains(seq) {
        lemma_rewritten_column(m, dat, (n - 1) as nat, seq)
    } else {
        let i = m.rewrites(dat, n).index_of(seq);
        assert(i < before.len() ==> before[i] == seq);
        n - 1
    }
}

/// The rebuilt files of a manager stay within the limits of its file format.
pub open spec fn within(m: WriteModel, disk: TableModel, seq: u32, t: Supplied) -> bool {
    let cols = m.columns_of(disk.dat, seq);
    let vs = m.manager_values(disk, cols, 0, m.no_values())->Ok_0;
    let big = disk.dat.header.big_endian;
    let nrow = m.rows() as u64;
    tablecells::manager_of(disk.dat.column_set.data_managers, seq, 0) matches Some(d) ==> {
        &&& d.manager_type == "StandardStMan"@ ==> datalaw::within_limits(
            big,
            nrow,
            disk.dat.desc,
            vs,
            cols,
            flush::kept_layout(disk, seq, cols, nrow)->0,
            t,
        )
        &&& d.manager_type == "IncrementalStMan"@ ==> {
            &&& ismdata::indexable(big, nrow, disk.dat.desc, vs, cols)
            &&& ssmdata::values_ready(disk.dat.desc, vs, cols, nrow)
        }
    }
}

/// A value that a manager of this type gives back as it is.
pub open spec fn keeps(manager_type: Seq<char>, cd: ColumnModel, v: ValueModel) -> bool {
    if manager_type == "StandardStMan"@ {
        if cd.kind is Array {
            cd.data_type != DataType::String && (v matches ValueModel::Array(a)
                && celllaw::array_storable(cd.data_type, a))
        } else {
            cd.kind is Scalar && datalaw::faithful_scalar(cd, v)
        }
    } else {
        manager_type == "IncrementalStMan"@ && recordlaw::scalar_fits(cd.data_type, v)
    }
}

/// The rebuilt file of an IncrementalStMan manager gives its values back.
#[verifier::rlimit(40)]
proof fn lemma_incremental(
    m: WriteModel,
    disk: TableModel,
    seq: u32,
    t: Supplied,
    images: Seq<TiledImageModel>,
    f: ManagerFileModel,
    j: int,
    row: u64,
    v: ValueModel,
)
    requires
        ({
            let cols = m.columns_of(disk.dat, seq);
            let d = tablecells::manager_of(disk.dat.column_set.data_managers, seq, 0);
            let cd = disk.dat.desc.columns[cols[j] as int];
            &&& d is Some && d->0.manager_type == "IncrementalStMan"@
            &&& m.rewritten(disk.dat, disk, seq, t, images) is Ok
            &&& within(m, disk, seq, t)
            &&& 0 <= j < cols.len()
            &&& row < m.rows() <= u64::MAX
            &&& v == m.manager_values(disk, cols, 0, m.no_values())->Ok_0[cols[j] as int][row as int]
            &&& recordlaw::scalar_fits(cd.data_type, v)
        }),
    ensures
        ({
            let cols = m.columns_of(disk.dat, seq);
            let s = m.rewritten(disk.dat, disk, seq, t, images)->Ok_0;
            let read = disk.dat.desc.columns[cols[j] as int];
            ism::parsed(new_file(f, s).data, disk.dat.header.big_endian) matches Ok(file)
                && file.scalar(j, read, row) == Ok::<ValueModel, IsmFault>(v)
        }),
{
    reveal(WriteModel::incremental_rewritten);
    tablelaw::lemma_types_apart();
    let cols = m.columns_of(disk.dat, seq);
    let vs = m.manager_values(disk, cols, 0, m.no_values())->Ok_0;
    let kind = tablecells::manager_of(disk.dat.column_set.data_managers, seq, 0)->0.manager_type;
    let big = disk.dat.header.big_endian;
    let s = m.rewritten(disk.dat, disk, seq, t, images)->Ok_0;
    assert(s == m.incremental_rewritten(
        disk,
        cols,
        tablecreate::data_name(seq as int),
        kind,
    )->Ok_0);
    ismdata::law_read_back(big, m.rows() as u64, kind, disk.dat.desc, vs, cols, j, row);
}

/// The rebuilt files of a StandardStMan manager are what its values make in
/// the stored layout.
proof fn lemma_standard_files(
    m: WriteModel,
    disk: TableModel,
    seq: u32,
    cols: Seq<usize>,
    name: Seq<char>,
    kind: Seq<char>,
    t: Supplied,
    f: ManagerFileModel,
) -> (out: SsmOutput)
    requires
        m.standard_rewritten(disk, seq, cols, name, kind, t) is Ok,
    ensures
        m.manager_values(disk, cols, 0, m.no_values()) is Ok,
        flush::kept_layout(disk, seq, cols, m.rows() as u64) is Some,
        ({
            let s = m.standard_rewritten(disk, seq, cols, name, kind, t)->Ok_0;
            let vs = m.manager_values(disk, cols, 0, m.no_values())->Ok_0;
            let l = flush::kept_layout(disk, seq, cols, m.rows() as u64)->0;
            &&& ssmdata::ssm_data_in(
                disk.dat.header.big_endian,
                m.rows() as u64,
                kind,
                disk.dat.desc,
                vs,
                cols,
                l,
                t,
            ) == Ok::<SsmOutput, CreateFault>(out)
            &&& new_file(f, s).data == out.file
            &&& out.f0i is Some ==> new_file(f, s).index == out.f0i
        }),
{
    reveal(WriteModel::standard_rewritten);
    ssmdata::ssm_data_in(
        disk.dat.header.big_endian,
        m.rows() as u64,
        kind,
        disk.dat.desc,
        m.manager_values(disk, cols, 0, m.no_values())->Ok_0,
        cols,
        flush::kept_layout(disk, seq, cols, m.rows() as u64)->0,
        t,
    )->Ok_0
}

/// The rebuilt files of a StandardStMan manager can be opened, and its
/// columns lie where they lay.
#[verifier::spinoff_prover]
#[verifier::rlimit(60)]
proof fn lemma_standard_opens(
    m: WriteModel,
    disk: TableModel,
    seq: u32,
    t: Supplied,
    images: Seq<TiledImageModel>,
    f: ManagerFileModel,
) -> (out: SsmOutput)
    requires
        ({
            let cols = m.columns_of(disk.dat, seq);
            let d = tablecells::manager_of(disk.dat.column_set.data_managers, seq, 0);
            &&& d is Some && d->0.manager_type == "StandardStMan"@
            &&& m.rewritten(disk.dat, disk, seq, t, images) is Ok
            &&& within(m, disk, seq, t)
            &&& 0 < cols.len()
        }),
    ensures
        ({
            let cols = m.columns_of(disk.dat, seq);
            let d = tablecells::manager_of(disk.dat.column_set.data_managers, seq, 0)->0;
            let s = m.rewritten(disk.dat, disk, seq, t, images)->Ok_0;
            let big = disk.dat.header.big_endian;
            let vs = m.manager_values(disk, cols, 0, m.no_values())->Ok_0;
            let l = flush::kept_layout(disk, seq, cols, m.rows() as u64)->0;
            &&& m.manager_values(disk, cols, 0, m.no_values()) is Ok
            &&& ssmdata::ssm_data_in(
                big,
                m.rows() as u64,
                d.manager_type,
                disk.dat.desc,
                vs,
                cols,
                l,
                t,
            ) == Ok::<SsmOutput, CreateFault>(out)
            &&& disk.standard(seq) matches Some(x) && same_layout(out.manager, x)
            &&& ssm::parsed(out.file, big) is Ok
            &&& new_file(f, s).data == out.file
            &&& out.f0i is Some ==> new_file(f, s).index == out.f0i
        }),
{
    let cols = m.columns_of(disk.dat, seq);
    let vs = m.manager_values(disk, cols, 0, m.no_values())->Ok_0;
    let d = tablecells::manager_of(disk.dat.column_set.data_managers, seq, 0)->0;
    let big = disk.dat.header.big_endian;
    let name = tablecreate::data_name(seq as int);
    assert(m.rewritten(disk.dat, disk, seq, t, images) == m.standard_rewritten(
        disk,
        seq,
        cols,
        name,
        d.manager_type,
        t,
    ));
    let out = lemma_standard_files(m, disk, seq, cols, name, d.manager_type, t, f);
    let l = flush::kept_layout(disk, seq, cols, m.rows() as u64)->0;
    datalaw::lemma_opened(big, m.rows() as u64, disk.dat.desc, vs, cols, l, t, d.manager_type);
    let st = datalaw::manager_cells(big, m.rows() as u64, disk.dat.desc, vs, cols, l, t)->Ok_0;
    assert(st.0.len() == cols.len()) by {
        datalaw::lemma_all_cover(big, m.rows() as u64, disk.dat.desc, vs, cols, l, t);
    }
    assert(out.manager.col_index_map =~= Seq::new(cols.len(), |k: int| 0u32));
    out
}

/// The rebuilt files of a StandardStMan manager give its values back.
#[verifier::spinoff_prover]
#[verifier::rlimit(60)]
proof fn lemma_standard(
    m: WriteModel,
    disk: TableModel,
    seq: u32,
    t: Supplied,
    images: Seq<TiledImageModel>,
    f: ManagerFileModel,
    j: int,
    row: u64,
    v: ValueModel,
)
    requires
        ({
            let cols = m.columns_of(disk.dat, seq);
            let d = tablecells::manager_of(disk.dat.column_set.data_managers, seq, 0);
            let cd = disk.dat.desc.columns[cols[j] as int];
            &&& d is Some && d->0.manager_type == "StandardStMan"@
            &&& m.rewritten(disk.dat, disk, seq, t, images) is Ok
            &&& within(m, disk, seq, t)
            &&& 0 <= j < cols.len()
            &&& row < m.rows() <= u64::MAX
            &&& v == m.manager_values(disk, cols, 0, m.no_values())->Ok_0[cols[j] as int][row as int]
            &&& keeps("StandardStMan"@, cd, v)
            &&& cd.kind is Scalar ==> cd.data_manager_type == "StandardStMan"@
        }),
    ensures
        ({
            let cols = m.columns_of(disk.dat, seq);
            let s = m.rewritten(disk.dat, disk, seq, t, images)->Ok_0;
            let cd = disk.dat.desc.columns[cols[j] as int];
            let file = SsmModel {
                f0i: new_file(f, s).index,
                ..ssm::parsed(new_file(f, s).data, disk.dat.header.big_endian)->Ok_0
            };
            disk.standard(seq) matches Some(manager) && (if cd.kind is Array {
                file.array(manager, j, cd, row)
            } else {
                file.scalar(manager, j, cd, row)
            }) == Ok::<ValueModel, SsmFault>(v)
        }),
{
    let cols = m.columns_of(disk.dat, seq);
    let vs = m.manager_values(disk, cols, 0, m.no_values())->Ok_0;
    let kind = tablecells::manager_of(disk.dat.column_set.data_managers, seq, 0)->0.manager_type;
    let big = disk.dat.header.big_endian;
    let s = m.rewritten(disk.dat, disk, seq, t, images)->Ok_0;
    let desc = disk.dat.desc;
    let cd = desc.columns[cols[j] as int];
    let n = m.rows() as u64;
    let out = lemma_standard_opens(m, disk, seq, t, images, f);
    let l = flush::kept_layout(disk, seq, cols, n)->0;
    let manager = disk.standard(seq)->0;
    let opened = datalaw::opened(out, big);
    assert(within(m, disk, seq, t));
    if cd.kind is Array {
        datalaw::law_array_read_back(big, n, desc, vs, cols, l, t, kind, j, row, v->Array_0);
        lemma_same_array(opened, out.manager, manager, j, cd, row);
        assert(out.f0i is Some);
    } else {
        datalaw::law_scalar_read_back(big, n, desc, vs, cols, l, t, kind, j, row);
        lemma_same_scalar(opened, new_file(f, s).index, out.manager, manager, j, cd, row);
    }
}

/// The rebuilt file of a manager can be opened.
#[verifier::rlimit(40)]
proof fn lemma_rebuilt_opens(
    m: WriteModel,
    disk: TableModel,
    d: ManagerModel,
    t: Supplied,
    images: Seq<TiledImageModel>,
    files: Seq<ManagerFileModel>,
)
    requires
        tablecells::manager_of(disk.dat.column_set.data_managers, d.sequence_nr, 0) == Some(d),
        rewritten_managers(m, disk.dat).contains(d.sequence_nr),
        m.rewritten(disk.dat, disk, d.sequence_nr, t, images) is Ok,
        within(m, disk, d.sequence_nr, t),
        m.columns_of(disk.dat, d.sequence_nr).len() > 0,
        opens(d, files, disk.dat.header.big_endian),
    ensures
        opens(d, replaced(m, disk, files, t, images), disk.dat.header.big_endian),
{
    let seq = d.sequence_nr;
    let big = disk.dat.header.big_endian;
    let cols = m.columns_of(disk.dat, seq);
    tablelaw::lemma_types_apart();
    lemma_replaced(m, disk, files, t, images, seq, 0);
    if d.manager_type == "StandardStMan"@ {
        let f = tableread::manager_file(files, seq, 0)->0;
        let out = lemma_standard_opens(m, disk, seq, t, images, f);
    } else if d.manager_type == "IncrementalStMan"@ {
        reveal(WriteModel::incremental_rewritten);
        let vs = m.manager_values(disk, cols, 0, m.no_values())->Ok_0;
        let lists = ismdata::column_lists(big, disk.dat.desc, vs, cols, 0, Seq::empty())->Ok_0;
        assert(m.rewritten(disk.dat, disk, seq, t, images)
            == m.incremental_rewritten(
            disk,
            cols,
            tablecreate::data_name(seq as int),
            d.manager_type,
        ));
        ismlaw::law_file_parsed(big, m.rows() as u64, lists);
    }
}

/// A flush that keeps the files of the managers it does not rewrite, and that
/// can rebuild the others.
pub open spec fn in_place(
    m: WriteModel,
    disk: TableModel,
    t: Supplied,
    images: Seq<TiledImageModel>,
) -> bool {
    &&& m.sound()
    &&& m.preserving(Some(disk.dat))
    &&& m.desc.columns.len() <= u32::MAX
    &&& m.rows() <= u64::MAX
    &&& numbers_differ(disk.dat.column_set.data_managers)
    &&& forall|seq: u32| #[trigger]
        rewritten_managers(m, disk.dat).contains(seq) ==> m.rewritten(
            disk.dat,
            disk,
            seq,
            t,
            images,
        ) is Ok && within(m, disk, seq, t)
}

proof fn lemma_found_manager(ms: Seq<ManagerModel>, x: int, i: int)
    requires
        numbers_differ(ms),
        0 <= i <= x < ms.len(),
    ensures
        tablecells::manager_of(ms, ms[x].sequence_nr, i) == Some(ms[x]),
    decreases x - i,
{
    if i < x {
        assert(ms[i].sequence_nr != ms[x].sequence_nr);
        lemma_found_manager(ms, x, i + 1);
    }
}

/// The columns of a manager that is rewritten.
proof fn lemma_has_columns(m: WriteModel, dat: TableDatModel, seq: u32)
    requires
        rewritten_managers(m, dat).contains(seq),
    ensures
        m.columns_of(dat, seq).len() > 0,
{
    let c = lemma_rewritten_column(m, dat, m.desc.columns.len(), seq);
    assert(m.stored_managers(dat)[c] == seq);
    tablelaw::lemma_member(m.stored_managers(dat), seq as int, c);
}

/// A table that was flushed in place can be opened, with the description it
/// had. A manager that was not rewritten has the files it had.
#[verifier::rlimit(40)]
proof fn lemma_flush_opens(
    disk: TableModel,
    path: Seq<char>,
    readonly: bool,
    dat: Seq<u8>,
    lock: Option<Seq<u8>>,
    files: Seq<ManagerFileModel>,
    m: WriteModel,
    t: Supplied,
    images: Seq<TiledImageModel>,
    seq: u32,
)
    requires
        tableread::table_of(disk.path, !disk.writable, dat, lock, files) == Ok::<
            TableModel,
            TableDatFault,
        >(disk),
        in_place(m, disk, t, images),
    ensures
        tableread::table_of(
            path,
            readonly,
            dat,
            lock,
            replaced(m, disk, files, t, images),
        ) matches Ok(n) && {
            &&& n.dat == disk.dat
            &&& !rewritten_managers(m, disk.dat).contains(seq) ==> {
                &&& tableread::keyed(n.ssm_files, seq, 0) == tableread::keyed(disk.ssm_files, seq, 0)
                &&& tableread::keyed(n.ism_files, seq, 0) == tableread::keyed(disk.ism_files, seq, 0)
            }
            &&& tableread::keyed(n.ssm_files, seq, 0) == from_files(
                disk.dat.column_set.data_managers,
                replaced(m, disk, files, t, images),
                disk.dat.header.big_endian,
                seq,
                0,
            )
            &&& tableread::keyed(n.ism_files, seq, 0) == from_incremental(
                disk.dat.column_set.data_managers,
                replaced(m, disk, files, t, images),
                disk.dat.header.big_endian,
                seq,
                0,
            )
        },
        forall|x: int|
            0 <= x < disk.dat.column_set.data_managers.len() ==> opens(
                #[trigger] disk.dat.column_set.data_managers[x],
                files,
                disk.dat.header.big_endian,
            ),
{
    let ms = disk.dat.column_set.data_managers;
    let big = disk.dat.header.big_endian;
    let gs = replaced(m, disk, files, t, images);
    let d0 = table::table_dat_of(dat)->Ok_0;
    assert(d0.column_set == disk.dat.column_set && d0.header.big_endian == big);
    assert forall|x: int| 0 <= x < ms.len() implies opens(#[trigger] ms[x], files, big) by {
        lemma_each_opens(ms, files, big, 0, Seq::empty(), Seq::empty(), x);
    }
    assert forall|x: int| 0 <= x < ms.len() implies opens(#[trigger] ms[x], gs, big) by {
        let own = ms[x].sequence_nr;
        lemma_replaced(m, disk, files, t, images, own, 0);
        assert(opens(ms[x], files, big));
        if rewritten_managers(m, disk.dat).contains(own) {
            lemma_found_manager(ms, x, 0);
            lemma_has_columns(m, disk.dat, own);
            lemma_rebuilt_opens(m, disk, ms[x], t, images, files);
        }
    }
    lemma_all_open(ms, files, big, 0, Seq::empty(), Seq::empty(), seq);
    lemma_all_open(ms, gs, big, 0, Seq::empty(), Seq::empty(), seq);
    if !rewritten_managers(m, disk.dat).contains(seq) {
        lemma_replaced(m, disk, files, t, images, seq, 0);
        lemma_same_from(ms, files, gs, big, seq, 0);
    }
}

/// A column's manager, and the column's place among its columns.
proof fn lemma_place(m: WriteModel, disk: TableModel, c: int)
    requires
        m.desc.columns.len() <= u32::MAX,
        disk.dat.desc.columns.len() == m.desc.columns.len(),
        disk.dat.column_set.columns.len() == m.desc.columns.len(),
        0 <= c < m.desc.columns.len(),
    ensures
        ({
            let (seq, j) = disk.column_manager(c);
            let cols = m.columns_of(disk.dat, seq);
            &&& seq == m.stored_manager(disk.dat, c)
            &&& j < cols.len()
            &&& cols[j as int] == c
            &&& writelaw::listed_once(cols)
            &&& forall|i: int| 0 <= i < cols.len() ==> #[trigger] cols[i] < m.desc.columns.len()
        }),
{
    let seqs = m.stored_managers(disk.dat);
    assert(seqs[c] == m.stored_manager(disk.dat, c));
    tablelaw::lemma_within(disk.dat.column_set.columns, seqs, c);
    lemma_members_once(seqs, seqs[c] as int, seqs.len());
}

/// A number that is as it was on disk.
pub open spec fn unwritten_number(m: WriteModel, dat: TableDatModel, c: int, row: int) -> bool {
    &&& dat.desc.columns[c].kind is Scalar
    &&& dat.desc.columns[c].data_type != DataType::String
    &&& !(m.pending[c].contains(row) && m.cells[c][row] is Some)
}

/// A flush in place read back: a table whose rewritten files replace the old
/// ones, beside the unchanged `table.dat`, opens with the same description,
/// and every cell has the value that was written or else the one that it had.
/// Of the values that a rewritten manager stores again, this is said of all
/// numbers that were not written, and of the others that the manager can
/// give back as they are.
#[verifier::spinoff_prover]
#[verifier::rlimit(60)]
pub proof fn law_flushed_reads_back(
    disk: TableModel,
    path: Seq<char>,
    readonly: bool,
    dat: Seq<u8>,
    lock: Option<Seq<u8>>,
    files: Seq<ManagerFileModel>,
    m: WriteModel,
    t: Supplied,
    images: Seq<TiledImageModel>,
    c: int,
    row: u64,
)
    requires
        tableread::table_of(disk.path, !disk.writable, dat, lock, files) == Ok::<
            TableModel,
            TableDatFault,
        >(disk),
        in_place(m, disk, t, images),
        0 <= c < m.desc.columns.len(),
        row < m.rows(),
        disk.cell(c, row) is Ok,
        rewritten_managers(m, disk.dat).contains(m.stored_manager(disk.dat, c)) ==> {
            ||| unwritten_number(m, disk.dat, c, row as int)
            ||| keeps(
                disk.storage_type(c),
                disk.dat.desc.columns[c],
                writelaw::flushed(m, disk, c, row as int),
            )
        },
    ensures
        tableread::table_of(
            path,
            readonly,
            dat,
            lock,
            replaced(m, disk, files, t, images),
        ) matches Ok(n) && n.dat == disk.dat && n.cell(c, row) == Ok::<ValueModel, ReadFault>(
            writelaw::flushed(m, disk, c, row as int),
        ),
{
    let ms = disk.dat.column_set.data_managers;
    let big = disk.dat.header.big_endian;
    let gs = replaced(m, disk, files, t, images);
    let v = writelaw::flushed(m, disk, c, row as int);
    law_columns_bound(dat);
    lemma_place(m, disk, c);
    let (seq, j) = disk.column_manager(c);
    let cols = m.columns_of(disk.dat, seq);
    lemma_flush_opens(disk, path, readonly, dat, lock, files, m, t, images, seq);
    let n = tableread::table_of(path, readonly, dat, lock, gs)->Ok_0;
    tablelaw::lemma_types_apart();
    if !rewritten_managers(m, disk.dat).contains(seq) {
        if m.pending[c].contains(row as int) {
            assert(m.touched[cols[j as int] as int]);
            assert(m.pending[cols[j as int] as int].contains(row as int));
            lemma_is_rewritten(m, disk.dat, m.desc.columns.len(), c);
        }
        assert(n.cell(c, row) == disk.cell(c, row));
    } else {
        let cd = disk.dat.desc.columns[c];
        assert(m.rewritten(disk.dat, disk, seq, t, images) is Ok && within(m, disk, seq, t));
        let d = tablecells::manager_of(ms, seq, 0)->0;
        assert(tablecells::manager_of(ms, seq, 0) is Some);
        lemma_manager_from(ms, gs, big, seq, 0);
        let x = choose|x: int| 0 <= x < ms.len() && #[trigger] ms[x] == d;
        assert(opens(ms[x], files, big));
        let f = tableread::manager_file(files, seq, 0)->0;
        lemma_replaced(m, disk, files, t, images, seq, 0);
        if unwritten_number(m, disk.dat, c, row as int) {
            flush::law_stored_value_ready(disk, c, row);
        }
        assert(keeps(d.manager_type, cd, v));
        if d.manager_type == "StandardStMan"@ {
            assert(m.manager_values(disk, cols, 0, m.no_values()) is Ok) by {
                let out = lemma_standard_opens(m, disk, seq, t, images, f);
            }
            writelaw::law_flushed_values(m, disk, cols, j as int, row);
            lemma_standard(m, disk, seq, t, images, f, j as int, row, v);
        } else {
            assert(m.manager_values(disk, cols, 0, m.no_values()) is Ok) by {
                reveal(WriteModel::incremental_rewritten);
            }
            writelaw::law_flushed_values(m, disk, cols, j as int, row);
            lemma_incremental(m, disk, seq, t, images, f, j as int, row, v);
        }
    }
}

/// A column holds no buffered cell, and nothing of it is pending.
pub open spec fn settled(m: WriteModel, c: int) -> bool {
    &&& m.pending[c] == Set::<int>::empty()
    &&& forall|r: int| 0 <= r < m.cells[c].len() ==> (#[trigger] m.cells[c][r]) is None
}

/// The table with the managers from `k` on noted as stored, one after the
/// other.
pub open spec fn managers_released(
    m: WriteModel,
    dat: TableDatModel,
    seqs: Seq<u32>,
    k: int,
) -> WriteModel
    decreases seqs.len() - k,
{
    if k < 0 || k >= seqs.len() {
        m
    } else {
        managers_released(m.columns_released(m.columns_of(dat, seqs[k]), 0), dat, seqs, k + 1)
    }
}

proof fn lemma_columns_released(m: WriteModel, cols: Seq<usize>, k: int, c: int)
    requires
        0 <= k,
        0 <= c < m.cells.len(),
        m.cells.len() == m.pending.len(),
    ensures
        ({
            let n = m.columns_released(cols, k);
            &&& n.desc == m.desc
            &&& n.cells.len() == m.cells.len()
            &&& n.pending.len() == m.pending.len()
            &&& settled(m, c) ==> settled(n, c)
            &&& m.pending[c] == Set::<int>::empty() ==> n.pending[c] == Set::<int>::empty()
            &&& (exists|i: int| k <= i < cols.len() && #[trigger] cols[i] == c) ==> settled(n, c)
        }),
    decreases cols.len() - k,
{
    if k < cols.len() {
        let next = m.released(cols[k] as int);
        lemma_columns_released(next, cols, k + 1, c);
        if cols[k] == c {
            assert(settled(next, c));
        } else {
            assert(settled(m, c) ==> settled(next, c));
            if exists|i: int| k <= i < cols.len() && #[trigger] cols[i] == c {
                let i = choose|i: int| k <= i < cols.len() && #[trigger] cols[i] == c;
                assert(k + 1 <= i && cols[i] == c);
            }
        }
    }
}

proof fn lemma_managers_released(
    m: WriteModel,
    dat: TableDatModel,
    seqs: Seq<u32>,
    k: int,
    c: int,
    i: int,
)
    requires
        0 <= k,
        0 <= c < m.cells.len() <= u32::MAX,
        m.cells.len() == m.pending.len(),
    ensures
        ({
            let n = managers_released(m, dat, seqs, k);
            &&& n.desc == m.desc
            &&& settled(m, c) ==> settled(n, c)
            &&& m.pending[c] == Set::<int>::empty() ==> n.pending[c] == Set::<int>::empty()
            &&& k <= i < seqs.len() && m.columns_of(dat, seqs[i]).contains(c as usize) ==> settled(
                n,
                c,
            )
        }),
    decreases seqs.len() - k,
{
    if k < seqs.len() {
        let cols = m.columns_of(dat, seqs[k]);
        let next = m.columns_released(cols, 0);
        lemma_columns_released(m, cols, 0, c);
        lemma_managers_released(next, dat, seqs, k + 1, c, i);
        if i == k && cols.contains(c as usize) {
            let j = cols.index_of(c as usize);
            assert(cols[j] == c as usize);
        }
        assert(next.stored_managers(dat) =~= m.stored_managers(dat));
    }
}

/// Once the managers that a flush in place rewrites are stored, nothing is
/// pending, and no cell of theirs is buffered.
pub proof fn law_nothing_pending(m: WriteModel, dat: TableDatModel, c: int)
    requires
        m.sound(),
        m.desc.columns.len() <= u32::MAX,
        dat.column_set.columns.len() == m.desc.columns.len(),
        0 <= c < m.desc.columns.len(),
    ensures
        ({
            let n = managers_released(m, dat, rewritten_managers(m, dat), 0);
            &&& n.pending[c] == Set::<int>::empty()
            &&& rewritten_managers(m, dat).contains(m.stored_manager(dat, c)) ==> settled(n, c)
        }),
{
    let seqs = rewritten_managers(m, dat);
    let seq = m.stored_manager(dat, c);
    let all = m.stored_managers(dat);
    let cols = m.columns_of(dat, seq);
    assert(all[c] == seq);
    tablelaw::lemma_within(dat.column_set.columns, all, c);
    let j = tablecells::bound_before(dat.column_set.columns, seq, c as nat) as int;
    assert(cols[j] == c as usize);
    if seqs.contains(seq) {
        lemma_managers_released(m, dat, seqs, 0, c, seqs.index_of(seq));
    } else {
        lemma_managers_released(m, dat, seqs, 0, c, 0);
        assert forall|r: int| !m.pending[c].contains(r) by {
            if m.pending[c].contains(r) {
                assert(m.touched[cols[j] as int]);
                assert(m.pending[cols[j] as int].contains(r));
                lemma_is_rewritten(m, dat, m.desc.columns.len(), c);
            }
        }
        assert(m.pending[c] =~= Set::<int>::empty());
    }
}

/// A manager without a written column is not rewritten.
proof fn lemma_unwritten(m: WriteModel, dat: TableDatModel, n: nat, seq: u32)
    requires
        n <= m.desc.columns.len(),
        m.rewrites(dat, n).contains(seq),
    ensures
        m.must_rewrite(m.columns_of(dat, seq)),
    decreases n,
{
    if n > 0 {
        let before = m.rewrites(dat, (n - 1) as nat);
        if before.contains(seq) {
            lemma_unwritten(m, dat, (n - 1) as nat, seq);
        } else {
            let i = m.rewrites(dat, n).index_of(seq);
            assert(i < before.len() ==> before[i] == seq);
        }
    }
}

/// No column of a manager was written.
pub open spec fn manager_unwritten(m: WriteModel, dat: TableDatModel, seq: u32) -> bool {
    let cols = m.columns_of(dat, seq);
    forall|k: int| 0 <= k < cols.len() ==> !m.touched[#[trigger] cols[k] as int]
}

/// A flush in place, as a whole. The table opens beside the unchanged
/// `table.dat`, with the description it had. The files of managers without a
/// written column stay as they are, byte for byte. A pending cell reads as it
/// was written, and every other cell as before. Afterwards nothing is pending,
/// and no cell of a rewritten manager is buffered.
pub proof fn law_flush_in_place(
    disk: TableModel,
    path: Seq<char>,
    readonly: bool,
    dat: Seq<u8>,
    lock: Option<Seq<u8>>,
    files: Seq<ManagerFileModel>,
    m: WriteModel,
    t: Supplied,
    images: Seq<TiledImageModel>,
    c: int,
    row: u64,
    i: int,
)
    requires
        tableread::table_of(disk.path, !disk.writable, dat, lock, files) == Ok::<
            TableModel,
            TableDatFault,
        >(disk),
        in_place(m, disk, t, images),
        0 <= c < m.desc.columns.len(),
        row < m.rows(),
        disk.cell(c, row) is Ok,
        rewritten_managers(m, disk.dat).contains(m.stored_manager(disk.dat, c)) ==> {
            ||| unwritten_number(m, disk.dat, c, row as int)
            ||| keeps(
                disk.storage_type(c),
                disk.dat.desc.columns[c],
                writelaw::flushed(m, disk, c, row as int),
            )
        },
    ensures
        ({
            let new_files = replaced(m, disk, files, t, images);
            let opened = tableread::table_of(path, readonly, dat, lock, new_files);
            let after = managers_released(m, disk.dat, rewritten_managers(m, disk.dat), 0);
            &&& opened is Ok
            &&& opened->Ok_0.dat == disk.dat
            &&& new_files.len() == files.len()
            &&& 0 <= i < files.len() && manager_unwritten(m, disk.dat, files[i].sequence_nr)
                ==> new_files[i] == files[i]
            &&& m.pending[c].contains(row as int) && m.cells[c][row as int] is Some
                ==> opened->Ok_0.cell(c, row) == Ok::<ValueModel, ReadFault>(
                m.cells[c][row as int]->0,
            )
            &&& !(m.pending[c].contains(row as int) && m.cells[c][row as int] is Some)
                ==> opened->Ok_0.cell(c, row) == disk.cell(c, row)
            &&& after.pending[c] == Set::<int>::empty()
            &&& rewritten_managers(m, disk.dat).contains(m.stored_manager(disk.dat, c))
                ==> settled(after, c)
        }),
{
    law_flushed_reads_back(disk, path, readonly, dat, lock, files, m, t, images, c, row);
    law_columns_bound(dat);
    law_nothing_pending(m, disk.dat, c);
    if 0 <= i < files.len() && rewritten_managers(m, disk.dat).contains(files[i].sequence_nr) {
        lemma_unwritten(m, disk.dat, m.desc.columns.len(), files[i].sequence_nr);
    }
}

/// A table opened for an update has the description and the rows of the stored
/// one; nothing of it is written or pending.
pub proof fn law_opened_for_update(dir: Seq<char>, t: TableModel, c: int)
    requires
        0 <= c < t.dat.desc.columns.len(),
    ensures
        ({
            let m = flush::unwritten(dir, t);
            &&& m.sound()
            &&& m.desc == t.dat.desc
            &&& m.rows() == t.dat.header.nrow
            &&& m.cells.len() == t.dat.desc.columns.len()
            &&& m.pending[c] == Set::<int>::empty()
            &&& !m.touched[c]
            &&& !m.meta_dirty
        }),
{
    let m = flush::unwritten(dir, t);
    assert forall|x: int| 0 <= x < m.cells.len() implies (#[trigger] m.cells[x]).len()
        == t.dat.header.nrow by {}
    assert(m.cells[0].len() == t.dat.header.nrow);
}

proof fn lemma_all_loaded(m: WriteModel, t: TableModel, j: int, c: int, r: int)
    requires
        m.sound(),
        m.cells.len() == t.dat.desc.columns.len(),
        m.rows() == t.dat.header.nrow,
        0 <= j <= t.dat.desc.columns.len(),
        0 <= c < m.cells.len(),
        0 <= r < m.rows(),
    ensures
        m.all_loaded(t, j) matches Ok(n) ==> {
            &&& n.sound()
            &&& n.rows() == m.rows()
            &&& n.desc == m.desc
            &&& c < j ==> n.cells[c][r] == m.cells[c][r] && n.pending[c].contains(r)
                == m.pending[c].contains(r)
            &&& c >= j ==> {
                &&& n.cells[c][r] is Some
                &&& t.cell(c, r as u64) == Ok::<ValueModel, ReadFault>(n.cells[c][r]->0)
                &&& n.pending[c].contains(r)
            }
        },
    decreases t.dat.desc.columns.len() - j,
{
    if j < t.dat.desc.columns.len() {
        if let Ok(vs) = t.cells(j, 0, t.dat.header.nrow as nat, Seq::empty()) {
            let _ = t.law_column_read(j, 0, t.dat.header.nrow as nat, r);
            let (n, f) = m.column_written(j, 0, vs, 0);
            writelaw::law_column_put(m, j, 0, vs, c, r);
            writelaw::lemma_put_sound(m, j, 0, vs);
            if f is None {
                lemma_all_loaded(n, t, j + 1, c, r);
            }
        }
    }
}

/// A table made of a stored one holds every cell of it, as if it had been
/// written.
pub proof fn law_table_loaded(dir: Seq<char>, t: TableModel, c: int, r: int)
    requires
        0 <= c < t.dat.desc.columns.len(),
        0 <= r < t.dat.header.nrow,
    ensures
        flush::unwritten(dir, t).all_loaded(t, 0) matches Ok(m) ==> {
            &&& m.desc == t.dat.desc
            &&& m.rows() == t.dat.header.nrow
            &&& m.cells[c][r] is Some
            &&& t.cell(c, r as u64) == Ok::<ValueModel, ReadFault>(m.cells[c][r]->0)
            &&& m.pending[c].contains(r)
        },
{
    law_opened_for_update(dir, t, c);
    lemma_all_loaded(flush::unwritten(dir, t), t, 0, c, r);
}

/// The members of a manager are the columns bound to it.
proof fn lemma_member_iff(seqs: Seq<u32>, dm: int, n: nat, c: int)
    requires
        n <= seqs.len() <= usize::MAX,
        0 <= c < n,
    ensures
        tablecreate::members(seqs, dm, n).contains(c as usize) == (seqs[c] == dm),
    decreases n,
{
    let before = tablecreate::members(seqs, dm, (n - 1) as nat);
    let all = tablecreate::members(seqs, dm, n);
    lemma_members_once(seqs, dm, (n - 1) as nat);
    if c < n - 1 {
        lemma_member_iff(seqs, dm, (n - 1) as nat, c);
        if seqs[c] == dm {
            let i = before.index_of(c as usize);
            assert(all[i] == c as usize);
        } else if all.contains(c as usize) {
            let i = all.index_of(c as usize);
            assert(i < before.len() ==> before[i] == c as usize);
        }
    } else if seqs[c] == dm {
        assert(all[before.len() as int] == c as usize);
    }
}

/// A manager is rewritten only where it must be, and named once.
proof fn lemma_rewritten_once(m: WriteModel, dat: TableDatModel, n: nat)
    requires
        n <= m.desc.columns.len(),
    ensures
        m.rewrites(dat, n).no_duplicates(),
        forall|s: u32| #[trigger]
            m.rewrites(dat, n).contains(s) ==> m.must_rewrite(m.columns_of(dat, s)),
    decreases n,
{
    if n > 0 {
        let before = m.rewrites(dat, (n - 1) as nat);
        let all = m.rewrites(dat, n);
        lemma_rewritten_once(m, dat, (n - 1) as nat);
        assert forall|s: u32| #[trigger] all.contains(s) implies m.must_rewrite(
            m.columns_of(dat, s),
        ) by {
            let i = all.index_of(s);
            if i < before.len() {
                assert(before[i] == s);
                assert(before.contains(s));
            }
        }
        assert forall|i: int, j: int| 0 <= i < j < all.len() implies all[i] != all[j] by {
            assert(before.contains(before[i]));
        }
    }
}

/// A column of a manager was written.
pub open spec fn column_written_of(m: WriteModel, dat: TableDatModel, s: u32) -> bool {
    exists|c: int|
        0 <= c < m.desc.columns.len() && #[trigger] m.stored_manager(dat, c) == s && m.touched[c]
}

/// A cell of a manager is pending.
pub open spec fn cell_pending_of(m: WriteModel, dat: TableDatModel, s: u32) -> bool {
    exists|c: int, row: int|
        0 <= c < m.desc.columns.len() && m.stored_manager(dat, c) == s
            && #[trigger] m.pending[c].contains(row)
}

/// A flush in place rewrites exactly the managers with a written column and a
/// pending cell, each of them once.
pub proof fn law_managers_rewritten(m: WriteModel, dat: TableDatModel, s: u32)
    requires
        m.sound(),
        m.desc.columns.len() <= usize::MAX,
    ensures
        rewritten_managers(m, dat).no_duplicates(),
        rewritten_managers(m, dat).contains(s) == (column_written_of(m, dat, s) && cell_pending_of(
            m,
            dat,
            s,
        )),
{
    let n = m.desc.columns.len();
    let seqs = m.stored_managers(dat);
    let cols = m.columns_of(dat, s);
    lemma_rewritten_once(m, dat, n);
    lemma_members_once(seqs, s as int, n);
    if rewritten_managers(m, dat).contains(s) {
        let k = choose|k: int| 0 <= k < cols.len() && m.touched[#[trigger] cols[k] as int];
        assert(cols.contains(cols[k]));
        lemma_member_iff(seqs, s as int, n, cols[k] as int);
        assert(m.stored_manager(dat, cols[k] as int) == s);
        let (j, row) = choose|j: int, row: int|
            0 <= j < cols.len() && #[trigger] m.pending[cols[j] as int].contains(row);
        assert(cols.contains(cols[j]));
        lemma_member_iff(seqs, s as int, n, cols[j] as int);
        assert(m.stored_manager(dat, cols[j] as int) == s);
    }
    if column_written_of(m, dat, s) && cell_pending_of(m, dat, s) {
        let c = choose|c: int|
            0 <= c < n && #[trigger] m.stored_manager(dat, c) == s && m.touched[c];
        assert(seqs[c] == s);
        lemma_member_iff(seqs, s as int, n, c);
        let k = cols.index_of(c as usize);
        assert(m.touched[cols[k] as int]);
        let (d, row) = choose|d: int, row: int|
            0 <= d < n && m.stored_manager(dat, d) == s && #[trigger] m.pending[d].contains(row);
        assert(seqs[d] == s);
        lemma_member_iff(seqs, s as int, n, d);
        let j = cols.index_of(d as usize);
        assert(m.pending[cols[j] as int].contains(row));
        assert(m.must_rewrite(cols));
        lemma_is_rewritten(m, dat, n, c);
    }
}

} // verus!
