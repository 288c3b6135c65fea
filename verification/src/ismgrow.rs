//! Updating an IncrementalStMan data file in place: new rows and new cells.
//!
//! Only the buckets that hold written rows, a topped-up last bucket and new
//! buckets are encoded; the index behind the last bucket is written anew. The
//! rest of the file stays as it is.
use crate::aipsio;
use crate::bytes;
use crate::bytes::resize;
use crate::columnset;
use crate::ism;
use crate::ism::{IsmError, IsmFault, IsmFile, IsmHeader, IsmModel};
use crate::ismout;
use crate::ismout::{
    encode_ism_bucket, index_image, ism_rows_per_bucket, IsmCells, WriteIsmColumn,
};
use crate::record::DataType;
use crate::recordout;
use crate::ssm;
use crate::ssm::DATA_START;
use crate::ssmcell;
use crate::ssmcell::scalar_cell_size;
use crate::ssmfile;
use crate::ssmfile::put_over;
use crate::ssmgrow::{edit_models, BucketEdit};
use crate::ssmout;
use crate::ssmout::{encode_scalar_cell, writer};
use crate::tabledesc;
use crate::tabledesc::{ColumnDesc, ColumnKind, ColumnModel, KindModel};
use vstd::prelude::*;

verus! {

/// An encoded cell to be written at a row.
#[derive(Debug)]
pub struct PendingCell {
    pub row: u64,
    pub cell: Vec<u8>,
}

/// The cells to be written to a column, as row and bytes.
pub open spec fn pending_models(s: Seq<PendingCell>) -> Seq<(u64, Seq<u8>)> {
    s.map_values(|p: PendingCell| (p.row, p.cell@))
}

/// The cells to be written to each column.
pub open spec fn pending_columns(s: Seq<Vec<PendingCell>>) -> Seq<Seq<(u64, Seq<u8>)>> {
    s.map_values(|p: Vec<PendingCell>| pending_models(p@))
}

/// Why a file cannot be updated.
#[derive(Debug)]
pub enum IsmUpdateError {
    /// A cell of the file cannot be read.
    Read(IsmError),
    /// A cell to be written has not the column's size.
    CellSize { found: usize, want: u32 },
    /// A row does not fit a new bucket, or there is no number for the bucket.
    Overflow,
}

/// What an [`IsmUpdateError`] says.
pub enum UpdateFault {
    Read(IsmFault),
    CellSize { found: int, want: u32 },
    Overflow,
}

impl View for IsmUpdateError {
    type V = UpdateFault;

    open spec fn view(&self) -> UpdateFault {
        match *self {
            IsmUpdateError::Read(e) => UpdateFault::Read(e@),
            IsmUpdateError::CellSize { found, want } => UpdateFault::CellSize {
                found: found as int,
                want,
            },
            IsmUpdateError::Overflow => UpdateFault::Overflow,
        }
    }
}

/// A column whose cells are stored in the buckets.
pub open spec fn is_plain(cd: ColumnModel) -> bool {
    cd.data_type != DataType::String && cd.kind is Scalar
}

pub open spec fn all_plain(cds: Seq<ColumnModel>) -> bool {
    forall|c: int| 0 <= c < cds.len() ==> is_plain(#[trigger] cds[c])
}

/// The bytes of a cell of a column.
pub open spec fn size_of(cd: ColumnModel) -> u32 {
    ssmcell::cell_size(cd.data_type, cd.max_length)
}

/// The cell of an unwritten row of a column.
pub open spec fn default_cell(big: bool, cd: ColumnModel) -> Seq<u8> {
    match cd.kind {
        KindModel::Scalar(v) => match ssmout::scalar_cell(big, cd.data_type, cd.max_length, v) {
            Ok(b) => b,
            Err(_) => Seq::empty(),
        },
        _ => Seq::empty(),
    }
}

/// The cells of the `n` rows of a column from `start` on, after `acc`.
pub open spec fn disk_cells(
    m: IsmModel,
    c: int,
    size: u32,
    start: int,
    n: nat,
    acc: Seq<u8>,
) -> Result<Seq<u8>, UpdateFault>
    decreases n,
{
    if n == 0 {
        Ok(acc)
    } else {
        match m.cell(c, start as u64) {
            Err(f) => Err(UpdateFault::Read(f)),
            Ok(cell) => disk_cells(
                m,
                c,
                size,
                start + 1,
                (n - 1) as nat,
                acc + cell.subrange(0, size as int),
            ),
        }
    }
}

/// `n` copies of a cell after `acc`.
pub open spec fn repeated(acc: Seq<u8>, cell: Seq<u8>, n: nat) -> Seq<u8>
    decreases n,
{
    if n == 0 {
        acc
    } else {
        repeated(acc, cell, (n - 1) as nat) + cell
    }
}

/// The cells of the rows `start..end` with the written cells from the `k`-th
/// on in their places.
pub open spec fn overlaid(
    buf: Seq<u8>,
    p: Seq<(u64, Seq<u8>)>,
    start: int,
    end: int,
    size: u32,
    k: int,
) -> Result<Seq<u8>, UpdateFault>
    decreases p.len() - k,
{
    if k < 0 || k >= p.len() {
        Ok(buf)
    } else if p[k].0 < start || p[k].0 >= end {
        overlaid(buf, p, start, end, size, k + 1)
    } else if p[k].1.len() != size {
        Err(UpdateFault::CellSize { found: p[k].1.len() as int, want: size })
    } else {
        overlaid(
            ssmfile::overlay(buf, (p[k].0 - start) * size, p[k].1),
            p,
            start,
            end,
            size,
            k + 1,
        )
    }
}

/// The cells to be written to column `c`.
pub open spec fn written_to(pending: Seq<Seq<(u64, Seq<u8>)>>, c: int) -> Seq<(u64, Seq<u8>)> {
    if c < pending.len() {
        pending[c]
    } else {
        Seq::empty()
    }
}

/// A file to be updated, with its columns and the cells to be written.
pub struct Job {
    pub m: IsmModel,
    pub cds: Seq<ColumnModel>,
    pub pending: Seq<Seq<(u64, Seq<u8>)>>,
}

impl Job {
    /// The cells of column `c` in the rows `start..end`: those up to
    /// `disk_end` from the file, the rest defaults, and the written cells in
    /// their places.
    pub open spec fn column(self, c: int, start: int, disk_end: int, end: int) -> Result<
        Seq<u8>,
        UpdateFault,
    > {
        let size = size_of(self.cds[c]);
        match disk_cells(self.m, c, size, start, (disk_end - start) as nat, Seq::empty()) {
            Err(f) => Err(f),
            Ok(b) => overlaid(
                repeated(
                    b,
                    default_cell(self.m.header.big_endian, self.cds[c]),
                    (end - disk_end) as nat,
                ),
                written_to(self.pending, c),
                start,
                end,
                size,
                0,
            ),
        }
    }

    /// The cells of all columns from `k` on, after `acc`.
    pub open spec fn gathered(
        self,
        start: int,
        disk_end: int,
        end: int,
        k: int,
        acc: Seq<IsmCells>,
    ) -> Result<Seq<IsmCells>, UpdateFault>
        decreases self.cds.len() - k,
    {
        if k < 0 || k >= self.cds.len() {
            Ok(acc)
        } else {
            match self.column(k, start, disk_end, end) {
                Err(f) => Err(f),
                Ok(b) => self.gathered(
                    start,
                    disk_end,
                    end,
                    k + 1,
                    acc.push(IsmCells { cell_size: size_of(self.cds[k]), bytes: b }),
                ),
            }
        }
    }

    /// The bucket of the rows `start..end`, where they fit one.
    pub open spec fn bucket(self, start: int, disk_end: int, end: int) -> Result<
        Option<Seq<u8>>,
        UpdateFault,
    > {
        match self.gathered(start, disk_end, end, 0, Seq::empty()) {
            Err(f) => Err(f),
            Ok(cells) => {
                let content = ismout::bucket_content(
                    self.m.header.big_endian,
                    ismout::draft(cells, 0, (end - start) as nat),
                );
                if content.len() <= self.m.header.bucket_size {
                    Ok(Some(bytes::resized(content, self.m.header.bucket_size as nat)))
                } else {
                    Ok(None)
                }
            },
        }
    }

    /// The rows that a new bucket holds.
    pub open spec fn cap(self) -> int {
        ismout::rows_in(self.m.header.bucket_size as int, shapes(self.cds))
    }
}

/// The sizes of the cells of columns.
pub open spec fn shapes(cds: Seq<ColumnModel>) -> Seq<IsmCells> {
    cds.map_values(|cd: ColumnModel| IsmCells { cell_size: size_of(cd), bytes: Seq::empty() })
}

/// A cell of the column is written between `lo` and `hi`.
pub open spec fn touches(p: Seq<(u64, Seq<u8>)>, lo: u64, hi: u64) -> bool {
    exists|k: int| 0 <= k < p.len() && lo <= (#[trigger] p[k]).0 < hi
}

/// What has been updated so far: the buckets to write, the row boundaries,
/// the bucket numbers and the number of buckets.
pub struct Updating {
    pub buckets: Seq<(int, Seq<u8>)>,
    pub rows: Seq<u64>,
    pub numbers: Seq<u32>,
    pub next: int,
}

impl Job {
    /// The file's row boundaries.
    pub open spec fn rows(self) -> Seq<u64> {
        self.m.index.rows
    }

    /// The number of buckets in use.
    pub open spec fn used(self) -> int {
        self.m.index.bucket_numbers.len() as int
    }

    /// Whether the last bucket has room for new rows.
    pub open spec fn tops_up(self, new: u64) -> bool {
        &&& self.used() > 0
        &&& new > self.rows()[self.used()]
        &&& self.rows()[self.used()] - self.rows()[self.used() - 1] < self.cap()
    }

    /// Whether bucket `i` is encoded anew: where it holds written rows, or
    /// new rows.
    pub open spec fn affected(self, new: u64, i: int) -> bool {
        ||| self.tops_up(new) && i == self.used() - 1
        ||| exists|c: int|
            0 <= c < self.pending.len() && touches(
                #[trigger] self.pending[c],
                self.rows()[i],
                self.rows()[i + 1],
            )
    }

    /// The end of the rows of bucket `i`.
    pub open spec fn end_of(self, new: u64, i: int) -> int {
        if self.tops_up(new) && i == self.used() - 1 {
            ssm::min(self.rows()[i] + self.cap(), new as int)
        } else {
            self.rows()[i + 1] as int
        }
    }

    /// The buckets from `i` on updated, after `u`.
    pub open spec fn updated(self, new: u64, i: int, u: Updating) -> Result<
        Option<Updating>,
        UpdateFault,
    >
        decreases self.used() - i,
    {
        if i < 0 || i >= self.used() {
            Ok(Some(u))
        } else if !self.affected(new, i) {
            self.updated(new, i + 1, u)
        } else {
            match self.bucket(
                self.rows()[i] as int,
                self.rows()[i + 1] as int,
                self.end_of(new, i),
            ) {
                Err(f) => Err(f),
                Ok(None) => Ok(None),
                Ok(Some(b)) => self.updated(
                    new,
                    i + 1,
                    Updating {
                        buckets: u.buckets.push(
                            (self.m.index.bucket_numbers[i] as int, b),
                        ),
                        rows: u.rows.update(i + 1, self.end_of(new, i) as u64),
                        ..u
                    },
                ),
            }
        }
    }

    /// New buckets up to `new` rows.
    pub open spec fn extended(self, new: u64, u: Updating) -> Result<Updating, UpdateFault>
        decreases new - u.rows.last(),
    {
        let row = u.rows.last();
        if u.rows.len() == 0 || row >= new || self.cap() <= 0 {
            Ok(u)
        } else if u.next >= u32::MAX {
            Err(UpdateFault::Overflow)
        } else {
            let end = ssm::min(row + self.cap(), new as int);
            match self.bucket(row as int, row as int, end) {
                Err(f) => Err(f),
                Ok(None) => Err(UpdateFault::Overflow),
                Ok(Some(b)) => self.extended(
                    new,
                    Updating {
                        buckets: u.buckets.push((u.next, b)),
                        rows: u.rows.push(end as u64),
                        numbers: u.numbers.push(bytes::low32(u.next)),
                        next: u.next + 1,
                    },
                ),
            }
        }
    }
}

/// The numbers of a header.
pub open spec fn header_numbers(h: IsmHeader) -> Seq<u8> {
    let big = h.big_endian;
    (aipsio::u32_bytes(big, h.bucket_size) + aipsio::u32_bytes(big, h.nbucket) + aipsio::u32_bytes(
        big,
        h.pers_cache_size,
    )) + (aipsio::u32_bytes(big, h.uniq_nr) + aipsio::u32_bytes(big, h.n_free_bucket)
        + aipsio::i32_bytes(big, h.first_free_bucket))
}

/// A header object: from version 5 on with an explicit endianness flag.
pub open spec fn header_image(h: IsmHeader) -> Seq<u8> {
    aipsio::object_bytes(
        h.big_endian,
        true,
        "IncrementalStMan"@,
        h.version,
        if h.version >= 5 {
            aipsio::bool_bytes(h.big_endian) + header_numbers(h)
        } else {
            header_numbers(h)
        },
    )
}

/// An index object with the given row boundaries and bucket numbers.
pub open spec fn listed_index(big: bool, rows: Seq<u32>, numbers: Seq<u32>) -> Seq<u8> {
    aipsio::object_bytes(
        big,
        true,
        "ISMIndex"@,
        1,
        aipsio::u32_bytes(big, bytes::low32(numbers.len() as int)) + columnset::block_bytes(
            big,
            rows,
        ) + columnset::block_bytes(big, numbers),
    )
}

pub open spec fn narrowed(s: Seq<u64>) -> Seq<u32> {
    s.map_values(|v: u64| bytes::low32(v as int))
}

/// What an update writes: whole buckets by number, the bytes before the first
/// bucket, and the index behind the last one, where the file ends.
#[verifier::ext_equal]
pub struct UpdateModel {
    pub buckets: Seq<(int, Seq<u8>)>,
    pub header: Seq<u8>,
    pub index: Seq<u8>,
    /// The number of buckets.
    pub next: int,
}

/// What is written once the buckets are there.
pub open spec fn finished(h: IsmHeader, u: Updating) -> UpdateModel {
    UpdateModel {
        buckets: u.buckets,
        header: bytes::resized(
            header_image(IsmHeader { nbucket: u.next as u32, ..h }),
            DATA_START as nat,
        ),
        index: listed_index(h.big_endian, narrowed(u.rows), u.numbers),
        next: u.next,
    }
}

/// Whether a file has the layout that can be updated.
pub open spec fn updatable(m: IsmModel, old: u64, new: u64) -> bool {
    &&& m.header.version == 4 || m.header.version == 5
    &&& m.index.rows.len() == m.index.bucket_numbers.len() + 1
    &&& m.index.rows[0] == 0
    &&& m.index.rows.last() == old
    &&& ism::increasing(m.index.rows)
    &&& old <= u32::MAX
    &&& new <= u32::MAX
}

/// The state before an update.
pub open spec fn start_of(m: IsmModel) -> Updating {
    Updating {
        buckets: Seq::empty(),
        rows: m.index.rows,
        numbers: m.index.bucket_numbers,
        next: m.header.nbucket as int,
    }
}

/// What is written to take a data file from `old` to `new` rows with the
/// cells of `pending` in their places; nothing where the file cannot be
/// updated in place.
pub open spec fn ism_updated(
    data: Seq<u8>,
    big: bool,
    cds: Seq<ColumnModel>,
    old: u64,
    new: u64,
    pending: Seq<Seq<(u64, Seq<u8>)>>,
) -> Result<Option<UpdateModel>, UpdateFault> {
    match ism::parsed(data, big) {
        Err(_) => Ok(None),
        Ok(m) => if !all_plain(cds) || !updatable(m, old, new) {
            Ok(None)
        } else {
            let job = Job { m, cds, pending };
            match job.updated(new, 0, start_of(m)) {
                Err(f) => Err(f),
                Ok(None) => Ok(None),
                Ok(Some(u)) => match job.extended(new, u) {
                    Err(f) => Err(f),
                    Ok(u) => Ok(Some(finished(m.header, u))),
                },
            }
        },
    }
}

/// The file, the columns and the cells that an update works with.
struct Work<'a> {
    f: IsmFile,
    cds: &'a [ColumnDesc],
    defaults: Vec<Vec<u8>>,
    pending: &'a Vec<Vec<PendingCell>>,
}

impl View for Work<'_> {
    type V = Job;

    closed spec fn view(&self) -> Job {
        Job {
            m: self.f@,
            cds: tabledesc::column_models(self.cds@),
            pending: pending_columns(self.pending@),
        }
    }
}

impl Work<'_> {
    spec fn ready(self) -> bool {
        &&& all_plain(self@.cds)
        &&& self.defaults@.len() == self@.cds.len()
        &&& forall|c: int|
            0 <= c < self.defaults@.len() ==> (#[trigger] self.defaults@[c])@ == default_cell(
                self@.m.header.big_endian,
                self@.cds[c],
            )
        &&& forall|c: int|
            0 <= c < self.defaults@.len() ==> (#[trigger] self.defaults@[c])@.len() == size_of(
                self@.cds[c],
            )
    }

    /// The cells of the file in the rows `start..end` of a column.
    fn read_cells(&self, c: usize, size: u32, start: u64, end: u64) -> (r: Result<
        Vec<u8>,
        IsmUpdateError,
    >)
        requires
            self.ready(),
            c < self@.cds.len(),
            size == size_of(self@.cds[c as int]),
            start <= end,
        ensures
            match disk_cells(
                self@.m,
                c as int,
                size,
                start as int,
                (end - start) as nat,
                Seq::empty(),
            ) {
                Ok(b) => r is Ok && r->Ok_0@ == b && b.len() == (end - start) * size,
                Err(f) => r is Err && r->Err_0@ == f,
            },
    {
        let mut out: Vec<u8> = Vec::new();
        let mut row: u64 = start;
        let ghost all = disk_cells(
            self@.m,
            c as int,
            size,
            start as int,
            (end - start) as nat,
            Seq::empty(),
        );
        assert(out@ =~= Seq::<u8>::empty());
        assert(is_plain(self@.cds[c as int]));
        while row < end
            invariant
                start <= row <= end,
                size <= 16,
                out@.len() == (row - start) * size,
                self@.m == self.f@,
                all == disk_cells(
                    self@.m,
                    c as int,
                    size,
                    start as int,
                    (end - start) as nat,
                    Seq::empty(),
                ),
                all == disk_cells(
                    self@.m,
                    c as int,
                    size,
                    row as int,
                    (end - row) as nat,
                    out@,
                ),
            decreases end - row,
        {
            let cell = match self.f.cell_bytes(c, row) {
                Ok(b) => b,
                Err(e) => {
                    return Err(IsmUpdateError::Read(e));
                },
            };
            let ghost before = out@;
            let part = vstd::slice::slice_subrange(cell, 0, size as usize);
            out.extend_from_slice(part);
            proof {
                assert(out@ =~= before + cell@.subrange(0, size as int));
                assert((row + 1 - start) * size == (row - start) * size + size)
                    by (nonlinear_arith);
            }
            row = row + 1;
        }
        Ok(out)
    }
}

/// Append `n` copies of a cell.
fn repeat_cell(out: &mut Vec<u8>, cell: &Vec<u8>, n: u64)
    ensures
        final(out)@ == repeated(old(out)@, cell@, n as nat),
        final(out)@.len() == old(out)@.len() + n * cell@.len(),
{
    let ghost before = out@;
    let mut i: u64 = 0;
    while i < n
        invariant
            i <= n,
            out@ == repeated(before, cell@, i as nat),
            out@.len() == before.len() + i * cell@.len(),
        decreases n - i,
    {
        let ghost so_far = out@;
        out.extend_from_slice(cell.as_slice());
        assert(out@ =~= so_far + cell@);
        assert((i + 1) * cell@.len() == i * cell@.len() + cell@.len()) by (nonlinear_arith);
        i = i + 1;
    }
}

/// Put the written cells of the rows `start..end` in their places.
fn overlay_cells(buf: Vec<u8>, p: &Vec<PendingCell>, start: u64, end: u64, size: u32) -> (r: Result<
    Vec<u8>,
    IsmUpdateError,
>)
    requires
        start <= end,
        buf@.len() == (end - start) * size,
    ensures
        match overlaid(buf@, pending_models(p@), start as int, end as int, size, 0) {
            Ok(b) => r is Ok && r->Ok_0@ == b && b.len() == (end - start) * size,
            Err(f) => r is Err && r->Err_0@ == f,
        },
{
    let mut out = buf;
    let ghost models = pending_models(p@);
    let ghost all = overlaid(buf@, models, start as int, end as int, size, 0);
    let mut k: usize = 0;
    while k < p.len()
        invariant
            start <= end,
            k <= p@.len(),
            models == pending_models(p@),
            out@.len() == (end - start) * size,
            all == overlaid(buf@, models, start as int, end as int, size, 0),
            all == overlaid(out@, models, start as int, end as int, size, k as int),
        decreases p@.len() - k,
    {
        let row: u64 = p[k].row;
        assert(models[k as int] == (row, p@[k as int].cell@));
        if start <= row && row < end {
            let cell = &p[k].cell;
            if cell.len() != size as usize {
                return Err(IsmUpdateError::CellSize { found: cell.len(), want: size });
            }
            let len: usize = out.len();
            proof {
                let i = row - start;
                assert(0 <= i * size && i * size + size <= (end - start) * size)
                    by (nonlinear_arith)
                    requires
                        0 <= i < end - start,
                        0 <= size,
                ;
            }
            let at: usize = ((row - start) * size as u64) as usize;
            put_over(&mut out, at, cell.as_slice());
        }
        k = k + 1;
    }
    Ok(out)
}

/// The cells of a column.
struct Gathered {
    size: u32,
    bytes: Vec<u8>,
}

spec fn gathered_models(s: Seq<Gathered>) -> Seq<IsmCells> {
    s.map_values(|g: Gathered| IsmCells { cell_size: g.size, bytes: g.bytes@ })
}

fn as_columns(s: &Vec<Gathered>) -> (r: Vec<WriteIsmColumn<'_>>)
    ensures
        ismout::ism_cells(r@) == gathered_models(s@),
{
    let mut out: Vec<WriteIsmColumn<'_>> = Vec::new();
    let mut i: usize = 0;
    while i < s.len()
        invariant
            i <= s@.len(),
            out@.len() == i,
            forall|k: int|
                0 <= k < i ==> (#[trigger] out@[k])@ == (IsmCells {
                    cell_size: s@[k].size,
                    bytes: s@[k].bytes@,
                }),
        decreases s@.len() - i,
    {
        out.push(WriteIsmColumn { cell_size: s[i].size, bytes: s[i].bytes.as_slice() });
        i = i + 1;
    }
    assert(ismout::ism_cells(out@) =~= gathered_models(s@));
    out
}

impl Work<'_> {
    /// The cells of column `c` in the rows `start..end`.
    fn gather_column(&self, c: usize, start: u64, disk_end: u64, end: u64) -> (r: Result<
        Vec<u8>,
        IsmUpdateError,
    >)
        requires
            self.ready(),
            c < self@.cds.len(),
            start <= disk_end <= end,
        ensures
            match self@.column(c as int, start as int, disk_end as int, end as int) {
                Ok(b) => r is Ok && r->Ok_0@ == b && b.len() == (end - start) * size_of(
                    self@.cds[c as int],
                ),
                Err(f) => r is Err && r->Err_0@ == f,
            },
    {
        let size: u32 = scalar_cell_size(&self.cds[c]);
        assert(size == size_of(self@.cds[c as int]));
        let mut buf = self.read_cells(c, size, start, disk_end)?;
        let cell = &self.defaults[c];
        assert(cell@.len() == size);
        repeat_cell(&mut buf, cell, end - disk_end);
        assert((disk_end - start) * size + (end - disk_end) * size == (end - start) * size)
            by (nonlinear_arith);
        if c < self.pending.len() {
            assert(self@.pending[c as int] == pending_models(self.pending@[c as int]@));
            overlay_cells(buf, &self.pending[c], start, end, size)
        } else {
            Ok(buf)
        }
    }

    /// The cells of all columns in the rows `start..end`.
    fn gather(&self, start: u64, disk_end: u64, end: u64) -> (r: Result<
        Vec<Gathered>,
        IsmUpdateError,
    >)
        requires
            self.ready(),
            start <= disk_end <= end,
        ensures
            match self@.gathered(
                start as int,
                disk_end as int,
                end as int,
                0,
                Seq::empty(),
            ) {
                Ok(cells) => r is Ok && gathered_models(r->Ok_0@) == cells && ismout::cover_rows(
                    cells,
                    (end - start) as u64,
                ),
                Err(f) => r is Err && r->Err_0@ == f,
            },
    {
        let mut out: Vec<Gathered> = Vec::new();
        let ghost all = self@.gathered(
            start as int,
            disk_end as int,
            end as int,
            0,
            Seq::empty(),
        );
        assert(gathered_models(out@) =~= Seq::<IsmCells>::empty());
        let mut c: usize = 0;
        while c < self.cds.len()
            invariant
                self.ready(),
                start <= disk_end <= end,
                c <= self.cds@.len(),
                self@.cds == tabledesc::column_models(self.cds@),
                out@.len() == c,
                all == self@.gathered(
                    start as int,
                    disk_end as int,
                    end as int,
                    0,
                    Seq::empty(),
                ),
                all == self@.gathered(
                    start as int,
                    disk_end as int,
                    end as int,
                    c as int,
                    gathered_models(out@),
                ),
                forall|k: int|
                    0 <= k < c ==> (end - start) * (#[trigger] out@[k]).size
                        <= out@[k].bytes@.len(),
            decreases self.cds@.len() - c,
        {
            assert(self@.cds[c as int] == self.cds@[c as int]@);
            let size: u32 = scalar_cell_size(&self.cds[c]);
            let bytes = self.gather_column(c, start, disk_end, end)?;
            let ghost before = gathered_models(out@);
            out.push(Gathered { size, bytes });
            assert(gathered_models(out@) =~= before.push(
                IsmCells { cell_size: size, bytes: bytes@ },
            ));
            c = c + 1;
        }
        Ok(out)
    }

    /// The bucket of the rows `start..end`.
    fn make_bucket(&self, start: u64, disk_end: u64, end: u64) -> (r: Result<
        Option<Vec<u8>>,
        IsmUpdateError,
    >)
        requires
            self.ready(),
            start <= disk_end <= end <= u32::MAX,
        ensures
            match self@.bucket(start as int, disk_end as int, end as int) {
                Ok(Some(b)) => (r matches Ok(Some(x)) && x@ == b),
                Ok(None) => (r matches Ok(None)),
                Err(f) => r is Err && r->Err_0@ == f,
            },
    {
        let cells = self.gather(start, disk_end, end)?;
        let cols = as_columns(&cells);
        let h = self.f.header();
        Ok(
            encode_ism_bucket(
                h.big_endian,
                h.bucket_size,
                cols.as_slice(),
                end - start,
                0,
                end - start,
            ),
        )
    }
}

/// What has been updated so far.
struct Progress {
    buckets: Vec<BucketEdit>,
    rows: Vec<u64>,
    numbers: Vec<u32>,
    next: u32,
}

impl View for Progress {
    type V = Updating;

    closed spec fn view(&self) -> Updating {
        Updating {
            buckets: edit_models(self.buckets@),
            rows: self.rows@,
            numbers: self.numbers@,
            next: self.next as int,
        }
    }
}

fn column_touches(p: &Vec<PendingCell>, lo: u64, hi: u64) -> (r: bool)
    ensures
        r == touches(pending_models(p@), lo, hi),
{
    let ghost models = pending_models(p@);
    let mut k: usize = 0;
    while k < p.len()
        invariant
            k <= p@.len(),
            models == pending_models(p@),
            forall|i: int| 0 <= i < k ==> !(lo <= (#[trigger] models[i]).0 < hi),
        decreases p@.len() - k,
    {
        assert(models[k as int].0 == p@[k as int].row);
        if lo <= p[k].row && p[k].row < hi {
            return true;
        }
        k = k + 1;
    }
    false
}

impl Work<'_> {
    fn any_touches(&self, lo: u64, hi: u64) -> (r: bool)
        ensures
            r <==> exists|c: int|
                0 <= c < self@.pending.len() && touches(#[trigger] self@.pending[c], lo, hi),
    {
        let mut c: usize = 0;
        while c < self.pending.len()
            invariant
                c <= self.pending@.len(),
                self@.pending == pending_columns(self.pending@),
                forall|i: int| 0 <= i < c ==> !touches(#[trigger] self@.pending[i], lo, hi),
            decreases self.pending@.len() - c,
        {
            assert(self@.pending[c as int] == pending_models(self.pending@[c as int]@));
            if column_touches(&self.pending[c], lo, hi) {
                return true;
            }
            c = c + 1;
        }
        false
    }

    /// The rows that a new bucket holds.
    fn capacity(&self) -> (r: u64)
        requires
            self.ready(),
        ensures
            r == self@.cap(),
            1 <= r <= u32::MAX,
    {
        let mut cols: Vec<WriteIsmColumn<'_>> = Vec::new();
        let none: Vec<u8> = Vec::new();
        assert(none@ =~= Seq::<u8>::empty());
        let mut c: usize = 0;
        while c < self.cds.len()
            invariant
                c <= self.cds@.len(),
                none@ == Seq::<u8>::empty(),
                self@.cds == tabledesc::column_models(self.cds@),
                cols@.len() == c,
                forall|k: int| 0 <= k < c ==> (#[trigger] cols@[k])@ == shapes(self@.cds)[k],
            decreases self.cds@.len() - c,
        {
            assert(self@.cds[c as int] == self.cds@[c as int]@);
            cols.push(
                WriteIsmColumn {
                    cell_size: scalar_cell_size(&self.cds[c]),
                    bytes: none.as_slice(),
                },
            );
            c = c + 1;
        }
        assert(ismout::ism_cells(cols@) =~= shapes(self@.cds));
        ism_rows_per_bucket(self.f.header().bucket_size, cols.as_slice())
    }
}

impl Work<'_> {
    /// Encode the affected buckets anew.
    fn update(&self, new: u64, cap: u64, u: &mut Progress) -> (r: Result<bool, IsmUpdateError>)
        requires
            self.ready(),
            cap == self@.cap(),
            1 <= cap <= u32::MAX,
            updatable(self@.m, self@.m.index.rows.last(), new),
            old(u)@ == start_of(self@.m),
        ensures
            match self@.updated(new, 0, old(u)@) {
                Ok(Some(v)) => {
                    &&& r == Ok::<bool, IsmUpdateError>(true)
                    &&& final(u)@ == v
                    &&& v.rows.len() > 0
                },
                Ok(None) => r == Ok::<bool, IsmUpdateError>(false),
                Err(f) => r is Err && r->Err_0@ == f,
            },
    {
        let index = self.f.index();
        let used: usize = index.bucket_numbers.len();
        let top_up: bool = used > 0 && new > index.rows[used] && index.rows[used]
            - index.rows[used - 1] < cap;
        let ghost all = self@.updated(new, 0, u@);
        let mut i: usize = 0;
        while i < used
            invariant
                self.ready(),
                cap == self@.cap(),
                1 <= cap <= u32::MAX,
                updatable(self@.m, self@.m.index.rows.last(), new),
                index@ == self@.m.index,
                used == self@.used(),
                top_up == self@.tops_up(new),
                i <= used,
                u@.rows.len() == used + 1,
                all == self@.updated(new, 0, old(u)@),
                all == self@.updated(new, i as int, u@),
            decreases used - i,
        {
            let start: u64 = index.rows[i];
            let disk_end: u64 = index.rows[i + 1];
            let last: bool = top_up && i == used - 1;
            proof {
                assert(self@.rows()[i as int] < self@.rows()[i + 1]);
                if i + 1 < used {
                    assert(self@.rows()[i + 1] < self@.rows()[used as int]);
                }
            }
            if last || self.any_touches(start, disk_end) {
                let end: u64 = if last {
                    if start + cap < new {
                        start + cap
                    } else {
                        new
                    }
                } else {
                    disk_end
                };
                assert(end == self@.end_of(new, i as int));
                let bucket = match self.make_bucket(start, disk_end, end)? {
                    None => {
                        return Ok(false);
                    },
                    Some(b) => b,
                };
                let ghost before = *u;
                u.rows.set(i + 1, end);
                let number: u32 = index.bucket_numbers[i];
                u.buckets.push(BucketEdit { number, bytes: bucket });
                assert(edit_models(u.buckets@) =~= edit_models(before.buckets@).push(
                    (number as int, bucket@),
                ));
            }
            i = i + 1;
        }
        Ok(true)
    }

    /// Append buckets up to `new` rows.
    fn extend(&self, new: u64, cap: u64, u: &mut Progress) -> (r: Result<(), IsmUpdateError>)
        requires
            self.ready(),
            cap == self@.cap(),
            1 <= cap <= u32::MAX,
            new <= u32::MAX,
            old(u)@.rows.len() > 0,
        ensures
            match self@.extended(new, old(u)@) {
                Ok(v) => r is Ok && final(u)@ == v,
                Err(f) => r is Err && r->Err_0@ == f,
            },
    {
        let ghost all = self@.extended(new, u@);
        let mut row: u64 = u.rows[u.rows.len() - 1];
        while row < new
            invariant
                self.ready(),
                cap == self@.cap(),
                1 <= cap <= u32::MAX,
                new <= u32::MAX,
                u@.rows.len() > 0,
                row == u@.rows.last(),
                all == self@.extended(new, old(u)@),
                all == self@.extended(new, u@),
            decreases new - row,
        {
            if u.next == 0xffff_ffff {
                return Err(IsmUpdateError::Overflow);
            }
            let end: u64 = if row + cap < new {
                row + cap
            } else {
                new
            };
            let bucket = match self.make_bucket(row, row, end)? {
                None => {
                    return Err(IsmUpdateError::Overflow);
                },
                Some(b) => b,
            };
            let ghost before = *u;
            let number: u32 = u.next;
            u.buckets.push(BucketEdit { number, bytes: bucket });
            u.rows.push(end);
            u.numbers.push(number);
            u.next = number + 1;
            assert(edit_models(u.buckets@) =~= edit_models(before.buckets@).push(
                (number as int, bucket@),
            ));
            row = end;
        }
        Ok(())
    }
}

/// A header object.
pub fn encode_ism_header(h: &IsmHeader) -> (r: Vec<u8>)
    ensures
        r@ == header_image(*h),
{
    let ghost big = h.big_endian;
    let mut w = writer(h.big_endian);
    let ghost outer = w@;
    w.put_root_object_start("IncrementalStMan", h.version);
    if h.version >= 5 {
        w.put_bool(h.big_endian);
    }
    let ghost inner = w@;
    w.put_u32(h.bucket_size);
    w.put_u32(h.nbucket);
    w.put_u32(h.pers_cache_size);
    let ghost second = w@;
    w.put_u32(h.uniq_nr);
    w.put_u32(h.n_free_bucket);
    w.put_i32(h.first_free_bucket);
    w.put_object_end();
    proof {
        let a1 = aipsio::u32_bytes(big, h.bucket_size);
        let a2 = aipsio::u32_bytes(big, h.nbucket);
        let a3 = aipsio::u32_bytes(big, h.pers_cache_size);
        let b1 = aipsio::u32_bytes(big, h.uniq_nr);
        let b2 = aipsio::u32_bytes(big, h.n_free_bucket);
        let b3 = aipsio::i32_bytes(big, h.first_free_bucket);
        aipsio::lemma_sheet_put3(inner, a1, a2, a3);
        aipsio::lemma_sheet_put3(second, b1, b2, b3);
        aipsio::lemma_sheet_put(inner, a1 + a2 + a3, b1 + b2 + b3);
        let b = header_numbers(*h);
        if h.version >= 5 {
            let f = aipsio::bool_bytes(big);
            aipsio::lemma_sheet_put(outer.start(true, "IncrementalStMan"@, h.version), f, b);
            aipsio::lemma_sheet_object(outer, true, "IncrementalStMan"@, h.version, f + b);
        } else {
            aipsio::lemma_sheet_object(outer, true, "IncrementalStMan"@, h.version, b);
        }
        let all = header_image(*h);
        assert(outer.put(all).body =~= all);
    }
    w.into_bytes()
}

/// An index object with the given row boundaries and bucket numbers.
pub fn encode_ism_index(big_endian: bool, rows: &Vec<u64>, numbers: &Vec<u32>) -> (r: Vec<u8>)
    ensures
        r@ == listed_index(big_endian, narrowed(rows@), numbers@),
{
    let mut narrow: Vec<u32> = Vec::new();
    let mut i: usize = 0;
    while i < rows.len()
        invariant
            i <= rows@.len(),
            narrow@.len() == i,
            forall|k: int| 0 <= k < i ==> #[trigger] narrow@[k] == bytes::low32(rows@[k] as int),
        decreases rows@.len() - i,
    {
        let v: u32 = (rows[i] % 0x1_0000_0000) as u32;
        narrow.push(v);
        i = i + 1;
    }
    assert(narrow@ =~= narrowed(rows@));
    index_image(big_endian, numbers.len() as u64, &narrow, numbers)
}

/// What an update writes.
#[derive(Debug)]
pub struct IsmUpdate {
    /// Whole buckets, each written at its place.
    pub buckets: Vec<BucketEdit>,
    /// The bytes before the first bucket.
    pub header: Vec<u8>,
    /// The index, written behind the last bucket; the file ends with it.
    pub index: Vec<u8>,
    /// The number of buckets.
    pub next: u32,
}

impl View for IsmUpdate {
    type V = UpdateModel;

    open spec fn view(&self) -> UpdateModel {
        UpdateModel {
            buckets: edit_models(self.buckets@),
            header: self.header@,
            index: self.index@,
            next: self.next as int,
        }
    }
}

fn plain_columns(cds: &[ColumnDesc]) -> (r: bool)
    ensures
        r == all_plain(tabledesc::column_models(cds@)),
{
    let ghost models = tabledesc::column_models(cds@);
    let mut c: usize = 0;
    while c < cds.len()
        invariant
            c <= cds@.len(),
            models == tabledesc::column_models(cds@),
            forall|k: int| 0 <= k < c ==> is_plain(#[trigger] models[k]),
        decreases cds@.len() - c,
    {
        assert(models[c as int] == cds@[c as int]@);
        let scalar = match &cds[c].kind {
            ColumnKind::Scalar(_) => true,
            _ => false,
        };
        if matches!(cds[c].data_type, DataType::String) || !scalar {
            return false;
        }
        c = c + 1;
    }
    true
}

fn is_increasing(rows: &Vec<u64>) -> (r: bool)
    ensures
        r == ism::increasing(rows@),
{
    let mut i: usize = 1;
    while i < rows.len()
        invariant
            1 <= i,
            rows@.len() > 0 ==> i <= rows@.len(),
            forall|a: int, b: int|
                0 <= a < b < i && b < rows@.len() ==> #[trigger] rows@[a] < #[trigger] rows@[b],
        decreases rows@.len() - i,
    {
        if rows[i - 1] >= rows[i] {
            assert(!(rows@[i - 1] < rows@[i as int]));
            return false;
        }
        assert forall|a: int, b: int| 0 <= a < b < i + 1 && b < rows@.len() implies
            #[trigger] rows@[a] < #[trigger] rows@[b] by {
            if b == i && a < i - 1 {
                assert(rows@[a] < rows@[i - 1]);
            }
        }
        i = i + 1;
    }
    true
}

fn can_update(f: &IsmFile, old: u64, new: u64) -> (r: bool)
    ensures
        r == updatable(f@, old, new),
{
    let h = f.header();
    let index = f.index();
    let n: usize = index.rows.len();
    if !(h.version == 4 || h.version == 5) || n == 0 || n - 1 != index.bucket_numbers.len() {
        return false;
    }
    index.rows[0] == 0 && index.rows[n - 1] == old && is_increasing(&index.rows) && old <= 0xffff_ffff && new <= 0xffff_ffff
}

/// The cells of unwritten rows.
fn default_cells(big: bool, cds: &[ColumnDesc]) -> (r: Vec<Vec<u8>>)
    requires
        all_plain(tabledesc::column_models(cds@)),
        forall|i: int|
            0 <= i < cds@.len() ==> ((#[trigger] cds@[i])@.kind matches KindModel::Scalar(v)
                ==> !recordout::needs_float_cast(cds@[i]@.data_type, v)),
    ensures
        r@.len() == cds@.len(),
        forall|c: int|
            0 <= c < r@.len() ==> (#[trigger] r@[c])@ == default_cell(big, cds@[c]@) && r@[c]@.len()
                == size_of(cds@[c]@),
{
    let ghost models = tabledesc::column_models(cds@);
    let mut out: Vec<Vec<u8>> = Vec::new();
    let mut c: usize = 0;
    while c < cds.len()
        invariant
            c <= cds@.len(),
            models == tabledesc::column_models(cds@),
            all_plain(models),
            forall|i: int|
                0 <= i < cds@.len() ==> ((#[trigger] cds@[i])@.kind matches KindModel::Scalar(v)
                    ==> !recordout::needs_float_cast(cds@[i]@.data_type, v)),
            out@.len() == c,
            forall|k: int|
                0 <= k < c ==> (#[trigger] out@[k])@ == default_cell(big, cds@[k]@)
                    && out@[k]@.len() == size_of(cds@[k]@),
        decreases cds@.len() - c,
    {
        assert(is_plain(models[c as int]));
        assert(models[c as int] == cds@[c as int]@);
        let cell: Vec<u8> = match &cds[c].kind {
            ColumnKind::Scalar(v) => match encode_scalar_cell(big, &cds[c], v) {
                Ok(b) => b,
                Err(_) => Vec::new(),
            },
            _ => Vec::new(),
        };
        out.push(cell);
        c = c + 1;
    }
    out
}

/// Take an IncrementalStMan data file with the columns `cds` (in the order
/// the manager holds them) from `old` to `new` rows, and write the cells of
/// `pending` (per column, in ascending rows).
///
/// The result says what is to be written; there is none where the layout
/// cannot be updated in place.
pub fn ism_update(
    data: &[u8],
    big_endian: bool,
    cds: &[ColumnDesc],
    old: u64,
    new: u64,
    pending: &Vec<Vec<PendingCell>>,
) -> (r: Result<Option<IsmUpdate>, IsmUpdateError>)
    requires
        forall|i: int|
            0 <= i < cds@.len() ==> ((#[trigger] cds@[i])@.kind matches KindModel::Scalar(v)
                ==> !recordout::needs_float_cast(cds@[i]@.data_type, v)),
    ensures
        match ism_updated(
            data@,
            big_endian,
            tabledesc::column_models(cds@),
            old,
            new,
            pending_columns(pending@),
        ) {
            Ok(Some(m)) => (r matches Ok(Some(x)) && x@ == m),
            Ok(None) => (r matches Ok(None)),
            Err(f) => r is Err && r->Err_0@ == f,
        },
{
    let f = match IsmFile::parse(data, big_endian) {
        Ok(f) => f,
        Err(_) => {
            return Ok(None);
        },
    };
    if !plain_columns(cds) || !can_update(&f, old, new) {
        return Ok(None);
    }
    let h = *f.header();
    let index = f.index();
    let mut u = Progress {
        buckets: Vec::new(),
        rows: index.rows.clone(),
        numbers: index.bucket_numbers.clone(),
        next: h.nbucket,
    };
    assert(u@.buckets =~= Seq::<(int, Seq<u8>)>::empty());
    assert(u@.rows =~= index@.rows);
    assert(u@.numbers =~= index@.bucket_numbers);
    let defaults = default_cells(h.big_endian, cds);
    let work = Work { f, cds, defaults, pending };
    assert(work@.m == f@);
    assert(forall|c: int| 0 <= c < cds@.len() ==> #[trigger] work@.cds[c] == cds@[c]@);
    let cap: u64 = work.capacity();
    if !work.update(new, cap, &mut u)? {
        return Ok(None);
    }
    work.extend(new, cap, &mut u)?;
    let header = encode_ism_header(&IsmHeader { nbucket: u.next, ..h });
    Ok(
        Some(
            IsmUpdate {
                buckets: u.buckets,
                header: resize(header.as_slice(), DATA_START),
                index: encode_ism_index(h.big_endian, &u.rows, &u.numbers),
                next: u.next,
            },
        ),
    )
}

} // verus!
