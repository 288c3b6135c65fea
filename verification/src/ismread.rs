//! Reading an updated IncrementalStMan data file: written cells are read
//! back, other rows are kept, and new rows hold the defaults.
use crate::aipsio;
use crate::aipsio::Cursor;
use crate::bytes;
use crate::celllaw;
use crate::growfile;
use crate::ism;
use crate::ism::{IsmFault, IsmHeader, IsmIndexModel, IsmModel};
use crate::ismgrow;
use crate::ismgrow::{Job, UpdateFault, UpdateModel, Updating};
use crate::ismlaw;
use crate::ismout::IsmCells;
use crate::record::ValueModel;
use crate::recordlaw;
use crate::ssm;
use crate::ssm::DATA_START;
use crate::ssmfile;
use crate::ssmout;
use crate::tabledesc::ColumnModel;
use vstd::prelude::*;

verus! {

/// The cell written last to a row, among those from the `k`-th on.
pub open spec fn written(p: Seq<(u64, Seq<u8>)>, row: u64, k: int) -> Option<Seq<u8>>
    decreases p.len() - k,
{
    if k < 0 || k >= p.len() {
        None
    } else {
        match written(p, row, k + 1) {
            Some(cell) => Some(cell),
            None => if p[k].0 == row {
                Some(p[k].1)
            } else {
                None
            },
        }
    }
}

/// The cell at position `i` in a run of cells.
pub open spec fn cell_in(b: Seq<u8>, i: int, size: int) -> Seq<u8> {
    b.subrange(i * size, i * size + size)
}

proof fn lemma_ranges(n: int, size: int, i: int, j: int)
    requires
        0 <= i < n,
        0 <= j < n,
        0 <= size,
    ensures
        0 <= i * size,
        i * size + size <= n * size,
        i < j ==> i * size + size <= j * size,
        j < i ==> j * size + size <= i * size,
{
    assert(0 <= i * size && i * size + size <= n * size && (i < j ==> i * size + size <= j * size)
        && (j < i ==> j * size + size <= i * size)) by (nonlinear_arith)
        requires
            0 <= i < n,
            0 <= j < n,
            0 <= size,
    ;
}

#[verifier::rlimit(40)]
proof fn lemma_overlaid(
    buf: Seq<u8>,
    p: Seq<(u64, Seq<u8>)>,
    start: int,
    end: int,
    size: u32,
    k: int,
    row: u64,
)
    requires
        0 <= k <= p.len(),
        start <= row < end,
        0 <= start,
        buf.len() == (end - start) * size,
        ismgrow::overlaid(buf, p, start, end, size, k) is Ok,
    ensures
        ({
            let b = ismgrow::overlaid(buf, p, start, end, size, k)->Ok_0;
            &&& b.len() == buf.len()
            &&& cell_in(b, row - start, size as int) == match written(p, row, k) {
                Some(cell) => cell,
                None => cell_in(buf, row - start, size as int),
            }
        }),
    decreases p.len() - k,
{
    if k < p.len() {
        if p[k].0 < start || p[k].0 >= end {
            lemma_overlaid(buf, p, start, end, size, k + 1, row);
        } else {
            let at = (p[k].0 - start) * size;
            let next = ssmfile::overlay(buf, at, p[k].1);
            lemma_overlaid(next, p, start, end, size, k + 1, row);
            lemma_ranges(end - start, size as int, row - start, p[k].0 - start);
            if p[k].0 == row {
                assert(cell_in(next, row - start, size as int) =~= p[k].1);
            } else {
                assert(cell_in(next, row - start, size as int) =~= cell_in(
                    buf,
                    row - start,
                    size as int,
                ));
            }
        }
    }
}

#[verifier::rlimit(40)]
proof fn lemma_disk_cells(
    m: IsmModel,
    c: int,
    size: u32,
    start: int,
    n: nat,
    acc: Seq<u8>,
    done: int,
    row: int,
)
    requires
        0 <= done,
        0 <= start,
        start + n <= u64::MAX,
        acc.len() == done * size,
        size <= 32,
        ismgrow::disk_cells(m, c, size, start, n, acc) is Ok,
    ensures
        ({
            let b = ismgrow::disk_cells(m, c, size, start, n, acc)->Ok_0;
            &&& b.len() == (done + n) * size
            &&& acc.is_prefix_of(b)
            &&& start <= row < start + n ==> m.cell(c, row as u64) is Ok && cell_in(
                b,
                done + (row - start),
                size as int,
            ) == m.cell(c, row as u64)->Ok_0.subrange(0, size as int)
        }),
    decreases n,
{
    if n == 0 {
        assert(acc.take(acc.len() as int) =~= acc);
    } else {
        let cell = m.cell(c, start as u64)->Ok_0;
        let part = cell.subrange(0, size as int);
        let next = acc + part;
        assert((done + 1) * size == done * size + size) by (nonlinear_arith);
        lemma_cell_len(m, c, start as u64);
        lemma_disk_cells(m, c, size, start + 1, (n - 1) as nat, next, done + 1, row);
        let b = ismgrow::disk_cells(m, c, size, start, n, acc)->Ok_0;
        assert(acc.is_prefix_of(b)) by {
            assert(b.take(next.len() as int).take(acc.len() as int) =~= b.take(
                acc.len() as int,
            ));
            assert(next.take(acc.len() as int) =~= acc);
        }
        if row == start {
            lemma_ranges(done + n as int, size as int, done, done);
            assert(cell_in(b, done, size as int) =~= part) by {
                assert(cell_in(b, done, size as int) =~= b.take(next.len() as int).subrange(
                    acc.len() as int,
                    next.len() as int,
                ));
            }
        }
    }
}

#[verifier::rlimit(40)]
proof fn lemma_repeated(acc: Seq<u8>, cell: Seq<u8>, n: nat, done: int, i: int)
    requires
        0 <= done,
        acc.len() == done * cell.len(),
    ensures
        ({
            let b = ismgrow::repeated(acc, cell, n);
            &&& b.len() == (done + n) * cell.len()
            &&& acc.is_prefix_of(b)
            &&& done <= i < done + n ==> cell_in(b, i, cell.len() as int) == cell
        }),
    decreases n,
{
    let size = cell.len() as int;
    if n == 0 {
        assert(acc.take(acc.len() as int) =~= acc);
    } else {
        let m = (n - 1) as nat;
        let before = ismgrow::repeated(acc, cell, m);
        let b = before + cell;
        lemma_repeated(acc, cell, m, done, i);
        assert((done + n) * size == (done + m) * size + size) by (nonlinear_arith)
            requires
                n == m + 1,
        ;
        assert(acc.is_prefix_of(b)) by {
            assert(before.take(acc.len() as int) =~= b.take(acc.len() as int));
        }
        if done <= i < done + n {
            lemma_ranges(done + n as int, size, i, done + m as int);
            if i < done + m {
                assert(cell_in(b, i, size) =~= cell_in(before, i, size));
            } else {
                assert(cell_in(b, i, size) =~= cell);
            }
        }
    }
}

proof fn lemma_cell_len(m: IsmModel, c: int, row: u64)
    ensures
        m.cell(c, row) matches Ok(b) ==> b.len() == 32,
{
}

/// The cell of a row before anything is written to it: that of the file, or
/// the column's default.
pub open spec fn cell_before(job: Job, c: int, disk_end: int, row: u64) -> Seq<u8> {
    if row < disk_end {
        match job.m.cell(c, row) {
            Ok(b) => b.subrange(0, ismgrow::size_of(job.cds[c]) as int),
            Err(_) => Seq::empty(),
        }
    } else {
        ismgrow::default_cell(job.m.header.big_endian, job.cds[c])
    }
}

/// The cell of a row after the update.
pub open spec fn cell_after(job: Job, c: int, disk_end: int, row: u64) -> Seq<u8> {
    match written(ismgrow::written_to(job.pending, c), row, 0) {
        Some(cell) => cell,
        None => cell_before(job, c, disk_end, row),
    }
}

proof fn lemma_default_len(big: bool, cd: ColumnModel)
    requires
        ismgrow::is_plain(cd),
    ensures
        ismgrow::default_cell(big, cd).len() == ismgrow::size_of(cd),
        ismgrow::size_of(cd) <= 16,
{
    let v = cd.kind->Scalar_0;
    crate::ssmout::lemma_scalar_cell_len(big, cd.data_type, cd.max_length, v);
}

#[verifier::rlimit(40)]
proof fn lemma_column(job: Job, c: int, start: int, disk_end: int, end: int, row: u64)
    requires
        0 <= c < job.cds.len(),
        ismgrow::is_plain(job.cds[c]),
        0 <= start <= disk_end <= end <= u64::MAX,
        start <= row < end,
        job.column(c, start, disk_end, end) is Ok,
    ensures
        ({
            let b = job.column(c, start, disk_end, end)->Ok_0;
            let size = ismgrow::size_of(job.cds[c]) as int;
            &&& b.len() == (end - start) * size
            &&& cell_in(b, row - start, size) == cell_after(job, c, disk_end, row)
            &&& row < disk_end ==> job.m.cell(c, row) is Ok
        }),
{
    let size = ismgrow::size_of(job.cds[c]);
    let big = job.m.header.big_endian;
    let def = ismgrow::default_cell(big, job.cds[c]);
    let d = ismgrow::disk_cells(
        job.m,
        c,
        size,
        start,
        (disk_end - start) as nat,
        Seq::empty(),
    )->Ok_0;
    let buf = ismgrow::repeated(d, def, (end - disk_end) as nat);
    lemma_default_len(big, job.cds[c]);
    assert(0 * size == 0);
    lemma_disk_cells(
        job.m,
        c,
        size,
        start,
        (disk_end - start) as nat,
        Seq::empty(),
        0,
        row as int,
    );
    lemma_repeated(d, def, (end - disk_end) as nat, disk_end - start, row - start);
    lemma_overlaid(
        buf,
        ismgrow::written_to(job.pending, c),
        start,
        end,
        size,
        0,
        row,
    );
    if row < disk_end {
        lemma_ranges(disk_end - start, size as int, row - start, row - start);
        assert(cell_in(buf, row - start, size as int) =~= cell_in(d, row - start, size as int)) by {
            assert(buf.take(d.len() as int) == d);
            assert(cell_in(buf.take(d.len() as int), row - start, size as int) =~= cell_in(
                buf,
                row - start,
                size as int,
            ));
        }
    }
}

proof fn lemma_gathered(
    job: Job,
    start: int,
    disk_end: int,
    end: int,
    k: int,
    acc: Seq<IsmCells>,
    c: int,
)
    requires
        0 <= k <= job.cds.len(),
        acc.len() == k,
        job.gathered(start, disk_end, end, k, acc) is Ok,
    ensures
        ({
            let cells = job.gathered(start, disk_end, end, k, acc)->Ok_0;
            &&& cells.len() == job.cds.len()
            &&& 0 <= c < k ==> cells[c] == acc[c]
            &&& k <= c < job.cds.len() ==> job.column(c, start, disk_end, end) is Ok && cells[c]
                == (IsmCells {
                cell_size: ismgrow::size_of(job.cds[c]),
                bytes: job.column(c, start, disk_end, end)->Ok_0,
            })
        }),
    decreases job.cds.len() - k,
{
    if k < job.cds.len() {
        let b = job.column(k, start, disk_end, end)->Ok_0;
        let next = acc.push(
            IsmCells { cell_size: ismgrow::size_of(job.cds[k]), bytes: b },
        );
        lemma_gathered(job, start, disk_end, end, k + 1, next, c);
    }
}

/// A row of an encoded bucket is read back.
#[verifier::rlimit(40)]
proof fn lemma_bucket_read(
    job: Job,
    start: int,
    disk_end: int,
    end: int,
    b: Seq<u8>,
    c: int,
    row: u64,
)
    requires
        ismgrow::all_plain(job.cds),
        0 <= c < job.cds.len(),
        0 <= start <= disk_end <= end <= u32::MAX,
        start <= row < end,
        84 <= job.m.header.bucket_size <= 0x0fff_ffff,
        job.bucket(start, disk_end, end) == Ok::<Option<Seq<u8>>, UpdateFault>(Some(b)),
    ensures
        b.len() == job.m.header.bucket_size,
        row < disk_end ==> job.m.cell(c, row) is Ok,
        ism::column_entries(b, c as nat, job.m.header.big_endian) matches Some((rows, offsets))
            && ism::interval(rows, (row - start) as u64) matches Some(i) && {
            &&& 4 + offsets[i] + 32 <= b.len()
            &&& b.subrange(4 + offsets[i], 4 + offsets[i] + 32).subrange(
                0,
                ismgrow::size_of(job.cds[c]) as int,
            ) == cell_after(job, c, disk_end, row)
        },
{
    let big = job.m.header.big_endian;
    let cells = job.gathered(start, disk_end, end, 0, Seq::empty())->Ok_0;
    let n = (end - start) as u64;
    let size = ismgrow::size_of(job.cds[c]) as int;
    assert forall|k: int| 0 <= k < cells.len() implies n * (#[trigger] cells[k]).cell_size
        <= cells[k].bytes.len() && cells[k].cell_size <= 16 by {
        lemma_gathered(job, start, disk_end, end, 0, Seq::empty(), k);
        lemma_gathered(job, start, disk_end, end, 0, Seq::empty(), 0);
        assert(ismgrow::is_plain(job.cds[k]));
        lemma_column(job, k, start, disk_end, end, row);
        lemma_default_len(big, job.cds[k]);
    }
    lemma_gathered(job, start, disk_end, end, 0, Seq::empty(), c);
    assert(ismgrow::is_plain(job.cds[c]));
    lemma_column(job, c, start, disk_end, end, row);
    lemma_default_len(big, job.cds[c]);
    ismlaw::lemma_bucket_cell(
        big,
        job.m.header.bucket_size as int,
        cells,
        n,
        0,
        n as nat,
        c,
        (row - start) as u64,
    );
    let (rows, offsets) = ism::column_entries(b, c as nat, big)->0;
    let i = ism::interval(rows, (row - start) as u64)->0;
    let at = 4 + offsets[i];
    assert(b.subrange(at, at + 32).subrange(0, size) =~= b.subrange(at, at + size));
    assert(cells[c].cell(row - start) == cell_in(cells[c].bytes, row - start, size));
}

/// The end of the rows of bucket `k` that are in the file.
spec fn disk_end(job: Job, u: Updating, k: int) -> int {
    if k < job.used() {
        job.rows()[k + 1] as int
    } else {
        u.rows[k] as int
    }
}

/// The edit `e` is the encoded bucket `k`.
spec fn encodes(job: Job, u: Updating, k: int, e: int) -> bool {
    &&& 0 <= e < u.buckets.len()
    &&& u.buckets[e].0 == u.numbers[k]
    &&& job.bucket(u.rows[k] as int, disk_end(job, u, k), u.rows[k + 1] as int) == Ok::<
        Option<Seq<u8>>,
        UpdateFault,
    >(Some(u.buckets[e].1))
}

/// Bucket `k` is not written, and neither is any of its rows.
spec fn untouched(job: Job, u: Updating, k: int) -> bool {
    &&& k < job.used()
    &&& u.rows[k + 1] == job.rows()[k + 1]
    &&& forall|c: int|
        0 <= c < job.pending.len() ==> !ismgrow::touches(
            #[trigger] job.pending[c],
            job.rows()[k],
            job.rows()[k + 1],
        )
    &&& forall|e: int| 0 <= e < u.buckets.len() ==> (#[trigger] u.buckets[e]).0 != u.numbers[k]
}

/// Bucket `k` is encoded or untouched.
#[verifier::opaque]
spec fn settled(job: Job, u: Updating, k: int) -> bool {
    ||| untouched(job, u, k)
    ||| exists|e: int| encodes(job, u, k, e)
}

/// The edits have different numbers and the right size.
#[verifier::opaque]
spec fn edits_fit(job: Job, u: Updating) -> bool {
    &&& growfile::distinct(u.buckets)
    &&& growfile::sized(u.buckets, job.m.header.bucket_size)
}

/// The numbers of the edits are those of the first `i` buckets.
#[verifier::opaque]
spec fn edits_among(u: Updating, i: int) -> bool {
    forall|e: int| 0 <= e < u.buckets.len() ==> #[trigger] numbered(u, i, e)
}

/// The number of an edit is that of one of the first `i` buckets.
spec fn numbered(u: Updating, i: int, e: int) -> bool {
    exists|j: int| 0 <= j < i && u.buckets[e].0 == #[trigger] u.numbers[j]
}

/// The buckets of a file are all different and all in the file.
pub open spec fn tidy(m: IsmModel) -> bool {
    &&& forall|i: int, j: int|
        0 <= i < j < m.index.bucket_numbers.len() ==> #[trigger] m.index.bucket_numbers[i]
            != #[trigger] m.index.bucket_numbers[j]
    &&& forall|i: int|
        0 <= i < m.index.bucket_numbers.len() ==> #[trigger] m.index.bucket_numbers[i]
            < m.header.nbucket
    &&& DATA_START + m.header.nbucket * m.header.bucket_size <= m.data.len()
}

/// The state once the first `i` buckets are updated.
spec fn updating(job: Job, new: u64, u: Updating, i: int) -> bool {
    let used = job.used();
    &&& u.numbers == job.m.index.bucket_numbers
    &&& u.next == job.m.header.nbucket
    &&& u.rows.len() == used + 1
    &&& forall|k: int| 0 <= k < used ==> #[trigger] u.rows[k] == job.rows()[k]
    &&& u.rows[used] == if i == used && used > 0 {
        job.end_of(new, used - 1)
    } else {
        job.rows()[used] as int
    }
    &&& forall|k: int| 0 <= k < i ==> #[trigger] settled(job, u, k)
    &&& edits_among(u, i)
    &&& edits_fit(job, u)
}

proof fn lemma_bucket_len(job: Job, start: int, disk_end: int, end: int, b: Seq<u8>)
    requires
        job.bucket(start, disk_end, end) == Ok::<Option<Seq<u8>>, UpdateFault>(Some(b)),
    ensures
        b.len() == job.m.header.bucket_size,
{
}

/// Pushing an edit with a new number.
#[verifier::rlimit(40)]
proof fn lemma_edit_pushed(job: Job, u: Updating, v: Updating, i: int, number: u32, b: Seq<u8>)
    requires
        edits_among(u, i),
        edits_fit(job, u),
        0 <= i,
        v.buckets == u.buckets.push((number as int, b)),
        b.len() == job.m.header.bucket_size,
        forall|j: int| 0 <= j < i ==> #[trigger] v.numbers[j] == u.numbers[j] && v.numbers[j]
            != number,
        v.numbers[i] == number,
    ensures
        edits_among(v, i + 1),
        edits_fit(job, v),
{
    reveal(edits_among);
    reveal(edits_fit);
    let n = u.buckets.len() as int;
    assert forall|e: int| 0 <= e < v.buckets.len() implies #[trigger] numbered(
        v,
        i + 1,
        e,
    ) by {
        if e < n {
            assert(numbered(u, i, e));
            let j = choose|j: int| 0 <= j < i && u.buckets[e].0 == #[trigger] u.numbers[j];
            assert(v.buckets[e].0 == v.numbers[j]);
        } else {
            assert(v.buckets[e].0 == v.numbers[i]);
        }
    }
    assert forall|a: int, e: int| 0 <= a < e < v.buckets.len() implies (#[trigger] v.buckets[a]).0
        != (#[trigger] v.buckets[e]).0 by {
        if e == n {
            assert(numbered(u, i, a));
            let j = choose|j: int| 0 <= j < i && u.buckets[a].0 == #[trigger] u.numbers[j];
            assert(v.numbers[j] != number);
            assert(v.buckets[a] == u.buckets[a]);
        } else {
            assert(u.buckets[a].0 != u.buckets[e].0);
        }
    }
    assert forall|e: int| 0 <= e < v.buckets.len() implies 0 <= (#[trigger] v.buckets[e]).0
        <= u32::MAX && v.buckets[e].1.len() == job.m.header.bucket_size by {
        if e < n {
            assert(v.buckets[e] == u.buckets[e]);
        }
    }
}

/// A settled bucket stays so when an edit with another number is pushed.
proof fn lemma_settled_on(job: Job, u: Updating, v: Updating, k: int, number: u32, b: Seq<u8>)
    requires
        settled(job, u, k),
        v.buckets == u.buckets.push((number as int, b)),
        u.numbers[k] != number,
        v.numbers[k] == u.numbers[k],
        v.rows[k] == u.rows[k],
        v.rows[k + 1] == u.rows[k + 1],
    ensures
        settled(job, v, k),
{
    reveal(settled);
    if untouched(job, u, k) {
        assert forall|e: int| 0 <= e < v.buckets.len() implies (#[trigger] v.buckets[e]).0
            != v.numbers[k] by {
            if e < u.buckets.len() {
                assert(v.buckets[e] == u.buckets[e]);
            }
        }
        assert(untouched(job, v, k));
    } else {
        let e = choose|e: int| encodes(job, u, k, e);
        assert(v.buckets[e] == u.buckets[e]);
        assert(encodes(job, v, k, e));
    }
}

proof fn lemma_not_written(job: Job, u: Updating, i: int)
    requires
        tidy(job.m),
        u.numbers == job.m.index.bucket_numbers,
        edits_among(u, i),
        0 <= i < job.used(),
    ensures
        forall|e: int| 0 <= e < u.buckets.len() ==> (#[trigger] u.buckets[e]).0 != u.numbers[i],
        edits_among(u, i + 1),
{
    reveal(edits_among);
    assert forall|e: int| 0 <= e < u.buckets.len() implies (#[trigger] u.buckets[e]).0
        != u.numbers[i] by {
        assert(numbered(u, i, e));
        let j = choose|j: int| 0 <= j < i && u.buckets[e].0 == #[trigger] u.numbers[j];
        assert(job.m.index.bucket_numbers[j] != job.m.index.bucket_numbers[i]);
    }
    assert forall|e: int| 0 <= e < u.buckets.len() implies #[trigger] numbered(
        u,
        i + 1,
        e,
    ) by {
        assert(numbered(u, i, e));
        let j = choose|j: int| 0 <= j < i && u.buckets[e].0 == #[trigger] u.numbers[j];
        assert(u.buckets[e].0 == u.numbers[j]);
    }
}

/// One bucket is passed over.
proof fn lemma_skipped(job: Job, new: u64, u: Updating, i: int)
    requires
        tidy(job.m),
        updating(job, new, u, i),
        0 <= i < job.used(),
        !job.affected(new, i),
    ensures
        updating(job, new, u, i + 1),
{
    lemma_not_written(job, u, i);
    assert(settled(job, u, i)) by {
        reveal(settled);
        assert(untouched(job, u, i));
    }
}

/// One bucket is encoded.
#[verifier::rlimit(40)]
proof fn lemma_encoded(job: Job, new: u64, u: Updating, v: Updating, i: int, b: Seq<u8>)
    requires
        tidy(job.m),
        updating(job, new, u, i),
        0 <= i < job.used(),
        0 <= job.end_of(new, i) <= u64::MAX,
        job.bucket(
            job.rows()[i] as int,
            job.rows()[i + 1] as int,
            job.end_of(new, i),
        ) == Ok::<Option<Seq<u8>>, UpdateFault>(Some(b)),
        v == (Updating {
            buckets: u.buckets.push((job.m.index.bucket_numbers[i] as int, b)),
            rows: u.rows.update(i + 1, job.end_of(new, i) as u64),
            ..u
        }),
    ensures
        updating(job, new, v, i + 1),
{
    let number = job.m.index.bucket_numbers[i];
    lemma_bucket_len(
        job,
        job.rows()[i] as int,
        job.rows()[i + 1] as int,
        job.end_of(new, i),
        b,
    );
    assert forall|j: int| 0 <= j < i implies #[trigger] v.numbers[j] == u.numbers[j]
        && v.numbers[j] != number by {
        assert(job.m.index.bucket_numbers[j] != job.m.index.bucket_numbers[i]);
    }
    lemma_edit_pushed(job, u, v, i, number, b);
    assert forall|k: int| 0 <= k < i + 1 implies #[trigger] settled(job, v, k) by {
        if k < i {
            assert(settled(job, u, k));
            assert(v.numbers[k] != number);
            lemma_settled_on(job, u, v, k, number, b);
        } else {
            reveal(settled);
            assert(encodes(job, v, i, u.buckets.len() as int));
        }
    }
}

proof fn lemma_updated(job: Job, old: u64, new: u64, i: int, u: Updating)
    requires
        tidy(job.m),
        ismgrow::updatable(job.m, old, new),
        updating(job, new, u, i),
        0 <= i <= job.used(),
        job.cap() >= 1,
        job.updated(new, i, u) matches Ok(Some(_)),
    ensures
        job.updated(new, i, u) matches Ok(Some(v)) && updating(job, new, v, job.used()),
    decreases job.used() - i,
{
    if i < job.used() {
        if !job.affected(new, i) {
            lemma_skipped(job, new, u, i);
            lemma_updated(job, old, new, i + 1, u);
        } else {
            let end = job.end_of(new, i);
            let b = job.bucket(job.rows()[i] as int, job.rows()[i + 1] as int, end)->Ok_0->0;
            let v = Updating {
                buckets: u.buckets.push((job.m.index.bucket_numbers[i] as int, b)),
                rows: u.rows.update(i + 1, end as u64),
                ..u
            };
            lemma_encoded(job, new, u, v, i, b);
            lemma_updated(job, old, new, i + 1, v);
        }
    }
}

/// The state while new buckets are added.
spec fn extending(job: Job, old: u64, new: u64, u: Updating) -> bool {
    let used = job.used();
    &&& u.rows.len() == u.numbers.len() + 1
    &&& used <= u.numbers.len()
    &&& u.next == job.m.header.nbucket + (u.numbers.len() - used)
    &&& u.next <= u32::MAX
    &&& forall|k: int| 0 <= k < used ==> #[trigger] u.numbers[k] == job.m.index.bucket_numbers[k]
    &&& forall|k: int|
        used <= k < u.numbers.len() ==> #[trigger] u.numbers[k] == job.m.header.nbucket + (k
            - used)
    &&& ism::increasing(u.rows)
    &&& u.rows[0] == 0
    &&& forall|k: int| 0 <= k < used ==> #[trigger] u.rows[k] == job.rows()[k]
    &&& old <= u.rows[used]
    &&& u.rows.last() <= new || u.rows.last() == old
    &&& forall|k: int| 0 <= k < u.numbers.len() ==> #[trigger] settled(job, u, k)
    &&& edits_among(u, u.numbers.len() as int)
    &&& edits_fit(job, u)
}

proof fn lemma_extending_start(job: Job, old: u64, new: u64, u: Updating)
    requires
        tidy(job.m),
        ismgrow::updatable(job.m, old, new),
        updating(job, new, u, job.used()),
        job.cap() >= 1,
    ensures
        extending(job, old, new, u),
{
    let used = job.used();
    let rows = job.rows();
    if used > 0 {
        assert(rows[used - 1] < rows[used]);
        assert(job.end_of(new, used - 1) >= old);
    }
    assert forall|a: int, b: int| 0 <= a < b < u.rows.len() implies #[trigger] u.rows[a]
        < #[trigger] u.rows[b] by {
        assert(rows[a] < rows[b]);
    }
}

/// One new bucket.
#[verifier::rlimit(40)]
proof fn lemma_appended(job: Job, old: u64, new: u64, u: Updating, v: Updating, end: int, b: Seq<u8>)
    requires
        tidy(job.m),
        extending(job, old, new, u),
        u.rows.last() < end <= new,
        u.next < u32::MAX,
        job.bucket(u.rows.last() as int, u.rows.last() as int, end) == Ok::<
            Option<Seq<u8>>,
            UpdateFault,
        >(Some(b)),
        v == (Updating {
            buckets: u.buckets.push((u.next, b)),
            rows: u.rows.push(end as u64),
            numbers: u.numbers.push(bytes::low32(u.next)),
            next: u.next + 1,
        }),
    ensures
        extending(job, old, new, v),
{
    let n = u.numbers.len() as int;
    let number = bytes::low32(u.next);
    let used = job.used();
    lemma_bucket_len(job, u.rows.last() as int, u.rows.last() as int, end, b);
    assert forall|j: int| 0 <= j < n implies #[trigger] v.numbers[j] == u.numbers[j]
        && v.numbers[j] != number by {
        assert(v.numbers[j] == u.numbers[j]);
        if j < used {
            assert(job.m.index.bucket_numbers[j] < job.m.header.nbucket);
        }
    }
    lemma_edit_pushed(job, u, v, n, number, b);
    assert forall|k: int| 0 <= k < n + 1 implies #[trigger] settled(job, v, k) by {
        if k < n {
            assert(settled(job, u, k));
            assert(v.numbers[k] != number);
            lemma_settled_on(job, u, v, k, number, b);
        } else {
            reveal(settled);
            assert(encodes(job, v, n, u.buckets.len() as int));
        }
    }
    assert forall|i: int, j: int| 0 <= i < j < v.rows.len() implies #[trigger] v.rows[i]
        < #[trigger] v.rows[j] by {
        if j == n + 1 {
            if i < n {
                assert(u.rows[i] < u.rows[n]);
            }
        } else {
            assert(u.rows[i] < u.rows[j]);
        }
    }
}

proof fn lemma_extended(job: Job, old: u64, new: u64, u: Updating)
    requires
        tidy(job.m),
        extending(job, old, new, u),
        old <= new,
        job.cap() >= 1,
        job.extended(new, u) is Ok,
    ensures
        ({
            let v = job.extended(new, u)->Ok_0;
            extending(job, old, new, v) && v.rows.last() == new
        }),
    decreases new - u.rows.last(),
{
    let row = u.rows.last();
    if row < new {
        let end = ssm::min(row + job.cap(), new as int);
        let b = job.bucket(row as int, row as int, end)->Ok_0->0;
        let v = Updating {
            buckets: u.buckets.push((u.next, b)),
            rows: u.rows.push(end as u64),
            numbers: u.numbers.push(bytes::low32(u.next)),
            next: u.next + 1,
        };
        lemma_appended(job, old, new, u, v, end, b);
        lemma_extended(job, old, new, v);
    }
}

#[verifier::rlimit(40)]
proof fn lemma_numbers(c: Cursor, h: IsmHeader)
    requires
        0 <= c.pos,
        c.big == h.big_endian,
        c.holds(ismgrow::header_numbers(h)),
    ensures
        ismgrow::header_numbers(h).len() == 24,
        ism::numbers_at(c, h.version) matches Ok((r, _)) && r == h,
{
    reveal(ism::numbers_at);
    let big = c.big;
    let a1 = aipsio::u32_bytes(big, h.bucket_size);
    let a2 = aipsio::u32_bytes(big, h.nbucket);
    let a3 = aipsio::u32_bytes(big, h.pers_cache_size);
    let b1 = aipsio::u32_bytes(big, h.uniq_nr);
    let b2 = aipsio::u32_bytes(big, h.n_free_bucket);
    let b3 = aipsio::i32_bytes(big, h.first_free_bucket);
    bytes::lemma_uint_bytes_len(big, h.bucket_size as nat, 4);
    bytes::lemma_uint_bytes_len(big, h.nbucket as nat, 4);
    bytes::lemma_uint_bytes_len(big, h.pers_cache_size as nat, 4);
    bytes::lemma_uint_bytes_len(big, h.uniq_nr as nat, 4);
    bytes::lemma_uint_bytes_len(big, h.n_free_bucket as nat, 4);
    bytes::lemma_uint_bytes_len(big, bytes::pattern32(h.first_free_bucket) as nat, 4);
    aipsio::lemma_holds_concat(c, a1 + a2 + a3, b1 + b2 + b3);
    aipsio::lemma_holds_concat(c, a1 + a2, a3);
    aipsio::lemma_holds_concat(c, a1, a2);
    let d = c.skip(12);
    aipsio::lemma_holds_concat(d, b1 + b2, b3);
    aipsio::lemma_holds_concat(d, b1, b2);
    aipsio::law_u32_round_trip(c, h.bucket_size);
    aipsio::law_u32_round_trip(c.skip(4), h.nbucket);
    aipsio::law_u32_round_trip(c.skip(8), h.pers_cache_size);
    aipsio::law_u32_round_trip(d, h.uniq_nr);
    aipsio::law_u32_round_trip(d.skip(4), h.n_free_bucket);
    aipsio::law_i32_round_trip(d.skip(8), h.first_free_bucket);
    assert(c.skip(4).skip(4) == c.skip(8));
    assert(c.skip(8).skip(4) == d);
    assert(d.skip(4).skip(4) == d.skip(8));
}

proof fn lemma_image_len(h: IsmHeader)
    ensures
        ismgrow::header_image(h).len() <= 100,
{
    let big = h.big_endian;
    let c = Cursor { data: ismgrow::header_numbers(h), big, pos: 0 };
    assert(c.data.subrange(0, c.data.len() as int) =~= c.data);
    lemma_numbers(c, h);
    reveal_strlit("IncrementalStMan");
    vstd::utf8::is_ascii_chars_encode_utf8("IncrementalStMan"@);
    let len = if h.version >= 5 {
        25int
    } else {
        24int
    };
    bytes::lemma_uint_bytes_len(big, aipsio::MAGIC as nat, 4);
    bytes::lemma_uint_bytes_len(big, h.version as nat, 4);
    bytes::lemma_uint_bytes_len(big, bytes::low32(16) as nat, 4);
    bytes::lemma_uint_bytes_len(big, bytes::low32(12 + 16 + len) as nat, 4);
}

/// A header is read back from a file that begins with it.
#[verifier::rlimit(40)]
proof fn lemma_header_read(file: Seq<u8>, h: IsmHeader)
    requires
        h.version == 4 || h.version == 5,
        file.len() >= DATA_START,
        file.subrange(0, DATA_START as int) == bytes::resized(
            ismgrow::header_image(h),
            DATA_START as nat,
        ),
    ensures
        ism::header_of(file, h.big_endian) == Ok::<IsmHeader, IsmFault>(h),
{
    let big = h.big_endian;
    let image = ismgrow::header_image(h);
    let c = Cursor { data: file, big, pos: 0 };
    lemma_image_len(h);
    assert(file.subrange(0, image.len() as int) =~= image) by {
        assert forall|i: int| 0 <= i < image.len() implies file[i] == image[i] by {
            assert(file[i] == file.subrange(0, DATA_START as int)[i]);
        }
    }
    assert(c.holds(image));
    reveal_strlit("IncrementalStMan");
    vstd::utf8::is_ascii_chars_encode_utf8("IncrementalStMan"@);
    let b = ismgrow::header_numbers(h);
    if h.version == 5 {
        let f = aipsio::bool_bytes(big);
        aipsio::law_object_round_trip(c, true, "IncrementalStMan"@, h.version, f + b);
        let (head, d) = c.object_start(true)->Ok_0;
        aipsio::lemma_holds_concat(d, f, b);
        aipsio::law_bool_round_trip(d, big);
        lemma_numbers(d.skip(1), h);
    } else {
        aipsio::law_object_round_trip(c, true, "IncrementalStMan"@, h.version, b);
        let (head, d) = c.object_start(true)->Ok_0;
        lemma_numbers(d, h);
    }
}

proof fn lemma_before_end(size: u32, j: u32, next: int)
    requires
        0 <= j < next,
    ensures
        0 <= j * size,
        j * size + size <= next * size,
{
    assert(0 <= j * size && j * size + size <= next * size) by (nonlinear_arith)
        requires
            0 <= j < next,
            0 <= size,
    ;
}

/// The parts of an updated file.
proof fn lemma_file_parts(data: Seq<u8>, size: u32, um: UpdateModel, j: u32)
    requires
        um.header.len() == DATA_START,
        0 <= um.next <= u32::MAX,
    ensures
        ({
            let file = growfile::updated_file(data, size, um);
            let f = growfile::with_buckets(data, size, um.buckets, um.buckets.len());
            let at = DATA_START + um.next * size;
            &&& file.len() >= DATA_START
            &&& file.subrange(0, DATA_START as int) == um.header
            &&& at <= file.len()
            &&& file.subrange(at, file.len() as int) == um.index
            &&& j < um.next && ssm::bucket_of(f, size, j) is Some ==> ssm::bucket_of(file, size, j)
                == ssm::bucket_of(f, size, j)
        }),
{
    let file = growfile::updated_file(data, size, um);
    let f = growfile::with_buckets(data, size, um.buckets, um.buckets.len());
    let at = DATA_START + um.next * size;
    ssm::lemma_u32_product(um.next as u32, size);
    let g = bytes::resized(f, at as nat) + um.index;
    growfile::law_header_placed(g, size, um.header, j);
    assert(file.subrange(at, file.len() as int) =~= um.index);
    if j < um.next && ssm::bucket_of(f, size, j) is Some {
        lemma_before_end(size, j, um.next);
        let x = ssm::bucket_start(size, j);
        assert(g.subrange(x, x + size) =~= f.subrange(x, x + size));
    }
}

/// What reading an updated file gives.
pub open spec fn updated_model(file: Seq<u8>, h: IsmHeader, u: Updating) -> IsmModel {
    IsmModel {
        header: IsmHeader { nbucket: u.next as u32, ..h },
        index: IsmIndexModel { rows: u.rows, bucket_numbers: u.numbers },
        data: file,
    }
}

#[verifier::spinoff_prover]
#[verifier::rlimit(60)]
proof fn lemma_parsed(job: Job, u: Updating, um: UpdateModel)
    requires
        job.m.header.version == 4 || job.m.header.version == 5,
        um == ismgrow::finished(job.m.header, u),
        0 <= u.next <= u32::MAX,
        u.rows.len() <= u32::MAX,
        u.numbers.len() <= u32::MAX,
        forall|k: int| 0 <= k < u.rows.len() ==> #[trigger] u.rows[k] <= u32::MAX,
    ensures
        ({
            let file = growfile::updated_file(job.m.data, job.m.header.bucket_size, um);
            ism::parsed(file, job.m.header.big_endian) == Ok::<IsmModel, IsmFault>(
                updated_model(file, job.m.header, u),
            )
        }),
{
    let h = IsmHeader { nbucket: u.next as u32, ..job.m.header };
    let big = h.big_endian;
    let file = growfile::updated_file(job.m.data, h.bucket_size, um);
    lemma_file_parts(job.m.data, h.bucket_size, um, 0);
    lemma_header_read(file, h);
    lemma_index_read(big, u.rows, u.numbers, um.index);
    lemma_assembled(file, h, um.index, IsmIndexModel { rows: u.rows, bucket_numbers: u.numbers });
}

#[verifier::spinoff_prover]
#[verifier::rlimit(60)]
proof fn lemma_index_read(big: bool, rows: Seq<u64>, numbers: Seq<u32>, index: Seq<u8>)
    requires
        rows.len() <= u32::MAX,
        numbers.len() <= u32::MAX,
        forall|k: int| 0 <= k < rows.len() ==> #[trigger] rows[k] <= u32::MAX,
        index == ismgrow::listed_index(big, ismgrow::narrowed(rows), numbers),
    ensures
        ism::index_at(Cursor { data: index, big, pos: 0 }) matches Ok((m, _)) && m == (
        IsmIndexModel { rows, bucket_numbers: numbers }),
{
    lemma_listed_read(big, ismgrow::narrowed(rows), numbers, index);
    assert(ssm::widened(ismgrow::narrowed(rows)) =~= rows);
}

#[verifier::spinoff_prover]
#[verifier::rlimit(60)]
proof fn lemma_listed_read(big: bool, rows: Seq<u32>, numbers: Seq<u32>, index: Seq<u8>)
    requires
        rows.len() <= u32::MAX,
        numbers.len() <= u32::MAX,
        index == ismgrow::listed_index(big, rows, numbers),
    ensures
        ism::index_at(Cursor { data: index, big, pos: 0 }) matches Ok((m, _)) && m == (
        IsmIndexModel { rows: ssm::widened(rows), bucket_numbers: numbers }),
{
    let c = Cursor { data: index, big, pos: 0 };
    assert(c.holds(index)) by {
        assert(index.subrange(0, index.len() as int) =~= index);
    }
    let count = numbers.len() as u32;
    assert(bytes::low32(numbers.len() as int) == count);
    ismlaw::lemma_index_object(c, count, rows, numbers);
}

proof fn lemma_assembled(file: Seq<u8>, h: IsmHeader, index: Seq<u8>, m: IsmIndexModel)
    requires
        ism::header_of(file, h.big_endian) == Ok::<IsmHeader, IsmFault>(h),
        DATA_START + h.nbucket * h.bucket_size <= file.len(),
        file.subrange(DATA_START + h.nbucket * h.bucket_size, file.len() as int) == index,
        ism::index_at(Cursor { data: index, big: h.big_endian, pos: 0 }) matches Ok((x, _)) && x
            == m,
    ensures
        ism::parsed(file, h.big_endian) == Ok::<IsmModel, IsmFault>(
            IsmModel { header: h, index: m, data: file },
        ),
{
}

/// A file that can be updated and whose parts are in order.
pub open spec fn sound(
    data: Seq<u8>,
    big: bool,
    cds: Seq<ColumnModel>,
    old: u64,
    new: u64,
    pending: Seq<Seq<(u64, Seq<u8>)>>,
) -> bool {
    &&& old <= new
    &&& ismgrow::ism_updated(data, big, cds, old, new, pending) matches Ok(Some(_))
    &&& ism::parsed(data, big) matches Ok(m) && {
        &&& tidy(m)
        &&& 84 <= m.header.bucket_size <= 0x0fff_ffff
        &&& m.index.rows.len() + ssmout::pieces(new - old, (Job { m, cds, pending }).cap())
            <= u32::MAX
    }
}

proof fn lemma_fewer_pieces(n: int, size: int)
    requires
        0 < size < n,
    ensures
        ssmout::pieces(n, size) == 1 + ssmout::pieces(n - size, size),
{
    vstd::arithmetic::div_mod::lemma_div_minus_one(n, size);
    vstd::arithmetic::div_mod::lemma_mod_sub_multiples_vanish(n, size);
}

/// New buckets are as many as the new rows fill.
proof fn lemma_extended_len(job: Job, new: u64, u: Updating)
    requires
        u.rows.len() > 0,
        job.cap() >= 1,
        job.extended(new, u) is Ok,
    ensures
        job.extended(new, u)->Ok_0.rows.len() <= u.rows.len() + if u.rows.last() < new {
            ssmout::pieces(new - u.rows.last(), job.cap())
        } else {
            0
        },
    decreases new - u.rows.last(),
{
    let row = u.rows.last();
    let cap = job.cap();
    if row < new {
        let end = ssm::min(row + cap, new as int);
        let b = job.bucket(row as int, row as int, end)->Ok_0->0;
        let v = Updating {
            buckets: u.buckets.push((u.next, b)),
            rows: u.rows.push(end as u64),
            numbers: u.numbers.push(bytes::low32(u.next)),
            next: u.next + 1,
        };
        lemma_extended_len(job, new, v);
        ssmout::lemma_pieces(new - row, cap);
        if row + cap < new {
            lemma_fewer_pieces(new - row, cap);
        }
    }
}

proof fn lemma_pieces_grow(a: int, b: int, size: int)
    requires
        0 <= a <= b,
        0 < size,
    ensures
        ssmout::pieces(a, size) <= ssmout::pieces(b, size),
{
    ssmout::lemma_pieces(a, size);
    ssmout::lemma_pieces(b, size);
    let x = ssmout::pieces(a, size);
    let y = ssmout::pieces(b, size);
    assert(x <= y) by (nonlinear_arith)
        requires
            x * size < a + size,
            b <= y * size,
            a <= b,
            0 < size,
    ;
}

/// The rows of increasing boundaries are as many as the boundaries at least.
proof fn lemma_rows_len(rows: Seq<u64>, k: int)
    requires
        ism::increasing(rows),
        0 <= k < rows.len(),
    ensures
        rows[k] >= k,
        rows[k] <= rows.last(),
    decreases k,
{
    if k > 0 {
        lemma_rows_len(rows, k - 1);
        assert(rows[k - 1] < rows[k]);
    }
    if k < rows.len() - 1 {
        assert(rows[k] < rows[rows.len() - 1]);
    }
}

proof fn lemma_cap(job: Job)
    requires
        job.m.header.bucket_size >= 84,
    ensures
        job.cap() >= 1,
{
}

/// The state of a finished update.
#[verifier::rlimit(40)]
proof fn lemma_sound(
    data: Seq<u8>,
    big: bool,
    cds: Seq<ColumnModel>,
    old: u64,
    new: u64,
    pending: Seq<Seq<(u64, Seq<u8>)>>,
) -> (r: (Job, Updating, UpdateModel))
    requires
        sound(data, big, cds, old, new, pending),
    ensures
        ({
            let (job, u, um) = r;
            let file = growfile::updated_file(data, job.m.header.bucket_size, um);
            &&& job.cds == cds
            &&& job.pending == pending
            &&& job.m.data == data
            &&& ism::parsed(data, big) == Ok::<IsmModel, IsmFault>(job.m)
            &&& ismgrow::ism_updated(data, big, cds, old, new, pending) == Ok::<
                Option<UpdateModel>,
                UpdateFault,
            >(Some(um))
            &&& ismgrow::all_plain(cds)
            &&& ismgrow::updatable(job.m, old, new)
            &&& tidy(job.m)
            &&& 84 <= job.m.header.bucket_size <= 0x0fff_ffff
            &&& extending(job, old, new, u)
            &&& u.rows.last() == new
            &&& um == ismgrow::finished(job.m.header, u)
            &&& ism::parsed(file, big) == Ok::<IsmModel, IsmFault>(
                updated_model(file, job.m.header, u),
            )
        }),
{
    let m = ism::parsed(data, big)->Ok_0;
    lemma_endian(data, big);
    let job = Job { m, cds, pending };
    let um = ismgrow::ism_updated(data, big, cds, old, new, pending)->Ok_0->0;
    let s = ismgrow::start_of(m);
    lemma_cap(job);
    lemma_updating_start(job, old, new);
    lemma_updated(job, old, new, 0, s);
    let t = job.updated(new, 0, s)->Ok_0->0;
    lemma_extending_start(job, old, new, t);
    lemma_extended(job, old, new, t);
    let u = job.extended(new, t)->Ok_0;
    lemma_extended_len(job, new, t);
    if t.rows.last() < new {
        lemma_pieces_grow(new - t.rows.last(), new - old, job.cap());
    }
    ssmout::lemma_pieces(new - old, job.cap());
    lemma_rows_len(u.rows, u.rows.len() - 1);
    assert forall|k: int| 0 <= k < u.rows.len() implies #[trigger] u.rows[k] <= u32::MAX by {
        lemma_rows_len(u.rows, k);
    }
    lemma_parsed(job, u, um);
    (job, u, um)
}

proof fn lemma_endian(data: Seq<u8>, big: bool)
    requires
        ism::parsed(data, big) is Ok,
    ensures
        ism::parsed(data, big)->Ok_0.header.big_endian == big,
        ism::parsed(data, big)->Ok_0.data == data,
{
    reveal(ism::numbers_at);
    broadcast use aipsio::group_cursor;

}

proof fn lemma_updating_start(job: Job, old: u64, new: u64)
    requires
        ismgrow::updatable(job.m, old, new),
    ensures
        updating(job, new, ismgrow::start_of(job.m), 0),
{
    reveal(edits_among);
    reveal(edits_fit);
}

/// Rows that no column writes between two bounds are not written.
proof fn lemma_nothing_written(p: Seq<(u64, Seq<u8>)>, lo: u64, hi: u64, row: u64, k: int)
    requires
        !ismgrow::touches(p, lo, hi),
        lo <= row < hi,
        0 <= k <= p.len(),
    ensures
        written(p, row, k) is None,
    decreases p.len() - k,
{
    if k < p.len() {
        lemma_nothing_written(p, lo, hi, row, k + 1);
        assert(p[k].0 != row) by {
            if p[k].0 == row {
                assert(lo <= p[k].0 < hi);
            }
        }
    }
}

/// The range of boundaries that holds a row.
proof fn lemma_range(rows: Seq<u64>, row: u64, i: int) -> (k: int)
    requires
        0 <= i < rows.len() - 1,
        rows[i] <= row < rows.last(),
    ensures
        i <= k < rows.len() - 1,
        rows[k] <= row < rows[k + 1],
    decreases rows.len() - i,
{
    if i + 1 < rows.len() - 1 && rows[i + 1] <= row {
        lemma_range(rows, row, i + 1)
    } else {
        i
    }
}

/// A row of an encoded bucket, read from the updated file.
#[verifier::rlimit(40)]
proof fn lemma_encoded_read(
    job: Job,
    old: u64,
    new: u64,
    u: Updating,
    um: UpdateModel,
    n: IsmModel,
    k: int,
    e: int,
    c: int,
    row: u64,
)
    requires
        ismgrow::all_plain(job.cds),
        ismgrow::updatable(job.m, old, new),
        tidy(job.m),
        84 <= job.m.header.bucket_size <= 0x0fff_ffff,
        extending(job, old, new, u),
        u.rows.last() == new,
        um == ismgrow::finished(job.m.header, u),
        n == updated_model(
            growfile::updated_file(job.m.data, job.m.header.bucket_size, um),
            job.m.header,
            u,
        ),
        0 <= k < u.numbers.len(),
        u.rows[k] <= row < u.rows[k + 1],
        encodes(job, u, k, e),
        0 <= c < job.cds.len(),
    ensures
        row < old ==> job.m.cell(c, row) is Ok,
        n.cell(c, row) matches Ok(b) && b.len() == 32 && b.subrange(
            0,
            ismgrow::size_of(job.cds[c]) as int,
        ) == cell_after(job, c, old as int, row),
{
    let size = job.m.header.bucket_size;
    let end = disk_end(job, u, k);
    let b = u.buckets[e].1;
    lemma_disk_end(job, old, new, u, k, row);
    lemma_bucket_read(job, u.rows[k] as int, end, u.rows[k + 1] as int, b, c, row);
    ism::law_bucket_for(n.index, row, k);
    lemma_rows_len(u.rows, k);
    lemma_file_parts(job.m.data, size, um, u.numbers[k]);
    assert(growfile::distinct(u.buckets) && growfile::sized(u.buckets, size)) by {
        reveal(edits_fit);
    }
    growfile::law_buckets_placed(job.m.data, size, u.buckets, u.buckets.len(), e);
    lemma_number_small(job, old, new, u, k);
    assert(ssm::bucket_of(n.data, size, u.numbers[k]) == Some(b));
    assert(cell_after(job, c, end, row) == cell_after(job, c, old as int, row));
}

proof fn lemma_number_small(job: Job, old: u64, new: u64, u: Updating, k: int)
    requires
        tidy(job.m),
        extending(job, old, new, u),
        0 <= k < u.numbers.len(),
    ensures
        u.numbers[k] < u.next,
{
    if k < job.used() {
        assert(job.m.index.bucket_numbers[k] < job.m.header.nbucket);
    }
}

/// The rows of a bucket from the file end where the bucket's rows of the old
/// file end.
proof fn lemma_disk_end(job: Job, old: u64, new: u64, u: Updating, k: int, row: u64)
    requires
        ismgrow::updatable(job.m, old, new),
        extending(job, old, new, u),
        u.rows.last() == new,
        0 <= k < u.numbers.len(),
    ensures
        u.rows[k] <= disk_end(job, u, k) <= u.rows[k + 1] <= new,
        u.rows[k] <= row < u.rows[k + 1] ==> (row < disk_end(job, u, k) <==> row < old),
{
    let used = job.used();
    let rows = job.rows();
    assert(u.rows[k] < u.rows[k + 1]);
    lemma_rows_len(u.rows, k + 1);
    if k < used {
        assert(rows[k] < rows[k + 1]);
        if k + 1 < used {
            assert(rows[k + 1] < rows[used]);
            assert(u.rows[k + 1] == rows[k + 1]);
        }
    } else if used < k {
        assert(u.rows[used] < u.rows[k]);
    }
}

/// A row of an untouched bucket, read from the updated file.
#[verifier::rlimit(40)]
proof fn lemma_untouched_read(
    job: Job,
    old: u64,
    new: u64,
    u: Updating,
    um: UpdateModel,
    n: IsmModel,
    k: int,
    c: int,
    row: u64,
)
    requires
        ismgrow::updatable(job.m, old, new),
        tidy(job.m),
        extending(job, old, new, u),
        u.rows.last() == new,
        um == ismgrow::finished(job.m.header, u),
        n == updated_model(
            growfile::updated_file(job.m.data, job.m.header.bucket_size, um),
            job.m.header,
            u,
        ),
        0 <= k < u.numbers.len(),
        u.rows[k] <= row < u.rows[k + 1],
        untouched(job, u, k),
        0 <= c,
        job.m.cell(c, row) is Ok,
    ensures
        n.cell(c, row) == job.m.cell(c, row),
        written(ismgrow::written_to(job.pending, c), row, 0) is None,
{
    let size = job.m.header.bucket_size;
    let number = u.numbers[k];
    let rows = job.rows();
    assert(u.rows[k] == rows[k]);
    ism::law_bucket_for(n.index, row, k);
    ism::law_bucket_for(job.m.index, row, k);
    lemma_number_small(job, old, new, u, k);
    lemma_file_parts(job.m.data, size, um, number);
    assert(growfile::sized(u.buckets, size)) by {
        reveal(edits_fit);
    }
    growfile::law_other_buckets_kept(job.m.data, size, u.buckets, u.buckets.len(), number);
    if c < job.pending.len() {
        lemma_nothing_written(job.pending[c], rows[k], rows[k + 1], row, 0);
    }
}

/// After an update every row is read: a row that was written has the cell
/// written last, any other row of the old file the cell it had, and any other
/// new row the column's default.
#[verifier::rlimit(40)]
pub proof fn law_update_reads(
    data: Seq<u8>,
    big: bool,
    cds: Seq<ColumnModel>,
    old: u64,
    new: u64,
    pending: Seq<Seq<(u64, Seq<u8>)>>,
    c: int,
    row: u64,
)
    requires
        sound(data, big, cds, old, new, pending),
        0 <= c < cds.len(),
        row < new,
        row < old ==> ism::parsed(data, big)->Ok_0.cell(c, row) is Ok,
    ensures
        ({
            let m = ism::parsed(data, big)->Ok_0;
            let um = ismgrow::ism_updated(data, big, cds, old, new, pending)->Ok_0->0;
            let file = growfile::updated_file(data, m.header.bucket_size, um);
            ism::parsed(file, big) matches Ok(n) && n.cell(c, row) matches Ok(b) && b.len() == 32
                && b.subrange(0, ismgrow::size_of(cds[c]) as int) == cell_after(
                Job { m, cds, pending },
                c,
                old as int,
                row,
            )
        }),
{
    let (job, u, um) = lemma_sound(data, big, cds, old, new, pending);
    let file = growfile::updated_file(data, job.m.header.bucket_size, um);
    let n = updated_model(file, job.m.header, u);
    let k = lemma_range(u.rows, row, 0);
    assert(settled(job, u, k));
    reveal(settled);
    if untouched(job, u, k) {
        lemma_disk_end(job, old, new, u, k, row);
        lemma_untouched_read(job, old, new, u, um, n, k, c, row);
        lemma_cell_len(job.m, c, row);
    } else {
        let e = choose|e: int| encodes(job, u, k, e);
        lemma_encoded_read(job, old, new, u, um, n, k, e, c, row);
    }
    assert(job == (Job { m: job.m, cds, pending }));
}

/// The index of an updated file ascends from 0 to the new number of rows, and
/// the row after the last is out of range.
pub proof fn law_update_index(
    data: Seq<u8>,
    big: bool,
    cds: Seq<ColumnModel>,
    old: u64,
    new: u64,
    pending: Seq<Seq<(u64, Seq<u8>)>>,
    c: int,
)
    requires
        sound(data, big, cds, old, new, pending),
    ensures
        ({
            let m = ism::parsed(data, big)->Ok_0;
            let um = ismgrow::ism_updated(data, big, cds, old, new, pending)->Ok_0->0;
            let file = growfile::updated_file(data, m.header.bucket_size, um);
            ism::parsed(file, big) matches Ok(n) && {
                &&& ism::increasing(n.index.rows)
                &&& n.index.rows.len() == n.index.bucket_numbers.len() + 1
                &&& n.index.rows[0] == 0
                &&& n.index.rows.last() == new
                &&& n.cell(c, new) == Err::<Seq<u8>, IsmFault>(
                    IsmFault::RowOutOfRange { row: new },
                )
            }
        }),
{
    let (job, u, um) = lemma_sound(data, big, cds, old, new, pending);
    let file = growfile::updated_file(data, job.m.header.bucket_size, um);
    let n = updated_model(file, job.m.header, u);
    lemma_no_bucket(n.index, new);
}

proof fn lemma_no_bucket(index: IsmIndexModel, row: u64)
    requires
        ism::increasing(index.rows),
        index.rows.len() == index.bucket_numbers.len() + 1,
        row >= index.rows.last(),
    ensures
        index.bucket_for(row) is None,
{
    let rows = index.rows;
    let n = rows.len() as int;
    if n > 1 {
        ism::law_bucket_for(index, row, 0);
    } else {
        ssm::lemma_bisect(rows, row, 0, n);
    }
}

/// The rows of pending cells ascend.
pub open spec fn ascending(p: Seq<(u64, Seq<u8>)>) -> bool {
    forall|i: int, j: int| 0 <= i < j < p.len() ==> (#[trigger] p[i]).0 < (#[trigger] p[j]).0
}

/// Of cells in ascending rows, the one written last to a row is the only one.
proof fn lemma_written_once(p: Seq<(u64, Seq<u8>)>, row: u64, k: int, i: int)
    requires
        ascending(p),
        0 <= k <= p.len(),
    ensures
        k <= i < p.len() && p[i].0 == row ==> written(p, row, k) == Some(p[i].1),
        (forall|j: int| k <= j < p.len() ==> (#[trigger] p[j]).0 != row) ==> written(p, row, k)
            is None,
    decreases p.len() - k,
{
    if k < p.len() {
        lemma_written_once(p, row, k + 1, i);
        if i == k && p[i].0 == row {
            assert forall|j: int| k + 1 <= j < p.len() implies (#[trigger] p[j]).0 != row by {
                assert(p[k].0 < p[j].0);
            }
        }
    }
}

/// No cell is pending for a row.
pub open spec fn not_pending(p: Seq<(u64, Seq<u8>)>, row: u64) -> bool {
    forall|j: int| 0 <= j < p.len() ==> (#[trigger] p[j]).0 != row
}

/// An updated file, as a whole: its boundaries ascend from 0 to the new row
/// count, and the row after the last is out of range; a cell that was pending
/// has the bytes that were written, any other old cell the value that it had,
/// and any other new cell its column's default.
#[verifier::rlimit(40)]
pub proof fn law_updated_file(
    data: Seq<u8>,
    big: bool,
    cds: Seq<ColumnModel>,
    old: u64,
    new: u64,
    pending: Seq<Seq<(u64, Seq<u8>)>>,
    c: int,
    row: u64,
    i: int,
)
    requires
        sound(data, big, cds, old, new, pending),
        0 <= c < cds.len(),
        ascending(ismgrow::written_to(pending, c)),
        row < new,
        row < old ==> ism::parsed(data, big)->Ok_0.cell(c, row) is Ok,
    ensures
        ({
            let m = ism::parsed(data, big)->Ok_0;
            let um = ismgrow::ism_updated(data, big, cds, old, new, pending)->Ok_0->0;
            let file = growfile::updated_file(data, m.header.bucket_size, um);
            let p = ismgrow::written_to(pending, c);
            let n = ism::parsed(file, big)->Ok_0;
            &&& ism::parsed(file, big) is Ok
            &&& ism::increasing(n.index.rows)
            &&& n.index.rows[0] == 0
            &&& n.index.rows.last() == new
            &&& n.cell(c, new) == Err::<Seq<u8>, IsmFault>(IsmFault::RowOutOfRange { row: new })
            &&& n.cell(c, row) is Ok
            &&& 0 <= i < p.len() && p[i].0 == row ==> n.cell(c, row)->Ok_0.subrange(
                0,
                ismgrow::size_of(cds[c]) as int,
            ) == p[i].1
            &&& not_pending(p, row) && row < old ==> n.scalar(c, cds[c], row) == m.scalar(
                c,
                cds[c],
                row,
            )
            &&& not_pending(p, row) && row >= old && recordlaw::scalar_fits(
                cds[c].data_type,
                cds[c].kind->Scalar_0,
            ) ==> n.scalar(c, cds[c], row) == Ok::<ValueModel, IsmFault>(cds[c].kind->Scalar_0)
        }),
{
    let (job, u, um) = lemma_sound(data, big, cds, old, new, pending);
    let p = ismgrow::written_to(pending, c);
    law_update_index(data, big, cds, old, new, pending, c);
    law_update_reads(data, big, cds, old, new, pending, c, row);
    lemma_written_once(p, row, 0, i);
    assert(job == (Job { m: job.m, cds, pending }));
    assert(ismgrow::is_plain(cds[c]));
    if row >= old && recordlaw::scalar_fits(cds[c].data_type, cds[c].kind->Scalar_0) {
        celllaw::law_scalar_cell_round_trip(
            job.m.header.big_endian,
            cds[c],
            cds[c].kind->Scalar_0,
        );
    }
}

} // verus!
