//! Writing an IncrementalStMan data file and its spec blob.
use crate::aipsio;
use crate::aipsio::Writer;
use crate::bytes;
use crate::bytes::resize;
use crate::columnset;
use crate::columnset::write_block_u32;
use crate::items;
use crate::items::write_items;
use crate::recordio;
use crate::ssm;
use crate::ssmout;
use crate::ssmout::{piece_count, writer};
use crate::text::bytes_eq;
use vstd::prelude::*;

verus! {

/// Bytes of a bucket.
pub const ISM_BUCKET_SIZE: u32 = 32768;

/// Per-column raw cell bytes handed to `write_ism_file`.
#[derive(Debug, Clone, Copy)]
pub struct WriteIsmColumn<'a> {
    /// Bytes per row cell.
    pub cell_size: u32,
    /// Concatenated cell bytes: `n_rows * cell_size` bytes.
    pub bytes: &'a [u8],
}

/// What a [`WriteIsmColumn`] says.
pub struct IsmCells {
    pub cell_size: u32,
    pub bytes: Seq<u8>,
}

impl<'a> View for WriteIsmColumn<'a> {
    type V = IsmCells;

    open spec fn view(&self) -> IsmCells {
        IsmCells { cell_size: self.cell_size, bytes: self.bytes@ }
    }
}

pub open spec fn ism_cells(s: Seq<WriteIsmColumn<'_>>) -> Seq<IsmCells> {
    s.map_values(|c: WriteIsmColumn<'_>| c@)
}

impl IsmCells {
    /// The cell of a row.
    pub open spec fn cell(self, row: int) -> Seq<u8> {
        self.bytes.subrange(row * self.cell_size, row * self.cell_size + self.cell_size)
    }
}

/// The intervals of a column: their first rows and their data offsets.
#[verifier::ext_equal]
pub struct Entries {
    pub starts: Seq<u32>,
    pub offsets: Seq<u32>,
}

/// A bucket under construction.
#[verifier::ext_equal]
pub struct Draft {
    pub data: Seq<u8>,
    pub entries: Seq<Entries>,
}

/// The draft with the cell of `row` in column `c`. A cell equal to the one
/// before it in the bucket belongs to the same interval; any other starts a
/// new one. The bucket's first row is `start`.
pub open spec fn with_cell(d: Draft, cols: Seq<IsmCells>, start: int, row: int, c: int) -> Draft {
    if row > start && cols[c].cell(row) == cols[c].cell(row - 1) {
        d
    } else {
        Draft {
            data: d.data + cols[c].cell(row),
            entries: d.entries.update(
                c,
                Entries {
                    starts: d.entries[c].starts.push((row - start) as u32),
                    offsets: d.entries[c].offsets.push(d.data.len() as u32),
                },
            ),
        }
    }
}

/// The draft with the cells of `row` in the first `n` columns.
pub open spec fn with_row(d: Draft, cols: Seq<IsmCells>, start: int, row: int, n: nat) -> Draft
    decreases n,
{
    if n == 0 {
        d
    } else {
        with_cell(with_row(d, cols, start, row, (n - 1) as nat), cols, start, row, n - 1)
    }
}

/// The draft of the `n` rows from `start` on.
pub open spec fn draft(cols: Seq<IsmCells>, start: int, n: nat) -> Draft
    decreases n,
{
    if n == 0 {
        Draft {
            data: Seq::empty(),
            entries: Seq::new(
                cols.len(),
                |c: int| Entries { starts: Seq::empty(), offsets: Seq::empty() },
            ),
        }
    } else {
        with_row(draft(cols, start, (n - 1) as nat), cols, start, start + n - 1, cols.len())
    }
}

/// The index of a column in a bucket.
pub open spec fn entries_bytes(big: bool, e: Entries) -> Seq<u8> {
    aipsio::u32_bytes(big, bytes::low32(e.starts.len() as int)) + items::items_bytes::<u32>(
        big,
        e.starts,
        e.starts.len(),
    ) + items::items_bytes::<u32>(big, e.offsets, e.offsets.len())
}

/// The indices of the first `n` columns.
pub open spec fn all_entries(big: bool, e: Seq<Entries>, n: nat) -> Seq<u8>
    decreases n,
{
    if n == 0 {
        Seq::empty()
    } else {
        all_entries(big, e, (n - 1) as nat) + entries_bytes(big, e[n - 1])
    }
}

/// What a bucket holds: the offset of its index, the data and the index.
pub open spec fn bucket_content(big: bool, d: Draft) -> Seq<u8> {
    aipsio::u32_bytes(big, bytes::low32(d.data.len() as int + 4)) + d.data + all_entries(
        big,
        d.entries,
        d.entries.len(),
    )
}

/// Bytes that a row takes at most, with its index entries.
pub open spec fn row_bytes(cols: Seq<IsmCells>, n: nat) -> nat
    decreases n,
{
    if n == 0 {
        0
    } else {
        row_bytes(cols, (n - 1) as nat) + cols[n - 1].cell_size as nat + 8
    }
}

/// Rows per bucket: as many as the bucket holds, with its offset word and its
/// index, when no two neighbours are equal, and at least one.
pub open spec fn rows_in(size: int, cols: Seq<IsmCells>) -> int {
    let free = size - 4 - 4 * cols.len();
    let n = if cols.len() == 0 {
        size
    } else if free <= 0 {
        0
    } else {
        free / row_bytes(cols, cols.len()) as int
    };
    if n < 1 {
        1
    } else {
        n
    }
}

/// Rows per bucket of a new file.
pub open spec fn rows_per_bucket(cols: Seq<IsmCells>) -> int {
    rows_in(ISM_BUCKET_SIZE as int, cols)
}

/// The number of buckets.
pub open spec fn bucket_count(cols: Seq<IsmCells>, n_rows: u64) -> int {
    ssmout::pieces(n_rows as int, rows_per_bucket(cols))
}

/// The first row of bucket `b`, or the number of rows after the last one.
pub open spec fn boundary(cols: Seq<IsmCells>, n_rows: u64, b: int) -> int {
    ssm::min(b * rows_per_bucket(cols), n_rows as int)
}

/// The draft of bucket `b`.
pub open spec fn bucket_draft(cols: Seq<IsmCells>, n_rows: u64, b: int) -> Draft {
    draft(
        cols,
        boundary(cols, n_rows, b),
        (boundary(cols, n_rows, b + 1) - boundary(cols, n_rows, b)) as nat,
    )
}

/// The first `n` buckets.
pub open spec fn buckets_bytes(big: bool, cols: Seq<IsmCells>, n_rows: u64, n: nat) -> Seq<u8>
    decreases n,
{
    if n == 0 {
        Seq::empty()
    } else {
        buckets_bytes(big, cols, n_rows, (n - 1) as nat) + bytes::resized(
            bucket_content(big, bucket_draft(cols, n_rows, n - 1)),
            ISM_BUCKET_SIZE as nat,
        )
    }
}

/// The row boundaries of the buckets.
pub open spec fn boundaries(cols: Seq<IsmCells>, n_rows: u64) -> Seq<u32> {
    Seq::new(
        (bucket_count(cols, n_rows) + 1) as nat,
        |b: int| bytes::low32(boundary(cols, n_rows, b)),
    )
}

/// The bucket numbers.
pub open spec fn numbers(cols: Seq<IsmCells>, n_rows: u64) -> Seq<u32> {
    Seq::new(bucket_count(cols, n_rows) as nat, |b: int| bytes::low32(b))
}

/// The numbers of the header.
pub open spec fn header_numbers(big: bool, nbucket: int) -> Seq<u8> {
    (aipsio::u32_bytes(big, ISM_BUCKET_SIZE) + aipsio::u32_bytes(big, bytes::low32(nbucket))
        + aipsio::u32_bytes(big, 0)) + (aipsio::u32_bytes(big, 0) + aipsio::u32_bytes(big, 0)
        + aipsio::i32_bytes(big, -1i32 as i32))
}

/// The header object: big-endian files get a version-4 header, little-endian
/// ones a version-5 header with an explicit endianness flag.
pub open spec fn header_bytes(big: bool, nbucket: int) -> Seq<u8> {
    if big {
        aipsio::object_bytes(big, true, "IncrementalStMan"@, 4, header_numbers(big, nbucket))
    } else {
        aipsio::object_bytes(
            big,
            true,
            "IncrementalStMan"@,
            5,
            aipsio::bool_bytes(false) + header_numbers(big, nbucket),
        )
    }
}

/// The index object.
pub open spec fn index_bytes(big: bool, cols: Seq<IsmCells>, n_rows: u64) -> Seq<u8> {
    aipsio::object_bytes(
        big,
        true,
        "ISMIndex"@,
        1,
        aipsio::u32_bytes(big, bytes::low32(bucket_count(cols, n_rows))) + columnset::block_bytes(
            big,
            boundaries(cols, n_rows),
        ) + columnset::block_bytes(big, numbers(cols, n_rows)),
    )
}

/// A whole data file.
pub open spec fn file_bytes(big: bool, n_rows: u64, cols: Seq<IsmCells>) -> Seq<u8> {
    bytes::resized(header_bytes(big, bucket_count(cols, n_rows)), ssm::DATA_START as nat)
        + buckets_bytes(big, cols, n_rows, bucket_count(cols, n_rows) as nat) + index_bytes(
        big,
        cols,
        n_rows,
    )
}

/// The cells cover all rows.
pub open spec fn cover_rows(cols: Seq<IsmCells>, n_rows: u64) -> bool {
    forall|c: int|
        0 <= c < cols.len() ==> n_rows * (#[trigger] cols[c]).cell_size <= cols[c].bytes.len()
}

/// The cells cover all rows, and the content of every bucket fits it.
pub open spec fn file_fits(big: bool, n_rows: u64, cols: Seq<IsmCells>) -> bool {
    &&& n_rows + ISM_BUCKET_SIZE <= u64::MAX
    &&& cover_rows(cols, n_rows)
    &&& forall|b: int|
        0 <= b < bucket_count(cols, n_rows) ==> bucket_content(
            big,
            #[trigger] bucket_draft(cols, n_rows, b),
        ).len() <= ISM_BUCKET_SIZE
}

struct ColumnEntries {
    starts: Vec<u32>,
    offsets: Vec<u32>,
}

impl ColumnEntries {
    spec fn model(self) -> Entries {
        Entries { starts: self.starts@, offsets: self.offsets@ }
    }
}

spec fn entries_models(s: Seq<ColumnEntries>) -> Seq<Entries> {
    s.map_values(|e: ColumnEntries| e.model())
}

spec fn is_draft(data: Seq<u8>, entries: Seq<ColumnEntries>, d: Draft) -> bool {
    data == d.data && entries_models(entries) == d.entries
}

pub proof fn lemma_cell_range(cell_size: u32, row: int, n_rows: u64)
    requires
        0 <= row < n_rows,
    ensures
        0 <= row * cell_size <= row * cell_size + cell_size <= n_rows * cell_size,
{
    assert(0 <= row * cell_size <= row * cell_size + cell_size <= n_rows * cell_size)
        by (nonlinear_arith)
        requires
            0 <= row < n_rows,
            0 <= cell_size,
    ;
}

fn cell_of<'a>(col: &WriteIsmColumn<'a>, row: u64, n_rows: u64) -> (r: &'a [u8])
    requires
        row < n_rows,
        n_rows * col@.cell_size <= col@.bytes.len(),
    ensures
        r@ == col@.cell(row as int),
{
    let len: usize = col.bytes.len();
    proof {
        lemma_cell_range(col.cell_size, row as int, n_rows);
    }
    let from: usize = (row * col.cell_size as u64) as usize;
    vstd::slice::slice_subrange(col.bytes, from, from + col.cell_size as usize)
}

/// Add the cells of one row to the bucket under construction, unless the
/// data outgrow the bucket.
fn add_row(
    data: &mut Vec<u8>,
    entries: &mut Vec<ColumnEntries>,
    cols: &[WriteIsmColumn<'_>],
    n_rows: u64,
    start: u64,
    row: u64,
    size: u32,
    Ghost(d): Ghost<Draft>,
) -> (fits: bool)
    requires
        is_draft(old(data)@, old(entries)@, d),
        d.data.len() <= size,
        d.entries.len() == cols@.len(),
        start <= row < n_rows,
        row - start <= u32::MAX,
        cover_rows(ism_cells(cols@), n_rows),
    ensures
        fits ==> is_draft(
            final(data)@,
            final(entries)@,
            with_row(d, ism_cells(cols@), start as int, row as int, cols@.len()),
        ) && final(data)@.len() <= size,
        !fits ==> with_row(
            d,
            ism_cells(cols@),
            start as int,
            row as int,
            cols@.len(),
        ).data.len() > size,
{
    let ghost models = ism_cells(cols@);
    let mut c: usize = 0;
    while c < cols.len()
        invariant
            c <= cols@.len(),
            models == ism_cells(cols@),
            d.entries.len() == cols@.len(),
            entries@.len() == cols@.len(),
            start <= row < n_rows,
            row - start <= u32::MAX,
            cover_rows(models, n_rows),
            data@.len() <= size,
            is_draft(data@, entries@, with_row(d, models, start as int, row as int, c as nat)),
        decreases cols@.len() - c,
    {
        let ghost before = with_row(d, models, start as int, row as int, c as nat);
        assert(entries_models(entries@).len() == entries@.len());
        let col = &cols[c];
        assert(models[c as int] == col@);
        let cell = cell_of(col, row, n_rows);
        let same: bool = row > start && bytes_eq(cell, cell_of(col, row - 1, n_rows));
        if !same {
            let ghost after = with_cell(before, models, start as int, row as int, c as int);
            if cell.len() > size as usize - data.len() {
                proof {
                    lemma_row_grows(
                        d,
                        models,
                        start as int,
                        row as int,
                        (c + 1) as nat,
                        cols@.len(),
                    );
                }
                return false;
            }
            let at: u32 = data.len() as u32;
            data.extend_from_slice(cell);
            entries[c].starts.push((row - start) as u32);
            entries[c].offsets.push(at);
            proof {
                assert(data@ =~= after.data);
                assert(entries_models(entries@) =~= after.entries);
            }
        }
        c = c + 1;
    }
    true
}

/// Adding cells never shortens the data.
pub proof fn lemma_row_grows(d: Draft, cols: Seq<IsmCells>, start: int, row: int, a: nat, b: nat)
    requires
        a <= b <= d.entries.len(),
    ensures
        with_row(d, cols, start, row, a).data.len() <= with_row(d, cols, start, row, b).data.len(),
        with_row(d, cols, start, row, a).entries.len() == d.entries.len(),
    decreases b,
{
    if a < b {
        lemma_row_grows(d, cols, start, row, a, (b - 1) as nat);
    } else if a > 0 {
        lemma_row_grows(d, cols, start, row, (a - 1) as nat, (a - 1) as nat);
    }
}

pub proof fn lemma_draft_grows(cols: Seq<IsmCells>, start: int, a: nat, b: nat)
    requires
        a <= b,
    ensures
        draft(cols, start, a).data.len() <= draft(cols, start, b).data.len(),
        draft(cols, start, a).entries.len() == cols.len(),
    decreases b,
{
    if a < b {
        lemma_draft_grows(cols, start, a, (b - 1) as nat);
        lemma_draft_grows(cols, start, (b - 1) as nat, (b - 1) as nat);
        lemma_row_grows(
            draft(cols, start, (b - 1) as nat),
            cols,
            start,
            start + b - 1,
            0,
            cols.len(),
        );
    } else if a > 0 {
        let e = (a - 1) as nat;
        lemma_draft_grows(cols, start, e, e);
        lemma_row_grows(
            draft(cols, start, e),
            cols,
            start,
            start + a - 1,
            cols.len(),
            cols.len(),
        );
    }
}

fn write_entries(w: &mut Writer, entries: &Vec<ColumnEntries>)
    ensures
        final(w)@ == old(w)@.put(
            all_entries(old(w)@.big, entries_models(entries@), entries@.len()),
        ),
{
    let ghost s = w@;
    let ghost models = entries_models(entries@);
    let mut c: usize = 0;
    proof {
        aipsio::lemma_sheet_put_nothing(s);
    }
    while c < entries.len()
        invariant
            c <= entries@.len(),
            models == entries_models(entries@),
            w@ == s.put(all_entries(s.big, models, c as nat)),
        decreases entries@.len() - c,
    {
        let ghost at = w@;
        let e = &entries[c];
        assert(models[c as int] == e.model());
        w.put_u32(bytes::length32(e.starts.len()));
        write_items::<u32>(w, e.starts.as_slice());
        write_items::<u32>(w, e.offsets.as_slice());
        proof {
            assert(recordio::views(e.starts@) =~= e.starts@);
            assert(recordio::views(e.offsets@) =~= e.offsets@);
            aipsio::lemma_sheet_put3(
                at,
                aipsio::u32_bytes(s.big, bytes::low32(e.starts@.len() as int)),
                items::items_bytes::<u32>(s.big, e.starts@, e.starts@.len()),
                items::items_bytes::<u32>(s.big, e.offsets@, e.offsets@.len()),
            );
            aipsio::lemma_sheet_put(
                s,
                all_entries(s.big, models, c as nat),
                entries_bytes(s.big, models[c as int]),
            );
        }
        c = c + 1;
    }
}

/// Build the bucket of `size` bytes with the rows `start..end`, if its content
/// fits.
pub(crate) fn encode_ism_bucket(
    big: bool,
    size: u32,
    cols: &[WriteIsmColumn<'_>],
    n_rows: u64,
    start: u64,
    end: u64,
) -> (r: Option<Vec<u8>>)
    requires
        start <= end <= n_rows,
        end - start <= u32::MAX,
        cover_rows(ism_cells(cols@), n_rows),
    ensures
        ({
            let content = bucket_content(
                big,
                draft(ism_cells(cols@), start as int, (end - start) as nat),
            );
            if content.len() <= size {
                r matches Some(b) && b@ == bytes::resized(content, size as nat)
            } else {
                r is None
            }
        }),
{
    let ghost models = ism_cells(cols@);
    let ghost goal = draft(models, start as int, (end - start) as nat);
    let mut data: Vec<u8> = Vec::new();
    let mut entries: Vec<ColumnEntries> = Vec::new();
    let mut i: usize = 0;
    while i < cols.len()
        invariant
            i <= cols@.len(),
            entries@.len() == i,
            forall|k: int|
                0 <= k < i ==> (#[trigger] entries@[k]).starts@ == Seq::<u32>::empty()
                    && entries@[k].offsets@ == Seq::<u32>::empty(),
        decreases cols@.len() - i,
    {
        entries.push(ColumnEntries { starts: Vec::new(), offsets: Vec::new() });
        i = i + 1;
    }
    proof {
        let none = draft(models, start as int, 0);
        assert(data@ =~= none.data);
        assert(entries_models(entries@) =~= none.entries);
    }
    let mut row: u64 = start;
    while row < end
        invariant
            start <= row <= end <= n_rows,
            end - start <= u32::MAX,
                models == ism_cells(cols@),
            goal == draft(models, start as int, (end - start) as nat),
            cover_rows(models, n_rows),
            data@.len() <= size,
            is_draft(data@, entries@, draft(models, start as int, (row - start) as nat)),
        decreases end - row,
    {
        let ghost d = draft(models, start as int, (row - start) as nat);
        proof {
            lemma_draft_grows(
                models,
                start as int,
                (row - start) as nat,
                (row - start) as nat,
            );
            lemma_draft_grows(
                models,
                start as int,
                (row + 1 - start) as nat,
                (end - start) as nat,
            );
            assert(start + (row + 1 - start) as nat - 1 == row);
            assert((row + 1 - start) as nat - 1 == (row - start) as nat);
        }
        if !add_row(&mut data, &mut entries, cols, n_rows, start, row, size, Ghost(d)) {
            proof {
                lemma_content_len(big, goal);
            }
            return None;
        }
        row = row + 1;
    }
    if size < 4 || data.len() > (size - 4) as usize {
        proof {
            lemma_content_len(big, goal);
        }
        return None;
    }
    let mut w = writer(big);
    let ghost s = w@;
    w.put_u32(data.len() as u32 + 4);
    w.put_raw(data.as_slice());
    write_entries(&mut w, &entries);
    proof {
        let a = aipsio::u32_bytes(big, bytes::low32(data@.len() as int + 4));
        let b = all_entries(big, entries_models(entries@), entries@.len());
        aipsio::lemma_sheet_put3(s, a, data@, b);
        assert(s.put(a + data@ + b).body =~= a + data@ + b);
        assert(entries_models(entries@).len() == entries@.len());
    }
    let content = w.into_bytes();
    if content.len() > size as usize {
        return None;
    }
    Some(resize(content.as_slice(), size as usize))
}

/// The content of a bucket is longer than its data.
proof fn lemma_content_len(big: bool, d: Draft)
    ensures
        bucket_content(big, d).len() >= d.data.len() + 4,
{
    bytes::lemma_uint_bytes_len(big, bytes::low32(d.data.len() as int + 4) as nat, 4);
}

fn row_size(cols: &[WriteIsmColumn<'_>]) -> (r: u128)
    ensures
        r == row_bytes(ism_cells(cols@), cols@.len()),
{
    let ghost models = ism_cells(cols@);
    let mut sum: u128 = 0;
    let mut c: usize = 0;
    while c < cols.len()
        invariant
            c <= cols@.len(),
            models == ism_cells(cols@),
            sum == row_bytes(models, c as nat),
            sum <= c * 0x1_0000_0008,
        decreases cols@.len() - c,
    {
        assert(models[c as int] == cols@[c as int]@);
        assert((c + 1) * 0x1_0000_0008 == c * 0x1_0000_0008 + 0x1_0000_0008);
        sum = sum + cols[c].cell_size as u128 + 8;
        c = c + 1;
    }
    sum
}

/// The rows that a bucket of `size` bytes holds when no two neighbours are
/// equal, and at least one.
pub(crate) fn ism_rows_per_bucket(size: u32, cols: &[WriteIsmColumn<'_>]) -> (r: u64)
    ensures
        r == rows_in(size as int, ism_cells(cols@)),
        1 <= r,
        r <= 1 || r <= size,
{
    let n: usize = cols.len();
    if n == 0 {
        return if size == 0 {
            1
        } else {
            size as u64
        };
    }
    let bytes: u128 = row_size(cols);
    proof {
        assert(row_bytes(ism_cells(cols@), cols@.len()) >= 8);
    }
    if size as u128 <= 4 + 4 * n as u128 {
        return 1;
    }
    let free: u128 = size as u128 - 4 - 4 * n as u128;
    let q: u128 = free / bytes;
    proof {
        vstd::arithmetic::div_mod::lemma_div_is_ordered_by_denominator(
            free as int,
            1,
            bytes as int,
        );
    }
    if q < 1 {
        1
    } else {
        q as u64
    }
}

pub proof fn lemma_boundaries(cols: Seq<IsmCells>, n_rows: u64, b: int)
    requires
        0 <= b < bucket_count(cols, n_rows),
        0 < rows_per_bucket(cols),
    ensures
        0 <= boundary(cols, n_rows, b) < boundary(cols, n_rows, b + 1) <= n_rows,
        boundary(cols, n_rows, b) == b * rows_per_bucket(cols),
        boundary(cols, n_rows, b + 1) - boundary(cols, n_rows, b) <= rows_per_bucket(cols),
        boundary(cols, n_rows, b + 1) == ssm::min(
            b * rows_per_bucket(cols) + rows_per_bucket(cols),
            n_rows as int,
        ),
        b + 1 == bucket_count(cols, n_rows) ==> boundary(cols, n_rows, b + 1) == n_rows,
{
    let p = rows_per_bucket(cols);
    let n = n_rows as int;
    let count = bucket_count(cols, n_rows);
    ssmout::lemma_pieces(n, p);
    assert((b + 1) * p == b * p + p && 0 <= b * p && (count - 1) * p == count * p - p && b * p <= (
    count - 1) * p && (b + 1) * p <= count * p) by (nonlinear_arith)
        requires
            0 <= b < count,
            0 < p,
    ;
}

fn push_buckets(file: &mut Vec<u8>, big: bool, cols: &[WriteIsmColumn<'_>], n_rows: u64, rows: u64, count: u64) -> (fits:
    bool)
    requires
        n_rows + ISM_BUCKET_SIZE <= u64::MAX,
        cover_rows(ism_cells(cols@), n_rows),
        rows == rows_per_bucket(ism_cells(cols@)),
        1 <= rows <= ISM_BUCKET_SIZE,
        count == bucket_count(ism_cells(cols@), n_rows),
    ensures
        fits == file_fits(big, n_rows, ism_cells(cols@)),
        fits ==> final(file)@ == old(file)@ + buckets_bytes(
            big,
            ism_cells(cols@),
            n_rows,
            count as nat,
        ),
{
    let ghost before = file@;
    let ghost models = ism_cells(cols@);
    let mut b: u64 = 0;
    let mut start: u64 = 0;
    assert(file@ =~= before + buckets_bytes(big, models, n_rows, 0));
    while b < count
        invariant
            b <= count,
            models == ism_cells(cols@),
            n_rows + ISM_BUCKET_SIZE <= u64::MAX,
            cover_rows(models, n_rows),
            rows == rows_per_bucket(models),
            1 <= rows <= ISM_BUCKET_SIZE,
            count == bucket_count(models, n_rows),
            start <= n_rows,
            b < count ==> start == boundary(models, n_rows, b as int),
            file@ == before + buckets_bytes(big, models, n_rows, b as nat),
            forall|k: int|
                0 <= k < b ==> bucket_content(
                    big,
                    #[trigger] bucket_draft(models, n_rows, k),
                ).len() <= ISM_BUCKET_SIZE,
        decreases count - b,
    {
        proof {
            lemma_boundaries(models, n_rows, b as int);
            if b + 1 < count {
                lemma_boundaries(models, n_rows, b + 1);
            }
        }
        let ghost d = bucket_draft(models, n_rows, b as int);
        let stop: u64 = start + rows;
        let end: u64 = if stop < n_rows { stop } else { n_rows };
        let bucket = match encode_ism_bucket(big, ISM_BUCKET_SIZE, cols, n_rows, start, end) {
            Some(x) => x,
            None => {
                assert(bucket_content(big, bucket_draft(models, n_rows, b as int)).len()
                    > ISM_BUCKET_SIZE);
                return false;
            },
        };
        let ghost so_far = file@;
        file.extend_from_slice(bucket.as_slice());
        proof {
            let d = buckets_bytes(big, models, n_rows, b as nat);
            assert(file@ =~= so_far + bucket@);
            assert((before + d) + bucket@ =~= before + (d + bucket@));
        }
        start = end;
        b = b + 1;
    }
    true
}

fn rows_covered(cols: &[WriteIsmColumn<'_>], n_rows: u64) -> (r: bool)
    ensures
        r == cover_rows(ism_cells(cols@), n_rows),
{
    let ghost models = ism_cells(cols@);
    let mut c: usize = 0;
    while c < cols.len()
        invariant
            c <= cols@.len(),
            models == ism_cells(cols@),
            forall|k: int|
                0 <= k < c ==> n_rows * (#[trigger] models[k]).cell_size <= models[k].bytes.len(),
        decreases cols@.len() - c,
    {
        assert(models[c as int] == cols@[c as int]@);
        let size: u32 = cols[c].cell_size;
        assert(0 <= n_rows * size <= 0xffff_ffff_ffff_ffff * 0xffff_ffff) by (nonlinear_arith)
            requires
                0 <= n_rows <= 0xffff_ffff_ffff_ffff,
                0 <= size <= 0xffff_ffff,
        ;
        if n_rows as u128 * size as u128 > cols[c].bytes.len() as u128 {
            assert(n_rows * models[c as int].cell_size > models[c as int].bytes.len());
            return false;
        }
        c = c + 1;
    }
    true
}

fn boundary_list(cols: &[WriteIsmColumn<'_>], n_rows: u64, rows: u64, count: u64) -> (r: Vec<u32>)
    requires
        rows == rows_per_bucket(ism_cells(cols@)),
        1 <= rows <= ISM_BUCKET_SIZE,
        n_rows + ISM_BUCKET_SIZE <= u64::MAX,
        count == bucket_count(ism_cells(cols@), n_rows),
    ensures
        r@ == boundaries(ism_cells(cols@), n_rows),
{
    let ghost models = ism_cells(cols@);
    let mut out: Vec<u32> = Vec::new();
    let mut b: u64 = 0;
    let mut at: u64 = 0;
    proof {
        ssmout::lemma_pieces(n_rows as int, rows as int);
        assert(0 * rows_per_bucket(models) == 0);
    }
    while b < count
        invariant
            b <= count,
            rows == rows_per_bucket(models),
            1 <= rows <= ISM_BUCKET_SIZE,
            n_rows + ISM_BUCKET_SIZE <= u64::MAX,
            count == bucket_count(models, n_rows),
            at == boundary(models, n_rows, b as int),
            at <= n_rows,
            out@.len() == b,
            forall|k: int|
                0 <= k < b ==> out@[k] == bytes::low32(boundary(models, n_rows, k)),
        decreases count - b,
    {
        proof {
            lemma_boundaries(models, n_rows, b as int);
        }
        out.push((at % 0x1_0000_0000) as u32);
        let stop: u64 = at + rows;
        at = if stop < n_rows { stop } else { n_rows };
        b = b + 1;
    }
    out.push((at % 0x1_0000_0000) as u32);
    assert(out@ =~= boundaries(models, n_rows));
    out
}

fn number_list(count: u64) -> (r: Vec<u32>)
    ensures
        r@ == Seq::new(count as nat, |b: int| bytes::low32(b)),
{
    let mut out: Vec<u32> = Vec::new();
    let mut b: u64 = 0;
    while b < count
        invariant
            b <= count,
            out@.len() == b,
            forall|k: int| 0 <= k < b ==> out@[k] == bytes::low32(k),
        decreases count - b,
    {
        out.push((b % 0x1_0000_0000) as u32);
        b = b + 1;
    }
    assert(out@ =~= Seq::new(count as nat, |b: int| bytes::low32(b)));
    out
}

fn header_image(big: bool, count: u64) -> (r: Vec<u8>)
    ensures
        r@ == header_bytes(big, count as int),
{
    let nbucket: u32 = (count % 0x1_0000_0000) as u32;
    let mut w = writer(big);
    let ghost outer = w@;
    if big {
        w.put_root_object_start("IncrementalStMan", 4);
    } else {
        w.put_root_object_start("IncrementalStMan", 5);
        w.put_bool(false);
    }
    let ghost inner = w@;
    w.put_u32(ISM_BUCKET_SIZE);
    w.put_u32(nbucket);
    w.put_u32(0);
    let ghost second = w@;
    w.put_u32(0);
    w.put_u32(0);
    w.put_i32(-1);
    w.put_object_end();
    proof {
        let a1 = aipsio::u32_bytes(big, ISM_BUCKET_SIZE);
        let a2 = aipsio::u32_bytes(big, nbucket);
        let z = aipsio::u32_bytes(big, 0);
        let b3 = aipsio::i32_bytes(big, -1i32 as i32);
        aipsio::lemma_sheet_put3(inner, a1, a2, z);
        aipsio::lemma_sheet_put3(second, z, z, b3);
        aipsio::lemma_sheet_put(inner, a1 + a2 + z, z + z + b3);
        let b = header_numbers(big, count as int);
        if big {
            aipsio::lemma_sheet_object(outer, true, "IncrementalStMan"@, 4, b);
        } else {
            let f = aipsio::bool_bytes(false);
            aipsio::lemma_sheet_put(outer.start(true, "IncrementalStMan"@, 5), f, b);
            aipsio::lemma_sheet_object(outer, true, "IncrementalStMan"@, 5, f + b);
        }
        let all = header_bytes(big, count as int);
        assert(outer.put(all).body =~= all);
    }
    w.into_bytes()
}

pub(crate) fn index_image(big: bool, count: u64, rows: &Vec<u32>, numbers_: &Vec<u32>) -> (r: Vec<u8>)
    ensures
        r@ == aipsio::object_bytes(
            big,
            true,
            "ISMIndex"@,
            1,
            aipsio::u32_bytes(big, bytes::low32(count as int)) + columnset::block_bytes(big, rows@)
                + columnset::block_bytes(big, numbers_@),
        ),
{
    let mut w = writer(big);
    let ghost outer = w@;
    w.put_root_object_start("ISMIndex", 1);
    let ghost inner = w@;
    w.put_u32((count % 0x1_0000_0000) as u32);
    write_block_u32(&mut w, rows.as_slice());
    write_block_u32(&mut w, numbers_.as_slice());
    w.put_object_end();
    proof {
        let a = aipsio::u32_bytes(big, bytes::low32(count as int));
        let b = columnset::block_bytes(big, rows@);
        let c = columnset::block_bytes(big, numbers_@);
        aipsio::lemma_sheet_put3(inner, a, b, c);
        aipsio::lemma_sheet_object(outer, true, "ISMIndex"@, 1, a + b + c);
        let all = aipsio::object_bytes(big, true, "ISMIndex"@, 1, a + b + c);
        assert(outer.put(all).body =~= all);
    }
    w.into_bytes()
}

/// The number of intervals of the first `n` columns.
pub open spec fn total(e: Seq<Entries>, n: nat) -> nat
    decreases n,
{
    if n == 0 {
        0
    } else {
        total(e, (n - 1) as nat) + e[n - 1].starts.len()
    }
}

pub proof fn lemma_total_update(e: Seq<Entries>, c: int, x: Entries, n: nat)
    requires
        0 <= c < e.len(),
        n <= e.len(),
    ensures
        total(e.update(c, x), n) == total(e, n) + if c < n {
            x.starts.len() - e[c].starts.len()
        } else {
            0
        },
    decreases n,
{
    if n > 0 {
        lemma_total_update(e, c, x, (n - 1) as nat);
    }
}

pub proof fn lemma_entries_len(big: bool, e: Seq<Entries>, n: nat)
    requires
        n <= e.len(),
        forall|c: int|
            0 <= c < e.len() ==> (#[trigger] e[c]).starts.len() == e[c].offsets.len(),
    ensures
        all_entries(big, e, n).len() == 4 * n + 8 * total(e, n),
    decreases n,
{
    if n > 0 {
        lemma_entries_len(big, e, (n - 1) as nat);
        lemma_one_entries_len(big, e[n - 1]);
    }
}

pub proof fn lemma_one_entries_len(big: bool, e: Entries)
    requires
        e.starts.len() == e.offsets.len(),
    ensures
        entries_bytes(big, e).len() == 4 + 8 * e.starts.len(),
{
    bytes::lemma_uint_bytes_len(big, bytes::low32(e.starts.len() as int) as nat, 4);
    items::lemma_items_len::<u32>(big, e.starts, e.starts.len());
    items::lemma_items_len::<u32>(big, e.offsets, e.offsets.len());
    let w = <u32 as items::Item>::width();
    let n = e.starts.len();
    assert(n * w == 4 * n) by (nonlinear_arith)
        requires
            w == 4,
    ;
}

/// A row fits a bucket of `size` bytes, with the bucket's offset word and its
/// index.
pub open spec fn row_fits(size: int, cols: Seq<IsmCells>) -> bool {
    4 + 4 * cols.len() + row_bytes(cols, cols.len()) <= size
}

/// Every column has as many offsets as first rows.
spec fn even(d: Draft) -> bool {
    forall|c: int|
        0 <= c < d.entries.len() ==> (#[trigger] d.entries[c]).starts.len()
            == d.entries[c].offsets.len()
}

/// What a draft takes of a bucket, but for the offset word and the counts.
spec fn weight(d: Draft) -> nat {
    d.data.len() + 8 * total(d.entries, d.entries.len())
}

proof fn lemma_row_weight(d: Draft, cols: Seq<IsmCells>, n_rows: u64, start: int, row: int, n: nat)
    requires
        cover_rows(cols, n_rows),
        0 <= row < n_rows,
        n <= cols.len(),
        d.entries.len() == cols.len(),
        even(d),
    ensures
        ({
            let f = with_row(d, cols, start, row, n);
            &&& weight(f) <= weight(d) + row_bytes(cols, n)
            &&& even(f)
            &&& f.entries.len() == cols.len()
        }),
    decreases n,
{
    if n > 0 {
        let m = (n - 1) as nat;
        lemma_row_weight(d, cols, n_rows, start, row, m);
        let before = with_row(d, cols, start, row, m);
        let c = n - 1;
        assert(n_rows * cols[c].cell_size <= cols[c].bytes.len());
        lemma_cell_range(cols[c].cell_size, row, n_rows);
        assert(cols[c].cell(row).len() == cols[c].cell_size);
        let x = Entries {
            starts: before.entries[c].starts.push((row - start) as u32),
            offsets: before.entries[c].offsets.push(before.data.len() as u32),
        };
        lemma_total_update(before.entries, c, x, cols.len());
    }
}

proof fn lemma_draft_weight(cols: Seq<IsmCells>, n_rows: u64, start: int, n: nat)
    requires
        cover_rows(cols, n_rows),
        0 <= start,
        start + n <= n_rows,
    ensures
        ({
            let d = draft(cols, start, n);
            &&& weight(d) <= n * row_bytes(cols, cols.len())
            &&& even(d)
            &&& d.entries.len() == cols.len()
        }),
    decreases n,
{
    let size = row_bytes(cols, cols.len()) as int;
    if n > 0 {
        let m = (n - 1) as nat;
        lemma_draft_weight(cols, n_rows, start, m);
        lemma_row_weight(
            draft(cols, start, m),
            cols,
            n_rows,
            start,
            start + n - 1,
            cols.len(),
        );
        assert(n * size == m * size + size) by (nonlinear_arith)
            requires
                n == m + 1,
        ;
    } else {
        lemma_no_total(draft(cols, start, 0).entries, cols.len());
        assert(0 * size == 0);
    }
}

proof fn lemma_no_total(e: Seq<Entries>, n: nat)
    requires
        n <= e.len(),
        forall|c: int| 0 <= c < e.len() ==> (#[trigger] e[c]).starts.len() == 0,
    ensures
        total(e, n) == 0,
    decreases n,
{
    if n > 0 {
        lemma_no_total(e, (n - 1) as nat);
    }
}

/// As many rows as a bucket is given fit it.
pub proof fn lemma_content_fits(
    big: bool,
    size: int,
    cols: Seq<IsmCells>,
    n_rows: u64,
    start: int,
    n: nat,
)
    requires
        cover_rows(cols, n_rows),
        0 <= start,
        start + n <= n_rows,
        n <= rows_in(size, cols),
        n > 0 ==> row_fits(size, cols),
        size >= 4 + 4 * cols.len(),
    ensures
        bucket_content(big, draft(cols, start, n)).len() <= size,
{
    let d = draft(cols, start, n);
    let row = row_bytes(cols, cols.len()) as int;
    lemma_draft_weight(cols, n_rows, start, n);
    lemma_entries_len(big, d.entries, d.entries.len());
    bytes::lemma_uint_bytes_len(big, bytes::low32(d.data.len() as int + 4) as nat, 4);
    let free = size - 4 - 4 * cols.len();
    if n > 0 {
        if cols.len() == 0 {
            assert(row == 0);
            assert(n * row == 0) by (nonlinear_arith)
                requires
                    row == 0,
            ;
        } else {
            lemma_row_positive(cols, cols.len());
            vstd::arithmetic::div_mod::lemma_fundamental_div_mod(free, row);
            vstd::arithmetic::div_mod::lemma_mod_bound(free, row);
            let q = free / row;
            assert(q >= 1) by (nonlinear_arith)
                requires
                    free == row * q + free % row,
                    0 <= free % row < row,
                    free >= row,
                    row > 0,
            ;
            assert(n * row <= free) by (nonlinear_arith)
                requires
                    free == row * q + free % row,
                    0 <= free % row,
                    n <= q,
                    row > 0,
            ;
        }
    } else {
        assert(0 * row == 0);
    }
}

proof fn lemma_row_positive(cols: Seq<IsmCells>, n: nat)
    requires
        0 < n <= cols.len(),
    ensures
        row_bytes(cols, n) >= 8,
{
}

/// Where the cells cover all rows and a row fits a bucket, every bucket holds
/// its content.
pub proof fn law_file_fits(big: bool, n_rows: u64, cols: Seq<IsmCells>)
    requires
        n_rows + ISM_BUCKET_SIZE <= u64::MAX,
        cover_rows(cols, n_rows),
        n_rows > 0 ==> row_fits(ISM_BUCKET_SIZE as int, cols),
    ensures
        file_fits(big, n_rows, cols),
{
    let p = rows_per_bucket(cols);
    assert forall|b: int| 0 <= b < bucket_count(cols, n_rows) implies bucket_content(
        big,
        #[trigger] bucket_draft(cols, n_rows, b),
    ).len() <= ISM_BUCKET_SIZE by {
        ssmout::lemma_pieces(n_rows as int, p);
        lemma_boundaries(cols, n_rows, b);
        lemma_content_fits(
            big,
            ISM_BUCKET_SIZE as int,
            cols,
            n_rows,
            boundary(cols, n_rows, b),
            (boundary(cols, n_rows, b + 1) - boundary(cols, n_rows, b)) as nat,
        );
    }
}

/// Serialize a complete IncrementalStMan data file, where the cells cover
/// all rows and every bucket holds its content.
pub fn try_write_ism_file(big_endian: bool, n_rows: u64, cols: &[WriteIsmColumn<'_>]) -> (r: Option<
    Vec<u8>,
>)
    ensures
        if file_fits(big_endian, n_rows, ism_cells(cols@)) {
            r matches Some(b) && b@ == file_bytes(big_endian, n_rows, ism_cells(cols@))
        } else {
            r is None
        },
{
    if n_rows > 0xffff_ffff_ffff_ffff - ISM_BUCKET_SIZE as u64 || !rows_covered(cols, n_rows) {
        return None;
    }
    let rows: u64 = ism_rows_per_bucket(ISM_BUCKET_SIZE, cols);
    let count: u64 = piece_count(n_rows, rows);
    let header = header_image(big_endian, count);
    let mut file = resize(header.as_slice(), 512);
    if !push_buckets(&mut file, big_endian, cols, n_rows, rows, count) {
        return None;
    }
    let edges = boundary_list(cols, n_rows, rows, count);
    let nums = number_list(count);
    let index = index_image(big_endian, count, &edges, &nums);
    let ghost so_far = file@;
    file.extend_from_slice(index.as_slice());
    assert(file@ =~= so_far + index@);
    assert(nums@ =~= numbers(ism_cells(cols@), n_rows));
    Some(file)
}

/// Serialize a complete IncrementalStMan data file: the header, the data
/// buckets with interval compression, and the `ISMIndex` at the end.
/// Consecutive rows with identical bytes in a column share one stored value
/// (an interval entry).
pub fn write_ism_file(big_endian: bool, n_rows: u64, cols: &[WriteIsmColumn<'_>]) -> (r: Vec<u8>)
    requires
        n_rows + ISM_BUCKET_SIZE <= u64::MAX,
        cover_rows(ism_cells(cols@), n_rows),
        n_rows > 0 ==> row_fits(ISM_BUCKET_SIZE as int, ism_cells(cols@)),
    ensures
        r@ == file_bytes(big_endian, n_rows, ism_cells(cols@)),
{
    proof {
        law_file_fits(big_endian, n_rows, ism_cells(cols@));
    }
    match try_write_ism_file(big_endian, n_rows, cols) {
        Some(file) => file,
        None => {
            assert(false);
            Vec::new()
        },
    }
}

/// The spec blob of an IncrementalStMan manager.
pub open spec fn blob_bytes(name: Seq<char>) -> Seq<u8> {
    aipsio::object_bytes(true, true, "ISM"@, 3, aipsio::string_bytes(true, name))
}

/// Serialize the IncrementalStMan spec blob stored in `table.dat`: a root
/// `"ISM"` v3 AipsIO stream with the data-manager name. The blob is always
/// canonical big endian.
pub fn write_ism_blob(name: &str) -> (r: Vec<u8>)
    ensures
        r@ == blob_bytes(name@),
{
    let mut w = Writer::new();
    let ghost outer = w@;
    w.put_root_object_start("ISM", 3);
    w.put_string(name);
    w.put_object_end();
    proof {
        aipsio::lemma_sheet_object(outer, true, "ISM"@, 3, aipsio::string_bytes(true, name@));
        assert(outer.put(blob_bytes(name@)).body =~= blob_bytes(name@));
    }
    w.into_bytes()
}

} // verus!
