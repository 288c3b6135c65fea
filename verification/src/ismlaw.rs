//! What reading gives back of a written IncrementalStMan data file.
use crate::aipsio;
use crate::aipsio::Cursor;
use crate::bytes;
use crate::celllaw;
use crate::columnset;
use crate::ism;
use crate::ism::{IsmFault, IsmHeader, IsmIndexModel, IsmModel};
use crate::ismout;
use crate::ismout::{Draft, Entries, IsmCells, ISM_BUCKET_SIZE};
use crate::items;
use crate::recordlaw;
use crate::setlaw;
use crate::ssm;
use crate::ssm::SsmFault;
use crate::ssmcell;
use crate::ssmout;
use crate::tabledesc::ColumnModel;
use vstd::prelude::*;

verus! {

/// The intervals of the first `upto` rows of a column: they cover the rows,
/// and each of them holds the value of all its rows.
#[verifier::opaque]
pub open spec fn faithful(
    e: Entries,
    data: Seq<u8>,
    col: IsmCells,
    start: int,
    upto: int,
) -> bool {
    let n = e.starts.len();
    &&& e.offsets.len() == n
    &&& upto > 0 ==> n > 0 && e.starts[0] == 0
    &&& forall|i: int, j: int| 0 <= i < j < n ==> #[trigger] e.starts[i] < #[trigger] e.starts[j]
    &&& forall|k: int| 0 <= k < n ==> #[trigger] e.starts[k] < upto
    &&& forall|k: int|
        0 <= k < n ==> (#[trigger] e.offsets[k]) + col.cell_size <= data.len() && data.subrange(
            e.offsets[k] as int,
            e.offsets[k] + col.cell_size,
        ) == col.cell(start + e.starts[k])
    &&& forall|k: int, r: int|
        #![trigger e.starts[k], col.cell(start + r)]
        0 <= k < n && e.starts[k] <= r < upto && (k + 1 < n ==> r < e.starts[k + 1]) ==> col.cell(
            start + r,
        ) == col.cell(start + e.starts[k])
}

proof fn lemma_more_data(e: Entries, data: Seq<u8>, x: Seq<u8>, col: IsmCells, start: int, upto: int)
    requires
        faithful(e, data, col, start, upto),
    ensures
        faithful(e, data + x, col, start, upto),
{
    reveal(faithful);
    assert forall|k: int| 0 <= k < e.starts.len() implies (#[trigger] e.offsets[k])
        + col.cell_size <= (data + x).len() && (data + x).subrange(
        e.offsets[k] as int,
        e.offsets[k] + col.cell_size,
    ) == col.cell(start + e.starts[k]) by {
        assert((data + x).subrange(e.offsets[k] as int, e.offsets[k] + col.cell_size)
            =~= data.subrange(e.offsets[k] as int, e.offsets[k] + col.cell_size));
    }
}

proof fn lemma_same_cell(e: Entries, data: Seq<u8>, col: IsmCells, start: int, upto: int)
    requires
        faithful(e, data, col, start, upto),
        upto > 0,
        col.cell(start + upto) == col.cell(start + upto - 1),
    ensures
        faithful(e, data, col, start, upto + 1),
{
    reveal(faithful);
    let n = e.starts.len();
    let last = n - 1;
    assert(e.starts[last] < upto);
    assert(start + upto - 1 == start + (upto - 1));
    assert(col.cell(start + (upto - 1)) == col.cell(start + e.starts[last]));
    assert forall|k: int, r: int|
        #![trigger e.starts[k], col.cell(start + r)]
        0 <= k < n && e.starts[k] <= r < upto + 1 && (k + 1 < n ==> r < e.starts[k + 1]) implies
            col.cell(start + r) == col.cell(start + e.starts[k]) by {
        if r == upto {
            if k + 1 < n {
                assert(e.starts[k + 1] < upto);
            }
        }
    }
}

#[verifier::rlimit(40)]
proof fn lemma_new_cell(e: Entries, data: Seq<u8>, col: IsmCells, start: int, upto: int)
    requires
        faithful(e, data, col, start, upto),
        0 <= upto <= u32::MAX,
        data.len() <= u32::MAX,
        col.cell(start + upto).len() == col.cell_size,
    ensures
        faithful(
            Entries {
                starts: e.starts.push(upto as u32),
                offsets: e.offsets.push(data.len() as u32),
            },
            data + col.cell(start + upto),
            col,
            start,
            upto + 1,
        ),
{
    reveal(faithful);
    let x = col.cell(start + upto);
    let n = e.starts.len();
    let f = Entries {
        starts: e.starts.push(upto as u32),
        offsets: e.offsets.push(data.len() as u32),
    };
    let all = data + x;
    lemma_more_data(e, data, x, col, start, upto);
    if n == 0 {
        assert(upto == 0);
    }
    assert forall|i: int, j: int| 0 <= i < j < n + 1 implies #[trigger] f.starts[i]
        < #[trigger] f.starts[j] by {
        assert(e.starts[i] < upto);
        if j < n {
            assert(e.starts[i] < e.starts[j]);
        }
    }
    assert forall|k: int| 0 <= k < n + 1 implies #[trigger] f.starts[k] < upto + 1 by {
        if k < n {
            assert(e.starts[k] < upto);
        }
    }
    assert forall|k: int| 0 <= k < n + 1 implies (#[trigger] f.offsets[k]) + col.cell_size
        <= all.len() && all.subrange(f.offsets[k] as int, f.offsets[k] + col.cell_size)
        == col.cell(start + f.starts[k]) by {
        if k < n {
            assert(e.offsets[k] + col.cell_size <= all.len());
        } else {
            assert(all.subrange(data.len() as int, data.len() + col.cell_size) =~= x);
        }
    }
    assert forall|k: int, r: int|
        #![trigger f.starts[k], col.cell(start + r)]
        0 <= k < n + 1 && f.starts[k] <= r < upto + 1 && (k + 1 < n + 1 ==> r < f.starts[k + 1])
        implies col.cell(start + r) == col.cell(start + f.starts[k]) by {
        if k < n {
            assert(f.starts[k] == e.starts[k]);
            if k + 1 < n {
                assert(f.starts[k + 1] == e.starts[k + 1]);
            }
        }
    }
}

/// The intervals of all columns: those of the first `n` columns cover
/// `upto + 1` rows, the others `upto` rows.
spec fn all_faithful(d: Draft, cols: Seq<IsmCells>, start: int, upto: int, n: nat) -> bool {
    &&& d.entries.len() == cols.len()
    &&& forall|c: int|
        0 <= c < cols.len() ==> faithful(
            #[trigger] d.entries[c],
            d.data,
            cols[c],
            start,
            if c < n {
                upto + 1
            } else {
                upto
            },
        )
}

proof fn lemma_cell_len(col: IsmCells, n_rows: u64, row: int)
    requires
        n_rows * col.cell_size <= col.bytes.len(),
        0 <= row < n_rows,
    ensures
        col.cell(row).len() == col.cell_size,
{
    ismout::lemma_cell_range(col.cell_size, row, n_rows);
}

#[verifier::rlimit(40)]
proof fn lemma_row_faithful(
    d: Draft,
    cols: Seq<IsmCells>,
    n_rows: u64,
    start: int,
    upto: int,
    n: nat,
)
    requires
        ismout::cover_rows(cols, n_rows),
        0 <= start,
        0 <= upto <= u32::MAX,
        start + upto < n_rows,
        n <= cols.len(),
        all_faithful(d, cols, start, upto, 0),
        ismout::with_row(d, cols, start, start + upto, n).data.len() <= u32::MAX,
    ensures
        all_faithful(
            ismout::with_row(d, cols, start, start + upto, n),
            cols,
            start,
            upto,
            n,
        ),
    decreases n,
{
    if n > 0 {
        let m = (n - 1) as nat;
        let row = start + upto;
        let c = n - 1;
        let before = ismout::with_row(d, cols, start, row, m);
        let after = ismout::with_row(d, cols, start, row, n);
        ismout::lemma_row_grows(d, cols, start, row, m, n);
        lemma_row_faithful(d, cols, n_rows, start, upto, m);
        lemma_cell_len(cols[c], n_rows, row);
        let x = cols[c].cell(row);
        assert(faithful(before.entries[c], before.data, cols[c], start, upto));
        if row > start && x == cols[c].cell(row - 1) {
            lemma_same_cell(before.entries[c], before.data, cols[c], start, upto);
            assert forall|i: int| 0 <= i < cols.len() implies faithful(
                #[trigger] after.entries[i],
                after.data,
                cols[i],
                start,
                if i < n {
                    upto + 1
                } else {
                    upto
                },
            ) by {
                assert(after == before);
                assert(faithful(
                    before.entries[i],
                    before.data,
                    cols[i],
                    start,
                    if i < m {
                        upto + 1
                    } else {
                        upto
                    },
                ));
            }
        } else {
            lemma_new_cell(before.entries[c], before.data, cols[c], start, upto);
            assert forall|i: int| 0 <= i < cols.len() implies faithful(
                #[trigger] after.entries[i],
                after.data,
                cols[i],
                start,
                if i < n {
                    upto + 1
                } else {
                    upto
                },
            ) by {
                if i != c {
                    let u = if i < m {
                        upto + 1
                    } else {
                        upto
                    };
                    assert(after.entries[i] == before.entries[i]);
                    assert(faithful(before.entries[i], before.data, cols[i], start, u));
                    lemma_more_data(before.entries[i], before.data, x, cols[i], start, u);
                }
            }
        }
    }
}

proof fn lemma_draft_all(cols: Seq<IsmCells>, n_rows: u64, start: int, n: nat)
    requires
        ismout::cover_rows(cols, n_rows),
        0 <= start,
        start + n <= n_rows,
        n <= u32::MAX,
        ismout::draft(cols, start, n).data.len() <= u32::MAX,
    ensures
        all_faithful(ismout::draft(cols, start, n), cols, start, n as int, 0),
    decreases n,
{
    let d = ismout::draft(cols, start, n);
    if n > 0 {
        let m = (n - 1) as nat;
        ismout::lemma_draft_grows(cols, start, m, n);
        lemma_draft_all(cols, n_rows, start, m);
        assert(start + n - 1 == start + m);
        lemma_row_faithful(
            ismout::draft(cols, start, m),
            cols,
            n_rows,
            start,
            m as int,
            cols.len(),
        );
        assert forall|c: int| 0 <= c < cols.len() implies faithful(
            #[trigger] d.entries[c],
            d.data,
            cols[c],
            start,
            n as int,
        ) by {}
    } else {
        reveal(faithful);
    }
}

proof fn lemma_row_total(d: Draft, cols: Seq<IsmCells>, n_rows: u64, start: int, row: int, n: nat)
    requires
        ismout::cover_rows(cols, n_rows),
        forall|c: int| 0 <= c < cols.len() ==> (#[trigger] cols[c]).cell_size <= 16,
        0 <= row < n_rows,
        n <= cols.len(),
        d.entries.len() == cols.len(),
        d.data.len() <= 16 * ismout::total(d.entries, cols.len()),
    ensures
        ({
            let f = ismout::with_row(d, cols, start, row, n);
            f.data.len() <= 16 * ismout::total(f.entries, cols.len())
        }),
    decreases n,
{
    if n > 0 {
        let m = (n - 1) as nat;
        lemma_row_total(d, cols, n_rows, start, row, m);
        ismout::lemma_row_grows(d, cols, start, row, m, m);
        let before = ismout::with_row(d, cols, start, row, m);
        let c = n - 1;
        lemma_cell_len(cols[c], n_rows, row);
        ismout::lemma_total_update(
            before.entries,
            c,
            Entries {
                starts: before.entries[c].starts.push((row - start) as u32),
                offsets: before.entries[c].offsets.push(before.data.len() as u32),
            },
            cols.len(),
        );
    }
}

proof fn lemma_draft_total(cols: Seq<IsmCells>, n_rows: u64, start: int, n: nat)
    requires
        ismout::cover_rows(cols, n_rows),
        forall|c: int| 0 <= c < cols.len() ==> (#[trigger] cols[c]).cell_size <= 16,
        0 <= start,
        start + n <= n_rows,
    ensures
        ({
            let f = ismout::draft(cols, start, n);
            f.data.len() <= 16 * ismout::total(f.entries, cols.len()) && f.entries.len() == cols.len()
        }),
    decreases n,
{
    ismout::lemma_draft_grows(cols, start, n, n);
    if n > 0 {
        let m = (n - 1) as nat;
        lemma_draft_total(cols, n_rows, start, m);
        lemma_row_total(
            ismout::draft(cols, start, m),
            cols,
            n_rows,
            start,
            start + n - 1,
            cols.len(),
        );
    }
}

/// The intervals of column `c` stand among the others.
proof fn lemma_entries_place(big: bool, e: Seq<Entries>, n: nat, c: int)
    requires
        0 <= c < n <= e.len(),
    ensures
        ({
            let all = ismout::all_entries(big, e, n);
            let from = ismout::all_entries(big, e, c as nat).len() as int;
            let one = ismout::entries_bytes(big, e[c]);
            from + one.len() <= all.len() && all.subrange(from, from + one.len()) == one
        }),
    decreases n,
{
    let all = ismout::all_entries(big, e, n);
    let before = ismout::all_entries(big, e, (n - 1) as nat);
    let from = ismout::all_entries(big, e, c as nat).len() as int;
    let one = ismout::entries_bytes(big, e[c]);
    if c == n - 1 {
        assert(all.subrange(from, from + one.len()) =~= one);
    } else {
        lemma_entries_place(big, e, (n - 1) as nat, c);
        assert(all.subrange(from, from + one.len()) =~= before.subrange(from, from + one.len()));
    }
}

/// Where the index of column `k` stands in a bucket.
spec fn entries_at(big: bool, d: Draft, k: nat) -> int {
    (4 + d.data.len() + ismout::all_entries(big, d.entries, k).len()) as int
}

/// Every column has as many first rows as offsets.
spec fn paired(d: Draft) -> bool {
    forall|c: int|
        0 <= c < d.entries.len() ==> (#[trigger] d.entries[c]).starts.len()
            == d.entries[c].offsets.len()
}

/// The content of a bucket stands in it.
proof fn lemma_content(big: bool, size: int, d: Draft, b: Seq<u8>, c: int)
    requires
        84 <= size <= 0x0fff_ffff,
        paired(d),
        ismout::bucket_content(big, d).len() <= size,
        b == bytes::resized(ismout::bucket_content(big, d), size as nat),
        0 <= c < d.entries.len(),
    ensures
        b.len() == size,
        ssm::u32_in(b, 0, big) == Ok::<u32, SsmFault>((d.data.len() + 4) as u32),
        d.data.len() + 4 <= size,
        b.subrange(4, 4 + d.data.len() as int) == d.data,
        (Cursor { data: b, big, pos: entries_at(big, d, c as nat) }).holds(
            ismout::entries_bytes(big, d.entries[c]),
        ),
{
    let content = ismout::bucket_content(big, d);
    let n = (d.data.len() + 4) as u32;
    let a = aipsio::u32_bytes(big, bytes::low32(d.data.len() as int + 4));
    let all = ismout::all_entries(big, d.entries, d.entries.len());
    let one = ismout::entries_bytes(big, d.entries[c]);
    let from = ismout::all_entries(big, d.entries, c as nat).len() as int;
    let at = entries_at(big, d, c as nat);
    bytes::lemma_spans();
    bytes::lemma_uint_bytes_len(big, bytes::low32(d.data.len() as int + 4) as nat, 4);
    bytes::law_uint_round_trip(big, n as nat, 4);
    lemma_entries_place(big, d.entries, d.entries.len(), c);
    assert(b.subrange(0, 4) =~= a);
    assert(b.subrange(4, 4 + d.data.len() as int) =~= d.data);
    assert(b.subrange(at, at + one.len()) =~= all.subrange(from, from + one.len()));
}

/// The parts of a column's index are found where they stand.
proof fn lemma_entries_in(b: Seq<u8>, p: int, big: bool, e: Entries)
    requires
        0 <= p,
        e.starts.len() == e.offsets.len(),
        e.starts.len() <= u32::MAX,
        (Cursor { data: b, big, pos: p }).holds(ismout::entries_bytes(big, e)),
    ensures
        ssm::u32_in(b, p, big) == Ok::<u32, SsmFault>(e.starts.len() as u32),
        ism::entries_in(b, p, false, big) == Some((ssm::widened(e.starts), e.offsets)),
{
    let c = Cursor { data: b, big, pos: p };
    let n = e.starts.len();
    let x = aipsio::u32_bytes(big, bytes::low32(n as int));
    let y = items::items_bytes::<u32>(big, e.starts, n);
    let z = items::items_bytes::<u32>(big, e.offsets, n);
    bytes::lemma_uint_bytes_len(big, bytes::low32(n as int) as nat, 4);
    items::lemma_items_len::<u32>(big, e.starts, n);
    items::lemma_items_len::<u32>(big, e.offsets, n);
    aipsio::lemma_holds_concat(c, x + y, z);
    aipsio::lemma_holds_concat(c, x, y);
    celllaw::lemma_u32_in(b, p, big, n as u32);
    let q = p + 4 + n * 4;
    assert(c.skip(4) == Cursor { data: b, big, pos: p + 4 });
    assert(c.skip((x + y).len() as int) == Cursor { data: b, big, pos: q });
    items::lemma_items_split::<u32>(big, e.starts, 0);
    assert(y =~= items::items_rest::<u32>(big, e.starts, 0));
    celllaw::lemma_dims(b, p + 4, big, e.starts, 0, Seq::empty());
    assert(Seq::<u32>::empty() + e.starts.subrange(0, n as int) =~= e.starts);
    items::lemma_items_split::<u32>(big, e.offsets, 0);
    assert(z =~= items::items_rest::<u32>(big, e.offsets, 0));
    celllaw::lemma_dims(b, q, big, e.offsets, 0, Seq::empty());
    assert(Seq::<u32>::empty() + e.offsets.subrange(0, n as int) =~= e.offsets);
}

proof fn lemma_place(big: bool, size: int, d: Draft, b: Seq<u8>, k: nat, column: nat)
    requires
        84 <= size <= 0x0fff_ffff,
        paired(d),
        ismout::bucket_content(big, d).len() <= size,
        b == bytes::resized(ismout::bucket_content(big, d), size as nat),
        k <= column < d.entries.len(),
    ensures
        ism::entries_place(
            b,
            entries_at(big, d, k),
            (column - k) as nat,
            false,
            big,
        ) == Some(entries_at(big, d, column)),
    decreases column - k,
{
    if k < column {
        let e = d.entries[k as int];
        lemma_content(big, size, d, b, k as int);
        ismout::lemma_one_entries_len(big, e);
        assert(e.starts.len() <= u32::MAX);
        lemma_entries_in(b, entries_at(big, d, k), big, e);
        lemma_place(big, size, d, b, k + 1, column);
        assert(entries_at(big, d, k + 1) == entries_at(big, d, k) + 4 + e.starts.len() * 8);
    }
}

/// The intervals of a column are found in its bucket.
#[verifier::spinoff_prover]
#[verifier::rlimit(60)]
proof fn lemma_column_entries(big: bool, size: int, d: Draft, b: Seq<u8>, column: nat)
    requires
        84 <= size <= 0x0fff_ffff,
        paired(d),
        ismout::bucket_content(big, d).len() <= size,
        b == bytes::resized(ismout::bucket_content(big, d), size as nat),
        column < d.entries.len(),
    ensures
        ism::column_entries(b, column, big) == Some(
            (
                ssm::widened(d.entries[column as int].starts),
                d.entries[column as int].offsets,
            ),
        ),
{
    let e = d.entries[column as int];
    lemma_content(big, size, d, b, column as int);
    ismout::lemma_one_entries_len(big, e);
    lemma_entries_in(b, entries_at(big, d, column), big, e);
    lemma_place(big, size, d, b, 0, column);
    assert(ismout::all_entries(big, d.entries, 0).len() == 0);
    assert(entries_at(big, d, 0) == d.data.len() + 4);
}

/// The cell of a row is found in its bucket.
#[verifier::spinoff_prover]
#[verifier::rlimit(60)]
pub proof fn lemma_bucket_cell(
    big: bool,
    size: int,
    cols: Seq<IsmCells>,
    n_rows: u64,
    start: int,
    n: nat,
    c: int,
    r: u64,
)
    requires
        84 <= size <= 0x0fff_ffff,
        ismout::cover_rows(cols, n_rows),
        forall|c: int| 0 <= c < cols.len() ==> (#[trigger] cols[c]).cell_size <= 16,
        0 <= start,
        start + n <= n_rows,
        n <= u32::MAX,
        ismout::bucket_content(big, ismout::draft(cols, start, n)).len() <= size,
        0 <= c < cols.len(),
        r < n,
    ensures
        ({
            let b = bytes::resized(
                ismout::bucket_content(big, ismout::draft(cols, start, n)),
                size as nat,
            );
            &&& ism::column_entries(b, c as nat, big) matches Some((rows, offsets))
                && ism::interval(rows, r) matches Some(i) && {
                &&& 4 + offsets[i] + 32 <= b.len()
                &&& b.subrange(4 + offsets[i], 4 + offsets[i] + cols[c].cell_size)
                    == cols[c].cell(start + r)
            }
        }),
{
    let d = ismout::draft(cols, start, n);
    let b = bytes::resized(ismout::bucket_content(big, d), size as nat);
    let e = d.entries[c];
    let cs = cols[c].cell_size as int;
    ismout::lemma_draft_grows(cols, start, n, n);
    assert(d.data.len() <= u32::MAX);
    lemma_draft_all(cols, n_rows, start, n);
    assert(paired(d)) by {
        reveal(faithful);
        assert forall|c: int| 0 <= c < d.entries.len() implies (#[trigger] d.entries[c]).starts.len()
            == d.entries[c].offsets.len() by {
            assert(faithful(d.entries[c], d.data, cols[c], start, n as int));
        }
    }
    lemma_content(big, size, d, b, c);
    lemma_column_entries(big, size, d, b, c as nat);
    assert(faithful(e, d.data, cols[c], start, n as int));
    let k = lemma_covering(e, d.data, cols[c], start, n as int, r as int);
    let rows = ssm::widened(e.starts);
    reveal(faithful);
    assert(ism::increasing(rows)) by {
        assert forall|i: int, j: int| 0 <= i < j < rows.len() implies #[trigger] rows[i]
            < #[trigger] rows[j] by {
            assert(e.starts[i] < e.starts[j]);
        }
    }
    assert(rows[k] == e.starts[k]);
    if k + 1 < e.starts.len() {
        assert(rows[k + 1] == e.starts[k + 1]);
    }
    ism::law_interval(rows, r, k);
    let off = e.offsets[k] as int;
    assert(off + cs <= d.data.len());
    lemma_room(big, size, cols, n_rows, start, n, off + cs, cs);
    assert(b.subrange(4 + off, 4 + off + cs) =~= b.subrange(
        4,
        4 + d.data.len() as int,
    ).subrange(off, off + cs));
}

/// Every row lies in an interval.
proof fn lemma_covering(
    e: Entries,
    data: Seq<u8>,
    col: IsmCells,
    start: int,
    upto: int,
    r: int,
) -> (k: int)
    requires
        faithful(e, data, col, start, upto),
        0 <= r < upto,
    ensures
        0 <= k < e.starts.len(),
        e.starts[k] <= r,
        k + 1 < e.starts.len() ==> r < e.starts[k + 1],
        col.cell(start + r) == col.cell(start + e.starts[k]),
{
    reveal(faithful);
    let k = lemma_covering_from(e.starts, r, 0);
    assert(col.cell(start + r) == col.cell(start + e.starts[k]));
    k
}

proof fn lemma_covering_from(starts: Seq<u32>, r: int, i: int) -> (k: int)
    requires
        0 <= i < starts.len(),
        starts[i] <= r,
    ensures
        0 <= k < starts.len(),
        starts[k] <= r,
        k + 1 < starts.len() ==> r < starts[k + 1],
    decreases starts.len() - i,
{
    if i + 1 < starts.len() && starts[i + 1] <= r {
        lemma_covering_from(starts, r, i + 1)
    } else {
        i
    }
}

/// The bytes after a cell leave room for the longest cell.
proof fn lemma_room(
    big: bool,
    size: int,
    cols: Seq<IsmCells>,
    n_rows: u64,
    start: int,
    n: nat,
    end: int,
    cs: int,
)
    requires
        84 <= size <= 0x0fff_ffff,
        ismout::cover_rows(cols, n_rows),
        forall|c: int| 0 <= c < cols.len() ==> (#[trigger] cols[c]).cell_size <= 16,
        0 <= start,
        start + n <= n_rows,
        paired(ismout::draft(cols, start, n)),
        ismout::bucket_content(big, ismout::draft(cols, start, n)).len() <= size,
        0 <= cs <= end <= ismout::draft(cols, start, n).data.len(),
    ensures
        4 + (end - cs) + 32 <= size,
{
    let d = ismout::draft(cols, start, n);
    lemma_draft_total(cols, n_rows, start, n);
    ismout::lemma_entries_len(big, d.entries, cols.len());
    bytes::lemma_uint_bytes_len(big, bytes::low32(d.data.len() as int + 4) as nat, 4);
    let k = ismout::total(d.entries, cols.len());
    assert(ismout::bucket_content(big, d).len() == 4 + d.data.len() + 4 * cols.len() + 8 * k);
    if k < 4 {
        assert(d.data.len() <= 48);
    }
}

/// The header of a written file.
pub open spec fn written_header(big: bool, nbucket: int) -> IsmHeader {
    IsmHeader {
        version: if big {
            4
        } else {
            5
        },
        big_endian: big,
        bucket_size: ISM_BUCKET_SIZE,
        nbucket: bytes::low32(nbucket),
        pers_cache_size: 0,
        uniq_nr: 0,
        n_free_bucket: 0,
        first_free_bucket: -1i32 as i32,
    }
}

#[verifier::rlimit(40)]
proof fn lemma_numbers(c: Cursor, nbucket: int, version: u32)
    requires
        0 <= c.pos,
        c.holds(ismout::header_numbers(c.big, nbucket)),
    ensures
        ismout::header_numbers(c.big, nbucket).len() == 24,
        ism::numbers_at(c, version) matches Ok((h, _)) && h == (IsmHeader {
            version,
            ..written_header(c.big, nbucket)
        }),
{
    reveal(ism::numbers_at);
    let big = c.big;
    let n = bytes::low32(nbucket);
    let a1 = aipsio::u32_bytes(big, ISM_BUCKET_SIZE);
    let a2 = aipsio::u32_bytes(big, n);
    let z = aipsio::u32_bytes(big, 0);
    let b3 = aipsio::i32_bytes(big, -1i32 as i32);
    bytes::lemma_uint_bytes_len(big, ISM_BUCKET_SIZE as nat, 4);
    bytes::lemma_uint_bytes_len(big, n as nat, 4);
    bytes::lemma_uint_bytes_len(big, 0, 4);
    bytes::lemma_uint_bytes_len(big, bytes::pattern32(-1i32 as i32) as nat, 4);
    aipsio::lemma_holds_concat(c, a1 + a2 + z, z + z + b3);
    aipsio::lemma_holds_concat(c, a1 + a2, z);
    aipsio::lemma_holds_concat(c, a1, a2);
    let d = c.skip(12);
    aipsio::lemma_holds_concat(d, z + z, b3);
    aipsio::lemma_holds_concat(d, z, z);
    aipsio::law_u32_round_trip(c, ISM_BUCKET_SIZE);
    aipsio::law_u32_round_trip(c.skip(4), n);
    aipsio::law_u32_round_trip(c.skip(8), 0);
    aipsio::law_u32_round_trip(d, 0);
    aipsio::law_u32_round_trip(d.skip(4), 0);
    aipsio::law_i32_round_trip(d.skip(8), -1i32 as i32);
    assert(c.skip(4).skip(4) == c.skip(8));
    assert(c.skip(8).skip(4) == d);
    assert(d.skip(4).skip(4) == d.skip(8));
}

proof fn lemma_header_len(big: bool, nbucket: int)
    ensures
        ismout::header_bytes(big, nbucket).len() <= 100,
{
    let c = Cursor { data: ismout::header_numbers(big, nbucket), big, pos: 0 };
    assert(c.data.subrange(0, c.data.len() as int) =~= c.data);
    lemma_numbers(c, nbucket, 0);
    reveal_strlit("IncrementalStMan");
    vstd::utf8::is_ascii_chars_encode_utf8("IncrementalStMan"@);
    let version = written_header(big, nbucket).version;
    let len = if big {
        24int
    } else {
        25int
    };
    bytes::lemma_uint_bytes_len(big, aipsio::MAGIC as nat, 4);
    bytes::lemma_uint_bytes_len(big, version as nat, 4);
    bytes::lemma_uint_bytes_len(big, bytes::low32(16) as nat, 4);
    bytes::lemma_uint_bytes_len(big, bytes::low32(12 + 16 + len) as nat, 4);
}

proof fn lemma_header(data: Seq<u8>, big: bool, nbucket: int)
    requires
        ({
            let h = ismout::header_bytes(big, nbucket);
            h.len() <= data.len() && data.subrange(0, h.len() as int) == h
        }),
    ensures
        ism::header_of(data, big) == Ok::<IsmHeader, IsmFault>(written_header(big, nbucket)),
{
    let c = Cursor { data, big, pos: 0 };
    let h = ismout::header_bytes(big, nbucket);
    assert(c.holds(h));
    reveal_strlit("IncrementalStMan");
    vstd::utf8::is_ascii_chars_encode_utf8("IncrementalStMan"@);
    let b = ismout::header_numbers(big, nbucket);
    if big {
        aipsio::law_object_round_trip(c, true, "IncrementalStMan"@, 4, b);
        let (head, d) = c.object_start(true)->Ok_0;
        lemma_numbers(d, nbucket, 4);
    } else {
        let f = aipsio::bool_bytes(false);
        aipsio::law_object_round_trip(c, true, "IncrementalStMan"@, 5, f + b);
        let (head, d) = c.object_start(true)->Ok_0;
        aipsio::lemma_holds_concat(d, f, b);
        aipsio::law_bool_round_trip(d, false);
        lemma_numbers(d.skip(1), nbucket, 5);
    }
}

proof fn lemma_block(c: Cursor, s: Seq<u32>)
    requires
        0 <= c.pos,
        s.len() <= u32::MAX,
        c.holds(columnset::block_bytes(c.big, s)),
    ensures
        ism::bucket_numbers_at(c) == Ok::<(Seq<u32>, Cursor), (IsmFault, Cursor)>(
            (s, c.skip(columnset::block_bytes(c.big, s).len() as int)),
        ),
        ism::boundaries_at(c, 1) == Ok::<(Seq<u64>, Cursor), (IsmFault, Cursor)>(
            (ssm::widened(s), c.skip(columnset::block_bytes(c.big, s).len() as int)),
        ),
{
    let big = c.big;
    let n = bytes::low32(s.len() as int);
    let head = aipsio::u32_bytes(big, n);
    let body = columnset::u32s_bytes(big, s, s.len());
    reveal_strlit("Block");
    vstd::utf8::is_ascii_chars_encode_utf8("Block"@);
    aipsio::law_object_round_trip(c, false, "Block"@, 1, head + body);
    let (h, d) = c.object_start(false)->Ok_0;
    aipsio::lemma_holds_concat(d, head, body);
    bytes::lemma_uint_bytes_len(big, n as nat, 4);
    aipsio::law_u32_round_trip(d, n);
    setlaw::law_u32s_round_trip(d.skip(4), s);
    setlaw::lemma_u32s_len(big, s, s.len());
}

#[verifier::spinoff_prover]
#[verifier::rlimit(80)]
pub proof fn lemma_index_object(c: Cursor, count: u32, rows: Seq<u32>, numbers: Seq<u32>)
    requires
        0 <= c.pos,
        rows.len() <= u32::MAX,
        numbers.len() == count,
        c.holds(
            aipsio::object_bytes(
                c.big,
                true,
                "ISMIndex"@,
                1,
                aipsio::u32_bytes(c.big, count) + columnset::block_bytes(c.big, rows)
                    + columnset::block_bytes(c.big, numbers),
            ),
        ),
    ensures
        ism::index_at(c) matches Ok((m, _)) && m == (IsmIndexModel {
            rows: ssm::widened(rows),
            bucket_numbers: numbers,
        }),
{
    reveal(ism::index_at);
    let big = c.big;
    let a = aipsio::u32_bytes(big, count);
    let b = columnset::block_bytes(big, rows);
    let e = columnset::block_bytes(big, numbers);
    bytes::lemma_uint_bytes_len(big, count as nat, 4);
    reveal_strlit("ISMIndex");
    vstd::utf8::is_ascii_chars_encode_utf8("ISMIndex"@);
    aipsio::law_object_round_trip(c, true, "ISMIndex"@, 1, a + b + e);
    let (h, d) = c.object_start(true)->Ok_0;
    aipsio::lemma_holds_concat(d, a + b, e);
    aipsio::lemma_holds_concat(d, a, b);
    aipsio::law_u32_round_trip(d, count);
    lemma_block(d.skip(4), rows);
    let d2 = d.skip(4).skip(b.len() as int);
    assert(d.skip((a + b).len() as int) == d2);
    lemma_block(d2, numbers);
}

/// Bucket `b` stands at its place among the buckets.
proof fn lemma_buckets_place(big: bool, cols: Seq<IsmCells>, n_rows: u64, n: nat, b: int)
    ensures
        ismout::buckets_bytes(big, cols, n_rows, n).len() == n * ISM_BUCKET_SIZE,
        0 <= b < n ==> ismout::buckets_bytes(big, cols, n_rows, n).subrange(
            b * ISM_BUCKET_SIZE,
            b * ISM_BUCKET_SIZE + ISM_BUCKET_SIZE,
        ) == bytes::resized(
            ismout::bucket_content(big, ismout::bucket_draft(cols, n_rows, b)),
            ISM_BUCKET_SIZE as nat,
        ),
    decreases n,
{
    if n > 0 {
        let m = (n - 1) as nat;
        lemma_buckets_place(big, cols, n_rows, m, b);
        let all = ismout::buckets_bytes(big, cols, n_rows, n);
        let before = ismout::buckets_bytes(big, cols, n_rows, m);
        let last = bytes::resized(
            ismout::bucket_content(big, ismout::bucket_draft(cols, n_rows, n - 1)),
            ISM_BUCKET_SIZE as nat,
        );
        if b == n - 1 {
            assert(all.subrange(b * ISM_BUCKET_SIZE, b * ISM_BUCKET_SIZE + ISM_BUCKET_SIZE)
                =~= last);
        } else if 0 <= b < m {
            assert(all.subrange(b * ISM_BUCKET_SIZE, b * ISM_BUCKET_SIZE + ISM_BUCKET_SIZE)
                =~= before.subrange(b * ISM_BUCKET_SIZE, b * ISM_BUCKET_SIZE + ISM_BUCKET_SIZE));
        }
    }
}

/// The row boundaries and their number fit the 32-bit index.
pub open spec fn indexable(n_rows: u64, cols: Seq<IsmCells>) -> bool {
    n_rows <= u32::MAX && ismout::bucket_count(cols, n_rows) < u32::MAX
}

/// The index of a written file.
pub open spec fn written_index(n_rows: u64, cols: Seq<IsmCells>) -> IsmIndexModel {
    IsmIndexModel {
        rows: ssm::widened(ismout::boundaries(cols, n_rows)),
        bucket_numbers: ismout::numbers(cols, n_rows),
    }
}

/// What parsing a written file gives.
pub open spec fn written_model(big: bool, n_rows: u64, cols: Seq<IsmCells>) -> IsmModel {
    IsmModel {
        header: written_header(big, ismout::bucket_count(cols, n_rows)),
        index: written_index(n_rows, cols),
        data: ismout::file_bytes(big, n_rows, cols),
    }
}

proof fn lemma_some_rows(cols: Seq<IsmCells>)
    ensures
        1 <= ismout::rows_per_bucket(cols) <= ISM_BUCKET_SIZE,
{
    let free = ISM_BUCKET_SIZE - 4 - 4 * cols.len();
    if cols.len() > 0 && free > 0 {
        let size = ismout::row_bytes(cols, cols.len()) as int;
        assert(size >= 8);
        vstd::arithmetic::div_mod::lemma_div_is_ordered_by_denominator(free, 1, size);
    }
}

/// The parts of a written file.
#[verifier::rlimit(40)]
proof fn lemma_file_parts(big: bool, n_rows: u64, cols: Seq<IsmCells>, b: u32)
    requires
        indexable(n_rows, cols),
    ensures
        ({
            let file = ismout::file_bytes(big, n_rows, cols);
            let count = ismout::bucket_count(cols, n_rows);
            let at = ssm::bucket_start(ISM_BUCKET_SIZE, count as u32);
            let h = ismout::header_bytes(big, count);
            &&& 0 <= count <= n_rows
            &&& h.len() <= file.len() && file.subrange(0, h.len() as int) == h
            &&& at <= file.len() && file.subrange(at, file.len() as int) == ismout::index_bytes(
                big,
                cols,
                n_rows,
            )
            &&& b < count ==> ssm::bucket_of(file, ISM_BUCKET_SIZE, b) == Some(
                bytes::resized(
                    ismout::bucket_content(big, ismout::bucket_draft(cols, n_rows, b as int)),
                    ISM_BUCKET_SIZE as nat,
                ),
            )
        }),
{
    let file = ismout::file_bytes(big, n_rows, cols);
    let count = ismout::bucket_count(cols, n_rows);
    lemma_some_rows(cols);
    ssmout::lemma_pieces(n_rows as int, ismout::rows_per_bucket(cols));
    lemma_header_len(big, count);
    lemma_buckets_place(big, cols, n_rows, count as nat, b as int);
    let h = ismout::header_bytes(big, count);
    let x = bytes::resized(h, ssm::DATA_START as nat);
    let y = ismout::buckets_bytes(big, cols, n_rows, count as nat);
    let z = ismout::index_bytes(big, cols, n_rows);
    let at = ssm::bucket_start(ISM_BUCKET_SIZE, count as u32);
    assert(file =~= x + y + z);
    assert(file.subrange(0, h.len() as int) =~= h);
    assert(file.subrange(at, file.len() as int) =~= z);
    if b < count {
        let p = ssm::bucket_start(ISM_BUCKET_SIZE, b);
        assert(file.subrange(p, p + ISM_BUCKET_SIZE) =~= y.subrange(
            b * ISM_BUCKET_SIZE,
            b * ISM_BUCKET_SIZE + ISM_BUCKET_SIZE,
        ));
    }
}

/// The index of a written file is read back.
#[verifier::spinoff_prover]
#[verifier::rlimit(60)]
proof fn lemma_index_parsed(big: bool, n_rows: u64, cols: Seq<IsmCells>, z: Seq<u8>)
    requires
        indexable(n_rows, cols),
        0 <= ismout::bucket_count(cols, n_rows),
        z == ismout::index_bytes(big, cols, n_rows),
    ensures
        ism::index_at(Cursor { data: z, big, pos: 0 }) matches Ok((m, _)) && m == written_index(
            n_rows,
            cols,
        ),
{
    let c = Cursor { data: z, big, pos: 0 };
    assert(z.subrange(0, z.len() as int) =~= z);
    lemma_index_object(
        c,
        bytes::low32(ismout::bucket_count(cols, n_rows)),
        ismout::boundaries(cols, n_rows),
        ismout::numbers(cols, n_rows),
    );
}

proof fn lemma_parsed(data: Seq<u8>, big: bool, header: IsmHeader, index: IsmIndexModel, at: int)
    requires
        ism::header_of(data, big) == Ok::<IsmHeader, IsmFault>(header),
        header.big_endian == big,
        at == ssm::bucket_start(header.bucket_size, header.nbucket),
        at <= data.len(),
        ism::index_at(
            Cursor { data: data.subrange(at, data.len() as int), big, pos: 0 },
        ) matches Ok((m, _)) && m == index,
    ensures
        ism::parsed(data, big) == Ok::<IsmModel, IsmFault>(IsmModel { header, index, data }),
{
}

/// A file with the parts of a written one parses.
#[verifier::spinoff_prover]
#[verifier::rlimit(60)]
proof fn lemma_parts_parsed(
    file: Seq<u8>,
    big: bool,
    n_rows: u64,
    cols: Seq<IsmCells>,
    count: int,
    h: Seq<u8>,
    z: Seq<u8>,
    at: int,
)
    requires
        indexable(n_rows, cols),
        count == ismout::bucket_count(cols, n_rows),
        0 <= count,
        h == ismout::header_bytes(big, count),
        h.len() <= file.len(),
        file.subrange(0, h.len() as int) == h,
        z == ismout::index_bytes(big, cols, n_rows),
        at == ssm::bucket_start(ISM_BUCKET_SIZE, count as u32),
        at <= file.len(),
        file.subrange(at, file.len() as int) == z,
    ensures
        ism::parsed(file, big) == Ok::<IsmModel, IsmFault>(
            IsmModel {
                header: written_header(big, count),
                index: written_index(n_rows, cols),
                data: file,
            },
        ),
{
    lemma_header(file, big, count);
    lemma_index_parsed(big, n_rows, cols, z);
    lemma_parsed(file, big, written_header(big, count), written_index(n_rows, cols), at);
}

/// A written file parses, with the index that was written.
#[verifier::spinoff_prover]
#[verifier::rlimit(60)]
pub proof fn law_file_parsed(big: bool, n_rows: u64, cols: Seq<IsmCells>)
    requires
        indexable(n_rows, cols),
    ensures
        ism::parsed(ismout::file_bytes(big, n_rows, cols), big) == Ok::<IsmModel, IsmFault>(
            written_model(big, n_rows, cols),
        ),
{
    let count = ismout::bucket_count(cols, n_rows);
    lemma_file_parts(big, n_rows, cols, u32::MAX);
    lemma_parts_parsed(
        ismout::file_bytes(big, n_rows, cols),
        big,
        n_rows,
        cols,
        count,
        ismout::header_bytes(big, count),
        ismout::index_bytes(big, cols, n_rows),
        ssm::bucket_start(ISM_BUCKET_SIZE, count as u32),
    );
}

proof fn lemma_increasing(n_rows: u64, cols: Seq<IsmCells>)
    requires
        indexable(n_rows, cols),
    ensures
        ism::increasing(written_index(n_rows, cols).rows),
{
    let p = ismout::rows_per_bucket(cols);
    let rows = written_index(n_rows, cols).rows;
    lemma_some_rows(cols);
    assert forall|i: int, j: int| 0 <= i < j < rows.len() implies #[trigger] rows[i]
        < #[trigger] rows[j] by {
        ismout::lemma_boundaries(cols, n_rows, i);
        ismout::lemma_boundaries(cols, n_rows, j - 1);
        assert(i * p <= (j - 1) * p) by (nonlinear_arith)
            requires
                i <= j - 1,
                0 < p,
        ;
        assert(rows[i] == ismout::boundary(cols, n_rows, i));
        assert(rows[j] == ismout::boundary(cols, n_rows, (j - 1) + 1));
    }
}

proof fn lemma_row_bucket(n: int, p: int, count: int, row: int)
    requires
        0 <= row < n,
        0 < p,
        n <= count * p,
    ensures
        0 <= row / p < count,
        (row / p) * p <= row < (row / p) * p + p,
{
    vstd::arithmetic::div_mod::lemma_fundamental_div_mod(row, p);
    vstd::arithmetic::div_mod::lemma_mod_bound(row, p);
    vstd::arithmetic::div_mod::lemma_div_pos_is_pos(row, p);
    let b = row / p;
    assert(p * b == b * p && b < count) by (nonlinear_arith)
        requires
            0 <= b,
            0 < p,
            row == p * b + row % p,
            0 <= row % p < p,
            row < n <= count * p,
    ;
}

/// A written file finds the bucket of every row.
#[verifier::spinoff_prover]
#[verifier::rlimit(40)]
proof fn lemma_find(n_rows: u64, cols: Seq<IsmCells>, row: u64)
    requires
        indexable(n_rows, cols),
        row < n_rows,
    ensures
        ({
            let b = row as int / ismout::rows_per_bucket(cols);
            &&& 0 <= b < ismout::bucket_count(cols, n_rows)
            &&& ismout::boundary(cols, n_rows, b) <= row < ismout::boundary(cols, n_rows, b + 1)
            &&& written_index(n_rows, cols).bucket_for(row) matches Some((k, r, _)) && k == b && r
                == row - ismout::boundary(cols, n_rows, b)
        }),
{
    let p = ismout::rows_per_bucket(cols);
    let n = n_rows as int;
    let b = row as int / p;
    let count = ismout::bucket_count(cols, n_rows);
    let m = written_index(n_rows, cols);
    lemma_some_rows(cols);
    ssmout::lemma_pieces(n, p);
    lemma_row_bucket(n, p, count, row as int);
    ismout::lemma_boundaries(cols, n_rows, b);
    lemma_increasing(n_rows, cols);
    ism::law_bucket_for(m, row, b);
    assert(m.rows[b] == ismout::boundary(cols, n_rows, b));
    assert(m.rows[b + 1] == ismout::boundary(cols, n_rows, b + 1));
    assert(m.bucket_numbers[b] == b);
}

/// Every cell of a written file is read back, whether its value is stored
/// for its own row or shared by an interval of equal rows.
#[verifier::spinoff_prover]
#[verifier::rlimit(60)]
pub proof fn law_cell_read_back(big: bool, n_rows: u64, cols: Seq<IsmCells>, c: int, row: u64)
    requires
        indexable(n_rows, cols),
        ismout::file_fits(big, n_rows, cols),
        forall|c: int| 0 <= c < cols.len() ==> (#[trigger] cols[c]).cell_size <= 16,
        0 <= c < cols.len(),
        row < n_rows,
    ensures
        written_model(big, n_rows, cols).cell(c, row) matches Ok(b) && b.len() == 32 && b.subrange(
            0,
            cols[c].cell_size as int,
        ) == cols[c].cell(row as int),
{
    let m = written_model(big, n_rows, cols);
    let p = ismout::rows_per_bucket(cols);
    let k = row as int / p;
    lemma_find(n_rows, cols, row);
    lemma_file_parts(big, n_rows, cols, k as u32);
    lemma_some_rows(cols);
    ismout::lemma_boundaries(cols, n_rows, k);
    let start = ismout::boundary(cols, n_rows, k);
    let n = (ismout::boundary(cols, n_rows, k + 1) - start) as nat;
    let d = ismout::bucket_draft(cols, n_rows, k);
    assert(ismout::bucket_content(big, d).len() <= ISM_BUCKET_SIZE);
    lemma_bucket_cell(big, ISM_BUCKET_SIZE as int, cols, n_rows, start, n, c, (row - start) as u64);
    let b = bytes::resized(ismout::bucket_content(big, d), ISM_BUCKET_SIZE as nat);
    let (rows, offsets) = ism::column_entries(b, c as nat, big)->0;
    let i = ism::interval(rows, (row - start) as u64)->0;
    let at = 4 + offsets[i];
    let cs = cols[c].cell_size as int;
    assert(b.subrange(at, at + 32).subrange(0, cs) =~= b.subrange(at, at + cs));
}

/// A scalar value written to a column is read back from every row.
pub proof fn law_scalar_read_back(
    big: bool,
    n_rows: u64,
    cols: Seq<IsmCells>,
    c: int,
    row: u64,
    desc: ColumnModel,
    v: crate::record::ValueModel,
)
    requires
        indexable(n_rows, cols),
        ismout::file_fits(big, n_rows, cols),
        forall|c: int| 0 <= c < cols.len() ==> (#[trigger] cols[c]).cell_size <= 16,
        0 <= c < cols.len(),
        row < n_rows,
        desc.data_type != crate::record::DataType::String,
        recordlaw::scalar_fits(desc.data_type, v),
        cols[c].cell_size == ssmcell::cell_size(desc.data_type, desc.max_length),
        Ok::<Seq<u8>, SsmFault>(cols[c].cell(row as int)) == ssmout::scalar_cell(
            big,
            desc.data_type,
            desc.max_length,
            v,
        ),
    ensures
        written_model(big, n_rows, cols).scalar(c, desc, row) == Ok::<
            crate::record::ValueModel,
            IsmFault,
        >(v),
{
    law_cell_read_back(big, n_rows, cols, c, row);
    celllaw::law_scalar_cell_round_trip(big, desc, v);
}

/// The boundaries of a written file run from 0 to the number of rows.
proof fn lemma_ends(n_rows: u64, cols: Seq<IsmCells>)
    requires
        indexable(n_rows, cols),
    ensures
        ({
            let rows = written_index(n_rows, cols).rows;
            rows.len() > 0 && rows[0] == 0 && rows.last() == n_rows
        }),
{
    let count = ismout::bucket_count(cols, n_rows);
    lemma_some_rows(cols);
    ssmout::lemma_pieces(n_rows as int, ismout::rows_per_bucket(cols));
    if count > 0 {
        ismout::lemma_boundaries(cols, n_rows, 0);
        ismout::lemma_boundaries(cols, n_rows, count - 1);
    }
}

/// A written file has no bucket for a row after its last.
#[verifier::rlimit(40)]
proof fn lemma_no_bucket(n_rows: u64, cols: Seq<IsmCells>, row: u64)
    requires
        indexable(n_rows, cols),
        row >= n_rows,
    ensures
        written_index(n_rows, cols).bucket_for(row) is None,
{
    let m = written_index(n_rows, cols);
    lemma_ends(n_rows, cols);
    lemma_increasing(n_rows, cols);
    lemma_some_rows(cols);
    ssmout::lemma_pieces(n_rows as int, ismout::rows_per_bucket(cols));
    if ismout::bucket_count(cols, n_rows) > 0 {
        ism::law_bucket_for(m, row, 0);
    } else {
        ssm::lemma_bisect(m.rows, row, 0, 1);
    }
}

/// A written file, as a whole: it parses; its boundaries run from 0 to the
/// number of rows; every cell is read back, in whatever bucket it lies; and
/// the rows after the last are out of range.
#[verifier::spinoff_prover]
#[verifier::rlimit(40)]
pub proof fn law_written_file(big: bool, n_rows: u64, cols: Seq<IsmCells>, c: int, row: u64)
    requires
        indexable(n_rows, cols),
        ismout::cover_rows(cols, n_rows),
        n_rows > 0 ==> ismout::row_fits(ISM_BUCKET_SIZE as int, cols),
        forall|c: int| 0 <= c < cols.len() ==> (#[trigger] cols[c]).cell_size <= 16,
        0 <= c < cols.len(),
    ensures
        ism::parsed(ismout::file_bytes(big, n_rows, cols), big) == Ok::<IsmModel, IsmFault>(
            written_model(big, n_rows, cols),
        ),
        ism::increasing(written_index(n_rows, cols).rows),
        written_index(n_rows, cols).rows[0] == 0,
        written_index(n_rows, cols).rows.last() == n_rows,
        row < n_rows ==> (written_model(big, n_rows, cols).cell(c, row) matches Ok(b) && b.len()
            == 32 && b.subrange(0, cols[c].cell_size as int) == cols[c].cell(row as int)),
        row >= n_rows ==> written_model(big, n_rows, cols).cell(c, row) == Err::<
            Seq<u8>,
            IsmFault,
        >(IsmFault::RowOutOfRange { row }),
{
    law_file_parsed(big, n_rows, cols);
    lemma_increasing(n_rows, cols);
    lemma_ends(n_rows, cols);
    if row < n_rows {
        ismout::law_file_fits(big, n_rows, cols);
        law_cell_read_back(big, n_rows, cols, c, row);
    } else {
        lemma_no_bucket(n_rows, cols, row);
    }
}

/// The name in a written spec blob is read back.
pub proof fn law_blob_round_trip(name: Seq<char>)
    requires
        recordlaw::short_text(name),
    ensures
        ({
            let c = Cursor { data: ismout::blob_bytes(name), big: true, pos: 0 };
            &&& c.object_start(true) matches Ok((head, d)) && head.object_type == "ISM"@
                && head.version == 3 && (d.string() matches Ok((s, _)) && s == name)
        }),
{
    let blob = ismout::blob_bytes(name);
    let c = Cursor { data: blob, big: true, pos: 0 };
    assert(blob.subrange(0, blob.len() as int) =~= blob);
    reveal_strlit("ISM");
    vstd::utf8::is_ascii_chars_encode_utf8("ISM"@);
    aipsio::law_object_round_trip(c, true, "ISM"@, 3, aipsio::string_bytes(true, name));
    let (head, d) = c.object_start(true)->Ok_0;
    aipsio::law_string_round_trip(d, name);
}

} // verus!
