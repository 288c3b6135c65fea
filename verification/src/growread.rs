//! Reading a grown StandardStMan data file.
use crate::aipsio;
use crate::aipsio::Cursor;
use crate::arrayfile;
use crate::arrayfile::ArrayFileModel;
use crate::bytes;
use crate::celllaw;
use crate::columnset::StandardModel;
use crate::datalaw;
use crate::defaults;
use crate::flushlaw;
use crate::growfile;
use crate::growlaw;
use crate::record::{ArrayModel, DataType, ValueModel};
use crate::ssm;
use crate::ssm::{IndexModel, IndexedBucket, SsmFault, SsmModel, StandardStManHeader, DATA_START};
use crate::ssmcell;
use crate::ssmdata;
use crate::ssmgrow;
use crate::ssmgrow::{DefaultModel, Growing, GrownModel, Kit, Sheet};
use crate::ssmlaw;
use crate::ssmout;
use crate::tabledesc::{ColumnModel, KindModel};
use vstd::prelude::*;

verus! {

/// The buckets of the rows and those of the index are all different, and all
/// in the file.
pub open spec fn tidy(m: SsmModel) -> bool {
    let rows = ssmgrow::wide(m.indices[0].bucket_number);
    let chain = ssmgrow::index_chain(m.data, m.header);
    &&& rows.no_duplicates()
    &&& chain.no_duplicates()
    &&& forall|i: int, j: int|
        0 <= i < rows.len() && 0 <= j < chain.len() ==> #[trigger] rows[i] != #[trigger] chain[j]
    &&& forall|i: int| 0 <= i < rows.len() ==> #[trigger] rows[i] < m.header.nr_buckets
    &&& forall|i: int| 0 <= i < chain.len() ==> 0 <= #[trigger] chain[i] < m.header.nr_buckets
    &&& DATA_START + m.header.nr_buckets * m.header.bucket_size <= m.data.len()
}

/// The number of an edit: that of a topped-up bucket or a new one.
proof fn lemma_edit_number(kit: Kit, m: SsmModel, g: Growing, old: int, e: int)
    requires
        growlaw::orderly(kit, m, g, old),
        0 <= e < g.buckets.len(),
    ensures
        ({
            let n = m.indices[0].bucket_number.len();
            let k = g.last.len() - g.buckets.len() + e;
            &&& 0 <= k < g.numbers.len()
            &&& g.buckets[e].0 == g.numbers[k]
            &&& g.buckets[e].1.len() == kit.size
            &&& k < n ==> k == n - 1 && g.buckets[e].0 == m.indices[0].bucket_number[k]
            &&& k >= n ==> g.buckets[e].0 == m.header.nr_buckets + (k - n)
            &&& g.next == m.header.nr_buckets + (g.last.len() - n)
            &&& g.last.len() == g.numbers.len()
        }),
{
    reveal(growlaw::orderly);
    reveal(growlaw::edited);
    assert(growlaw::edited(kit, g, old, e));
}

/// The chain of an index after growing.
pub open spec fn new_chain(m: SsmModel, g: Growing, stream: Seq<u8>) -> Seq<int> {
    ssmgrow::chain_of(
        ssmgrow::index_chain(m.data, m.header),
        ssmout::pieces(stream.len() as int, m.header.bucket_size - 8) as nat,
        g.next,
    )
}

/// All buckets written have different numbers and the right size.
#[verifier::rlimit(40)]
proof fn lemma_edits_distinct(
    kit: Kit,
    m: SsmModel,
    g: Growing,
    old: int,
    stream: Seq<u8>,
    chain: Seq<int>,
    edits: Seq<(int, Seq<u8>)>,
)
    requires
        growlaw::orderly(kit, m, g, old),
        tidy(m),
        kit.size == m.header.bucket_size,
        m.header.bucket_size > 8,
        chain == new_chain(m, g, stream),
        edits == g.buckets + ssmgrow::index_edits(
            m.header.big_endian,
            stream,
            m.header.bucket_size as int,
            chain,
        ),
        forall|k: int| 0 <= k < chain.len() ==> 0 <= #[trigger] chain[k] <= i32::MAX,
        g.next <= i32::MAX,
    ensures
        growfile::distinct(edits),
        growfile::sized(edits, m.header.bucket_size),
{
    let n = g.buckets.len() as int;
    let rows = ssmgrow::wide(m.indices[0].bucket_number);
    let old_chain = ssmgrow::index_chain(m.data, m.header);
    ssmout::lemma_pieces(stream.len() as int, m.header.bucket_size - 8);
    assert forall|i: int| 0 <= i < edits.len() implies 0 <= (#[trigger] edits[i]).0 <= u32::MAX
        && edits[i].1.len() == m.header.bucket_size by {
        if i < n {
            lemma_edit_number(kit, m, g, old, i);
        } else {
            assert(edits[i] == (
                chain[i - n],
                ssmgrow::chained_bucket(
                    m.header.big_endian,
                    stream,
                    m.header.bucket_size as int,
                    chain,
                    i - n,
                ),
            ));
        }
    }
    assert forall|i: int, j: int| 0 <= i < j < edits.len() implies (#[trigger] edits[i]).0 != (
    #[trigger] edits[j]).0 by {
        if j < n {
            lemma_edit_number(kit, m, g, old, i);
            lemma_edit_number(kit, m, g, old, j);
            let k = g.last.len() - g.buckets.len() + i;
            if k < rows.len() {
                assert(rows[k] < m.header.nr_buckets);
            }
        } else {
            assert(edits[j].0 == chain[j - n]);
            if i < n {
                lemma_edit_number(kit, m, g, old, i);
                let k = g.last.len() - g.buckets.len() + i;
                if k < rows.len() {
                    assert(rows[k] == edits[i].0);
                    assert(rows[k] < m.header.nr_buckets);
                    if j - n < old_chain.len() {
                        assert(rows[k] != old_chain[j - n]);
                    }
                } else if j - n < old_chain.len() {
                    assert(old_chain[j - n] < m.header.nr_buckets);
                }
            } else {
                assert(edits[i].0 == chain[i - n]);
                if i - n < old_chain.len() {
                    assert(old_chain[i - n] < m.header.nr_buckets);
                    if j - n < old_chain.len() {
                        assert(old_chain[i - n] != old_chain[j - n]);
                    } else {
                        lemma_next(kit, m, g, old);
                    }
                }
            }
        }
    }
}

proof fn lemma_next(kit: Kit, m: SsmModel, g: Growing, old: int)
    requires
        growlaw::orderly(kit, m, g, old),
    ensures
        g.next == m.header.nr_buckets + (g.last.len() - m.indices[0].bucket_number.len()),
        g.next >= m.header.nr_buckets,
{
    reveal(growlaw::orderly);
}

/// The header of a grown file.
pub open spec fn grown_header(h: StandardStManHeader, next: int, chain: Seq<int>, stream: int) -> StandardStManHeader {
    ssm::header_with(
        h.version,
        h.big_endian,
        ssmgrow::grown_numbers(h, next, chain, stream),
    )
}

/// What reading a grown file gives.
pub open spec fn grown_model(
    file: Seq<u8>,
    m: SsmModel,
    g: Growing,
    gm: GrownModel,
    columns: nat,
) -> SsmModel {
    let rpb = m.indices[0].rows_per_bucket;
    let stream = ssmout::listed_index(
        m.header.big_endian,
        rpb,
        columns,
        ssmgrow::narrowed(g.last),
        g.numbers,
    );
    SsmModel {
        header: grown_header(m.header, gm.next, new_chain(m, g, stream), stream.len() as int),
        indices: seq![
            IndexModel {
                rows_per_bucket: rpb,
                nr_columns: bytes::signed32(bytes::low32(columns as int)),
                last_row: g.last,
                bucket_number: g.numbers,
            },
        ],
        data: file,
        f0i: None,
    }
}

/// A written bucket is in the grown file.
proof fn lemma_edit_stands(data: Seq<u8>, size: u32, gm: GrownModel, i: int)
    requires
        growfile::distinct(gm.buckets),
        growfile::sized(gm.buckets, size),
        gm.header.len() == DATA_START,
        0 <= i < gm.buckets.len(),
    ensures
        ssm::bucket_of(growfile::grown_file(data, size, gm), size, gm.buckets[i].0 as u32) == Some(
            gm.buckets[i].1,
        ),
{
    growfile::law_buckets_placed(data, size, gm.buckets, gm.buckets.len(), i);
    growfile::law_header_placed(
        growfile::with_buckets(data, size, gm.buckets, gm.buckets.len()),
        size,
        gm.header,
        gm.buckets[i].0 as u32,
    );
}

/// A bucket that is not written is in the grown file as it was.
proof fn lemma_other_stands(data: Seq<u8>, size: u32, gm: GrownModel, j: u32)
    requires
        growfile::sized(gm.buckets, size),
        gm.header.len() == DATA_START,
        forall|i: int| 0 <= i < gm.buckets.len() ==> (#[trigger] gm.buckets[i]).0 != j,
        ssm::bucket_of(data, size, j) is Some,
    ensures
        ssm::bucket_of(growfile::grown_file(data, size, gm), size, j) == ssm::bucket_of(
            data,
            size,
            j,
        ),
{
    growfile::law_other_buckets_kept(data, size, gm.buckets, gm.buckets.len(), j);
    growfile::law_header_placed(
        growfile::with_buckets(data, size, gm.buckets, gm.buckets.len()),
        size,
        gm.header,
        j,
    );
}

#[verifier::spinoff_prover]
#[verifier::rlimit(80)]
proof fn lemma_index_read(
    stream: Seq<u8>,
    big: bool,
    rpb: u32,
    columns: nat,
    last: Seq<u64>,
    numbers: Seq<u32>,
)
    requires
        ssmgrow::narrow(last),
        last.len() <= u32::MAX,
        numbers.len() <= u32::MAX,
        stream == ssmout::listed_index(big, rpb, columns, ssmgrow::narrowed(last), numbers),
    ensures
        ssm::indices_at(Cursor { data: stream, big, pos: 0 }, 1, Seq::empty()) matches Ok((s, _))
            && s == seq![
            IndexModel {
                rows_per_bucket: rpb,
                nr_columns: bytes::signed32(bytes::low32(columns as int)),
                last_row: last,
                bucket_number: numbers,
            },
        ],
{
    lemma_one_listed(stream, big, rpb, columns, ssmgrow::narrowed(last), numbers);
    assert(ssm::widened(ssmgrow::narrowed(last)) =~= last);
}

#[verifier::spinoff_prover]
#[verifier::rlimit(60)]
proof fn lemma_one_listed(
    stream: Seq<u8>,
    big: bool,
    rpb: u32,
    columns: nat,
    last: Seq<u32>,
    numbers: Seq<u32>,
)
    requires
        last.len() <= u32::MAX,
        numbers.len() <= u32::MAX,
        stream == ssmout::listed_index(big, rpb, columns, last, numbers),
    ensures
        ssm::indices_at(Cursor { data: stream, big, pos: 0 }, 1, Seq::empty()) matches Ok((s, _))
            && s == seq![ssmlaw::listed_model(rpb, columns, last, numbers)],
{
    let c = Cursor { data: stream, big, pos: 0 };
    assert(stream.subrange(0, stream.len() as int) =~= stream);
    ssmlaw::law_listed_index_round_trip(c, rpb, columns, last, numbers);
    let m = ssmlaw::listed_model(rpb, columns, last, numbers);
    let d = ssm::index_at(c)->Ok_0.1;
    lemma_indices_step(c, d, m);
}

proof fn lemma_indices_step(c: Cursor, d: Cursor, m: IndexModel)
    requires
        ssm::index_at(c) == Ok::<(IndexModel, Cursor), (SsmFault, Cursor)>((m, d)),
    ensures
        ssm::indices_at(c, 1, Seq::empty()) == Ok::<(Seq<IndexModel>, Cursor), (SsmFault, Cursor)>(
            (seq![m], d),
        ),
{
    reveal_with_fuel(ssm::indices_at, 2);
    assert(Seq::<IndexModel>::empty().push(m) =~= seq![m]);
}

/// The chain numbers of a grown file fit.
proof fn lemma_chain_numbers(kit: Kit, m: SsmModel, g: Growing, old: int, stream: Seq<u8>, k: int)
    requires
        growlaw::orderly(kit, m, g, old),
        tidy(m),
        m.header.bucket_size > 8,
        0 <= k < new_chain(m, g, stream).len(),
        g.next + ssmgrow::extra_buckets(
            ssmgrow::index_chain(m.data, m.header),
            ssmout::pieces(stream.len() as int, m.header.bucket_size - 8),
        ) <= i32::MAX,
    ensures
        0 <= new_chain(m, g, stream)[k] <= i32::MAX,
{
    let old_chain = ssmgrow::index_chain(m.data, m.header);
    lemma_next(kit, m, g, old);
    ssmout::lemma_pieces(stream.len() as int, m.header.bucket_size - 8);
    if k < old_chain.len() {
        assert(old_chain[k] < m.header.nr_buckets);
    }
}

/// A grown file is read with the grown index.
#[verifier::spinoff_prover]
#[verifier::rlimit(60)]
proof fn lemma_grown_parsed(
    kit: Kit,
    m: SsmModel,
    g: Growing,
    gm: GrownModel,
    columns: nat,
    old: int,
)
    requires
        growlaw::orderly(kit, m, g, old),
        tidy(m),
        kit.size == m.header.bucket_size,
        m.header.bucket_size > 8,
        m.header.version == 2 || m.header.version == 3,
        g.last.len() <= u32::MAX,
        ssmgrow::finished(
            m.header,
            m.indices[0].rows_per_bucket,
            m.data,
            columns,
            g,
        ) == Some(gm),
    ensures
        growfile::distinct(gm.buckets),
        growfile::sized(gm.buckets, m.header.bucket_size),
        gm.header.len() == DATA_START,
        g.buckets.is_prefix_of(gm.buckets),
        gm.arrays == g.arrays,
        ({
            let file = growfile::grown_file(m.data, m.header.bucket_size, gm);
            ssm::parsed(file, m.header.big_endian) == Ok::<SsmModel, SsmFault>(
                grown_model(file, m, g, gm, columns),
            )
        }),
{
    let h = m.header;
    let size = h.bucket_size;
    let rpb = m.indices[0].rows_per_bucket;
    let stream = ssmout::listed_index(
        h.big_endian,
        rpb,
        columns,
        ssmgrow::narrowed(g.last),
        g.numbers,
    );
    let chain = new_chain(m, g, stream);
    let n = g.buckets.len() as int;
    let file = growfile::grown_file(m.data, size, gm);
    lemma_next(kit, m, g, old);
    ssmout::lemma_pieces(stream.len() as int, size - 8);
    assert forall|k: int| 0 <= k < chain.len() implies 0 <= #[trigger] chain[k] <= i32::MAX by {
        lemma_chain_numbers(kit, m, g, old, stream, k);
    }
    lemma_edits_distinct(kit, m, g, old, stream, chain, gm.buckets);
    assert(g.buckets.is_prefix_of(gm.buckets)) by {
        assert(gm.buckets.take(n) =~= g.buckets);
    }
    let numbers = ssmgrow::grown_numbers(h, gm.next, chain, stream.len() as int);
    growfile::law_header_placed(
        growfile::with_buckets(m.data, size, gm.buckets, gm.buckets.len()),
        size,
        gm.header,
        0,
    );
    growlaw::lemma_header_read(file, h.version, h.big_endian, numbers);
    let nh = ssm::header_with(h.version, h.big_endian, numbers);
    assert(growlaw::chain_stands(file, nh, stream, chain)) by {
        reveal(growlaw::chain_stands);
        assert forall|k: int| 0 <= k < chain.len() implies ssm::bucket_of(
            file,
            nh.bucket_size,
            (#[trigger] chain[k]) as u32,
        ) == Some(
            ssmgrow::chained_bucket(nh.big_endian, stream, nh.bucket_size as int, chain, k),
        ) by {
            lemma_edit_stands(m.data, size, gm, n + k);
            assert(gm.buckets[n + k] == (
                chain[k],
                ssmgrow::chained_bucket(h.big_endian, stream, size as int, chain, k),
            ));
        }
    }
    lemma_stream_nonempty(stream, h.big_endian, rpb, columns, g);
    growlaw::lemma_chain_read(file, nh, stream, chain, 0);
    assert(stream.subrange(0, stream.len() as int) =~= stream);
    assert(0 * (size - 8) == 0);
    lemma_lens(kit, m, g, old);
    lemma_index_read(stream, h.big_endian, rpb, columns, g.last, g.numbers);
    lemma_first_in_chain(chain, nh, h, gm.next, stream.len() as int);
    ssmlaw::lemma_indices_of(
        file,
        nh,
        stream,
        seq![
            IndexModel {
                rows_per_bucket: rpb,
                nr_columns: bytes::signed32(bytes::low32(columns as int)),
                last_row: g.last,
                bucket_number: g.numbers,
            },
        ],
    );
}

proof fn lemma_lens(kit: Kit, m: SsmModel, g: Growing, old: int)
    requires
        growlaw::orderly(kit, m, g, old),
    ensures
        g.last.len() == g.numbers.len(),
{
    reveal(growlaw::orderly);
}

proof fn lemma_first_in_chain(
    chain: Seq<int>,
    nh: StandardStManHeader,
    h: StandardStManHeader,
    next: int,
    stream: int,
)
    requires
        chain.len() > 0,
        chain.len() <= stream <= u32::MAX,
        0 <= chain[0] <= i32::MAX,
        nh == grown_header(h, next, chain, stream),
    ensures
        nh.nr_index == 1,
        nh.first_index_bucket >= 0,
        nh.first_index_bucket as u32 == chain[0] as u32,
        nh.nr_index_buckets == chain.len(),
        nh.index_length == stream,
{
}

proof fn lemma_stream_nonempty(
    stream: Seq<u8>,
    big: bool,
    rpb: u32,
    columns: nat,
    g: Growing,
)
    requires
        stream == ssmout::listed_index(
            big,
            rpb,
            columns,
            ssmgrow::narrowed(g.last),
            g.numbers,
        ),
    ensures
        stream.len() > 0,
{
    bytes::lemma_uint_bytes_len(big, 1, 4);
}

/// A cell of a column, read from a bucket.
#[verifier::rlimit(40)]
proof fn lemma_cell_in_bucket(
    n: SsmModel,
    kit: Kit,
    c: int,
    row: u64,
    found: IndexedBucket,
    bucket: Seq<u8>,
)
    requires
        kit.ready(),
        n.indices.len() == 1,
        n.header.bucket_size == kit.size,
        n.indices[0].find(row) == Some(found),
        found.start_row <= row,
        kit.valid(c, row - found.start_row),
        ssm::bucket_of(n.data, n.header.bucket_size, found.number) == Some(bucket),
    ensures
        ({
            let i = row - found.start_row;
            if kit.defs[c] is Bit {
                n.bit_cell(0, kit.offsets[c], row) == Ok::<bool, SsmFault>(
                    bytes::bit(bucket[kit.offsets[c] + i / 8], i % 8),
                )
            } else {
                n.cell(
                    0,
                    kit.offsets[c],
                    row,
                    growlaw::cell_bytes(kit.defs[c]) as u32,
                ) == Ok::<Seq<u8>, SsmFault>(
                    bucket.subrange(
                        kit.place(c, i),
                        kit.place(c, i) + growlaw::cell_bytes(kit.defs[c]),
                    ),
                )
            }
        }),
{
    let i = row - found.start_row;
    growlaw::lemma_place(kit, c, i, i);
    if kit.defs[c] is Bit {
        let at = kit.offsets[c] + i / 8;
        ssmlaw::lemma_bytes_at(n, found.number, bucket, at, 1);
        assert(bucket.subrange(at, at + 1)[0] == bucket[at]);
    } else {
        let size = growlaw::cell_bytes(kit.defs[c]);
        ssmlaw::lemma_bytes_at(n, found.number, bucket, kit.place(c, i), size);
        assert(i * size >= 0) by (nonlinear_arith)
            requires
                i >= 0,
                size >= 0,
        ;
    }
}

/// The bucket of a row in a filled index.
proof fn lemma_row_found(index: IndexModel, rpb: int, row: u64) -> (k: int)
    requires
        growlaw::filled_index(index.last_row, rpb),
        index.bucket_number.len() == index.last_row.len(),
        row < growlaw::start_row(index.last_row, index.last_row.len() as int),
    ensures
        0 <= k < index.last_row.len(),
        growlaw::start_row(index.last_row, k) <= row <= index.last_row[k],
        row - growlaw::start_row(index.last_row, k) < rpb,
        index.find(row) == Some(
            IndexedBucket {
                number: index.bucket_number[k],
                start_row: growlaw::start_row(index.last_row, k) as u64,
                end_row: index.last_row[k],
            },
        ),
{
    reveal(growlaw::filled_index);
    let last = index.last_row;
    let n = last.len() as int;
    ssm::lemma_bisect(last, row, 0, n);
    let k = ssm::bisect(last, row, 0, n);
    assert(last[n - 1] >= row);
    if k < n {
        assert(growlaw::start_row(last, k) <= last[k]);
    }
    k
}

/// A row of the bucket `k` of a filled index is found there.
proof fn lemma_found_at(index: IndexModel, rpb: int, row: u64, k: int)
    requires
        growlaw::filled_index(index.last_row, rpb),
        index.bucket_number.len() == index.last_row.len(),
        0 <= k < index.last_row.len(),
        growlaw::start_row(index.last_row, k) <= row <= index.last_row[k],
    ensures
        row - growlaw::start_row(index.last_row, k) < rpb,
        index.find(row) == Some(
            IndexedBucket {
                number: index.bucket_number[k],
                start_row: growlaw::start_row(index.last_row, k) as u64,
                end_row: index.last_row[k],
            },
        ),
{
    reveal(growlaw::filled_index);
    assert(ssm::ascending(index.last_row)) by {
        assert forall|i: int, j: int| 0 <= i <= j < index.last_row.len() implies
            #[trigger] index.last_row[i] <= #[trigger] index.last_row[j] by {
            if i < j {
                assert(index.last_row[i] < index.last_row[j]);
            }
        }
    }
    ssm::law_find(index, row, k);
    assert(index.last_row[k] < growlaw::start_row(index.last_row, k) + rpb);
}

/// What a column's cell at a row is in two files.
pub open spec fn same_read(a: SsmModel, b: SsmModel, kit: Kit, c: int, row: u64) -> bool {
    if kit.defs[c] is Bit {
        a.bit_cell(0, kit.offsets[c], row) == b.bit_cell(0, kit.offsets[c], row)
    } else {
        let size = growlaw::cell_bytes(kit.defs[c]) as u32;
        a.cell(0, kit.offsets[c], row, size) == b.cell(0, kit.offsets[c], row, size)
    }
}

/// A column's cell at a row is the default. A fixed-shape array's cell refers
/// to a record of its own among those appended to the array file.
pub open spec fn default_read(n: SsmModel, kit: Kit, arrays: Seq<u8>, c: int, row: u64) -> bool {
    let off = kit.offsets[c];
    match kit.defs[c] {
        DefaultModel::Bit(v) => n.bit_cell(0, off, row) == Ok::<bool, SsmFault>(v),
        DefaultModel::Bytes(cell) => n.cell(0, off, row, cell.len() as u32) == Ok::<
            Seq<u8>,
            SsmFault,
        >(cell),
        DefaultModel::Record(rec) => exists|k: int| #[trigger]
            kit.record_stands(arrays, k, rec) && n.cell(0, off, row, 8) == Ok::<
                Seq<u8>,
                SsmFault,
            >(
                aipsio::u64_bytes(
                    kit.big,
                    ((kit.base + k) % 0x1_0000_0000_0000_0000) as u64,
                ),
            ),
        DefaultModel::Null => n.cell(0, off, row, 8) == Ok::<Seq<u8>, SsmFault>(
            bytes::resized(Seq::empty(), 8),
        ),
    }
}

#[verifier::rlimit(40)]
proof fn lemma_defaults(
    big: bool,
    cds: Seq<ColumnModel>,
    offsets: Seq<u32>,
    rpb: u32,
    size: u32,
    k: int,
    acc: Seq<DefaultModel>,
)
    requires
        0 <= k <= cds.len(),
        acc.len() == k,
        forall|c: int|
            0 <= c < k ==> (#[trigger] offsets[c]) + (rpb * ssmgrow::default_bits(acc[c]) + 7) / 8
                <= size,
    ensures
        ssmgrow::all_defaults(big, cds, offsets, rpb, size, k, acc) matches Some(d) ==> {
            &&& d.len() == cds.len()
            &&& forall|c: int|
                0 <= c < d.len() ==> (#[trigger] offsets[c]) + (rpb * ssmgrow::default_bits(d[c])
                    + 7) / 8 <= size
        },
    decreases cds.len() - k,
{
    if k < cds.len() {
        if let Some(d) = ssmgrow::column_default(big, cds[k]) {
            if offsets[k] + (rpb * ssmgrow::default_bits(d) + 7) / 8 <= size {
                let next = acc.push(d);
                assert forall|c: int| 0 <= c < k + 1 implies (#[trigger] offsets[c]) + (rpb
                    * ssmgrow::default_bits(next[c]) + 7) / 8 <= size by {
                    if c < k {
                        assert(next[c] == acc[c]);
                    }
                }
                lemma_defaults(big, cds, offsets, rpb, size, k + 1, next);
            }
        }
    }
}

/// The defaults of the columns of a file.
pub open spec fn defaults_in(
    m: SsmModel,
    big: bool,
    manager: StandardModel,
    cds: Seq<ColumnModel>,
) -> Option<Seq<DefaultModel>> {
    ssmgrow::all_defaults(
        big,
        cds,
        manager.column_offset,
        m.indices[0].rows_per_bucket,
        m.header.bucket_size,
        0,
        Seq::empty(),
    )
}

/// What a file is grown with.
pub open spec fn kit_in(
    m: SsmModel,
    f0i: Option<Seq<u8>>,
    big: bool,
    manager: StandardModel,
    cds: Seq<ColumnModel>,
) -> Kit {
    ssmgrow::kit_of(
        big,
        m.header,
        m.indices[0].rows_per_bucket,
        manager.column_offset,
        defaults_in(m, big, manager, cds)->0,
        f0i,
    )
}

/// A file that can be grown and whose parts are in order: the buckets of the
/// index and of the rows are all different, those of the rows are filled one
/// after the other, and the regions of the columns do not overlap.
pub open spec fn sound(
    data: Seq<u8>,
    f0i: Option<Seq<u8>>,
    big: bool,
    manager: StandardModel,
    cds: Seq<ColumnModel>,
    old: u64,
    new: u64,
) -> bool {
    &&& old <= new
    &&& ssmgrow::grown(data, f0i, big, manager, cds, old, new) is Some
    &&& ssm::parsed(data, big) matches Ok(m) && {
        &&& tidy(m)
        &&& growlaw::indexed(m, m.indices[0].rows_per_bucket as int, old as int)
        &&& kit_in(m, f0i, big, manager, cds).apart()
    }
}

proof fn lemma_index_len(big: bool, rpb: u32, columns: nat, last: Seq<u32>, numbers: Seq<u32>)
    requires
        ssmout::listed_index(big, rpb, columns, last, numbers).len() <= u32::MAX,
    ensures
        last.len() <= u32::MAX,
{
    crate::setlaw::lemma_u32s_len(big, last, last.len());
}

/// What has been grown, of a sound file.
spec fn final_state(kit: Kit, m: SsmModel, old: u64, new: u64) -> Growing {
    kit.extended(kit.topped(m.data, ssmgrow::start_of(m, old), new as int)->0, new as int)
}

#[verifier::rlimit(40)]
proof fn lemma_sound(
    data: Seq<u8>,
    f0i: Option<Seq<u8>>,
    big: bool,
    manager: StandardModel,
    cds: Seq<ColumnModel>,
    old: u64,
    new: u64,
) -> (r: (SsmModel, Kit, Growing, GrownModel))
    requires
        sound(data, f0i, big, manager, cds, old, new),
    ensures
        ({
            let (m, kit, g, gm) = r;
            let file = growfile::grown_file(data, m.header.bucket_size, gm);
            &&& ssm::parsed(data, big) == Ok::<SsmModel, SsmFault>(m)
            &&& kit == kit_in(m, f0i, big, manager, cds)
            &&& ssmgrow::grown(data, f0i, big, manager, cds, old, new) == Some(gm)
            &&& kit.ready()
            &&& kit.apart()
            &&& kit.size == m.header.bucket_size
            &&& kit.rpb == m.indices[0].rows_per_bucket
            &&& m.data == data
            &&& m.indices.len() == 1
            &&& growlaw::indexed(m, kit.rpb, old as int)
            &&& growlaw::orderly(kit, m, g, old as int)
            &&& g.row == new
            &&& tidy(m)
            &&& growfile::distinct(gm.buckets)
            &&& growfile::sized(gm.buckets, m.header.bucket_size)
            &&& gm.header.len() == DATA_START
            &&& g.buckets.is_prefix_of(gm.buckets)
            &&& gm.arrays == g.arrays
            &&& ssmgrow::finished(
                m.header,
                m.indices[0].rows_per_bucket,
                data,
                cds.len(),
                g,
            ) == Some(gm)
            &&& ssm::parsed(file, big) == Ok::<SsmModel, SsmFault>(
                grown_model(file, m, g, gm, cds.len()),
            )
        }),
{
    let m = ssm::parsed(data, big)->Ok_0;
    let kit = kit_in(m, f0i, big, manager, cds);
    let gm = ssmgrow::grown(data, f0i, big, manager, cds, old, new)->0;
    let rpb = m.indices[0].rows_per_bucket;
    lemma_defaults(
        big,
        cds,
        manager.column_offset,
        rpb,
        m.header.bucket_size,
        0,
        Seq::empty(),
    );
    let g = final_state(kit, m, old, new);
    assert(ssmgrow::finished(m.header, rpb, m.data, cds.len(), g) == Some(gm));
    growlaw::lemma_topped_orderly(kit, m, old, new as int);
    let t = kit.topped(m.data, ssmgrow::start_of(m, old), new as int)->0;
    lemma_finished_next(m.header, rpb, m.data, cds.len(), g);
    growlaw::lemma_extended_orderly(kit, m, t, old as int, new as int);
    lemma_grown_parsed(kit, m, g, gm, cds.len(), old as int);
    (m, kit, g, gm)
}

proof fn lemma_finished_next(
    h: StandardStManHeader,
    rpb: u32,
    data: Seq<u8>,
    columns: nat,
    g: Growing,
)
    requires
        ssmgrow::finished(h, rpb, data, columns, g) is Some,
    ensures
        g.next <= i32::MAX,
        g.last.len() <= u32::MAX,
{
    lemma_index_len(h.big_endian, rpb, columns, ssmgrow::narrowed(g.last), g.numbers);
}

/// A bucket that is not topped up stays as it was.
#[verifier::rlimit(40)]
proof fn lemma_untouched(kit: Kit, m: SsmModel, g: Growing, gm: GrownModel, old: int, k: int, stream: Seq<u8>)
    requires
        growlaw::orderly(kit, m, g, old),
        tidy(m),
        kit.size == m.header.bucket_size,
        m.header.bucket_size > 8,
        0 <= k < g.last.len() - g.buckets.len(),
        k < m.indices[0].last_row.len(),
        gm.buckets == g.buckets + ssmgrow::index_edits(
            m.header.big_endian,
            stream,
            m.header.bucket_size as int,
            new_chain(m, g, stream),
        ),
        growfile::sized(gm.buckets, m.header.bucket_size),
        gm.header.len() == DATA_START,
    ensures
        ({
            let number = m.indices[0].bucket_number[k];
            &&& ssm::bucket_of(m.data, m.header.bucket_size, number) is Some
            &&& ssm::bucket_of(
                growfile::grown_file(m.data, m.header.bucket_size, gm),
                m.header.bucket_size,
                number,
            ) == ssm::bucket_of(m.data, m.header.bucket_size, number)
        }),
{
    lemma_lens(kit, m, g, old);
    lemma_next(kit, m, g, old);
    let size = m.header.bucket_size;
    let rows = ssmgrow::wide(m.indices[0].bucket_number);
    let old_chain = ssmgrow::index_chain(m.data, m.header);
    let chain = new_chain(m, g, stream);
    lemma_same_lens(kit, m, g, old);
    let number = m.indices[0].bucket_number[k];
    assert(rows[k] == number);
    assert(number < m.header.nr_buckets);
    lemma_in_file(number, m.header.nr_buckets, size);
    let n = g.buckets.len() as int;
    assert forall|i: int| 0 <= i < gm.buckets.len() implies (#[trigger] gm.buckets[i]).0
        != number by {
        if i < n {
            lemma_edit_number(kit, m, g, old, i);
            let j = g.last.len() - g.buckets.len() + i;
            if j < rows.len() {
                assert(rows[j] == gm.buckets[i].0);
                assert(rows[k] != rows[j]);
            }
        } else {
            assert(gm.buckets[i].0 == chain[i - n]);
            if i - n < old_chain.len() {
                assert(rows[k] != old_chain[i - n]);
            }
        }
    }
    lemma_other_stands(m.data, size, gm, number);
}

proof fn lemma_in_file(number: u32, buckets: u32, size: u32)
    requires
        number < buckets,
    ensures
        number * size + size <= buckets * size,
{
    assert(number * size + size <= buckets * size) by (nonlinear_arith)
        requires
            0 <= number < buckets,
            0 <= size,
    ;
}

proof fn lemma_same_lens(kit: Kit, m: SsmModel, g: Growing, old: int)
    requires
        growlaw::orderly(kit, m, g, old),
    ensures
        m.indices[0].last_row.len() == m.indices[0].bucket_number.len(),
        m.indices[0].last_row.len() <= g.last.len(),
        g.buckets.len() <= g.last.len(),
        g.last.len() - g.buckets.len() >= m.indices[0].last_row.len() - 1,
        g.last.len() == g.numbers.len(),
        growlaw::filled_index(g.last, kit.rpb),
        g.row == growlaw::start_row(g.last, g.last.len() as int),
{
    reveal(growlaw::orderly);
}

/// In the index of a grown file, an old row is in the same bucket as before.
proof fn lemma_old_row(kit: Kit, m: SsmModel, g: Growing, old: int, k: int, row: u64)
    requires
        growlaw::orderly(kit, m, g, old),
        0 <= k < m.indices[0].last_row.len(),
        growlaw::start_row(m.indices[0].last_row, k) <= row <= m.indices[0].last_row[k],
    ensures
        growlaw::start_row(g.last, k) == growlaw::start_row(m.indices[0].last_row, k),
        row <= g.last[k],
        g.numbers[k] == m.indices[0].bucket_number[k],
{
    reveal(growlaw::orderly);
}

/// The old cells of a topped-up bucket.
proof fn lemma_kept_cell(kit: Kit, m: SsmModel, g: Growing, old: int, c: int, k: int, i: int)
    requires
        growlaw::orderly(kit, m, g, old),
        0 <= c < kit.defs.len(),
        k == g.last.len() - g.buckets.len(),
        0 <= k < m.indices[0].last_row.len(),
        0 <= i <= m.indices[0].last_row[k] - growlaw::start_row(m.indices[0].last_row, k),
    ensures
        g.buckets.len() > 0,
        g.buckets[0].0 == m.indices[0].bucket_number[k],
        ssm::bucket_of(m.data, kit.size as u32, m.indices[0].bucket_number[k]) matches Some(b)
            && kit.same_cell(b, g.buckets[0].1, c, i),
{
    reveal(growlaw::orderly);
    reveal(growlaw::kept);
    lemma_edit_number(kit, m, g, old, 0);
}

/// Growing keeps the old rows: every cell of a row that was there is read as
/// before.
#[verifier::spinoff_prover]
#[verifier::rlimit(60)]
pub proof fn law_old_rows_kept(
    data: Seq<u8>,
    f0i: Option<Seq<u8>>,
    big: bool,
    manager: StandardModel,
    cds: Seq<ColumnModel>,
    old: u64,
    new: u64,
    c: int,
    row: u64,
)
    requires
        sound(data, f0i, big, manager, cds, old, new),
        0 <= c < cds.len(),
        row < old,
    ensures
        ({
            let m = ssm::parsed(data, big)->Ok_0;
            let gm = ssmgrow::grown(data, f0i, big, manager, cds, old, new)->0;
            let file = growfile::grown_file(data, m.header.bucket_size, gm);
            ssm::parsed(file, big) matches Ok(n) && same_read(
                m,
                n,
                kit_in(m, f0i, big, manager, cds),
                c,
                row,
            )
        }),
{
    let (m, kit, g, gm) = lemma_sound(data, f0i, big, manager, cds, old, new);
    let size = m.header.bucket_size;
    let file = growfile::grown_file(data, size, gm);
    let n = ssm::parsed(file, big)->Ok_0;
    let index = m.indices[0];
    let last = index.last_row;
    let k = lemma_row_found(index, kit.rpb, row);
    let start = growlaw::start_row(last, k);
    let i = row - start;
    lemma_old_row(kit, m, g, old as int, k, row);
    lemma_same_lens(kit, m, g, old as int);
    lemma_found_at(n.indices[0], kit.rpb, row, k);
    let was = IndexedBucket {
        number: index.bucket_number[k],
        start_row: start as u64,
        end_row: last[k],
    };
    let now = IndexedBucket { end_row: g.last[k], ..was };
    let d = g.last.len() - g.buckets.len();
    if k < d {
        let stream = ssmout::listed_index(
            m.header.big_endian,
            index.rows_per_bucket,
            cds.len(),
            ssmgrow::narrowed(g.last),
            g.numbers,
        );
        lemma_buckets_of(m, g, gm, stream, cds.len());
        lemma_untouched(kit, m, g, gm, old as int, k, stream);
        let b = ssm::bucket_of(data, size, was.number)->0;
        lemma_cell_in_bucket(m, kit, c, row, was, b);
        lemma_cell_in_bucket(n, kit, c, row, now, b);
    } else {
        lemma_kept_cell(kit, m, g, old as int, c, k, i);
        let b = ssm::bucket_of(data, size, was.number)->0;
        lemma_prefix(g.buckets, gm.buckets, 0);
        lemma_edit_stands(data, size, gm, 0);
        lemma_cell_in_bucket(m, kit, c, row, was, b);
        lemma_cell_in_bucket(n, kit, c, row, now, g.buckets[0].1);
    }
}

proof fn lemma_prefix(a: Seq<(int, Seq<u8>)>, b: Seq<(int, Seq<u8>)>, i: int)
    requires
        a.is_prefix_of(b),
        0 <= i < a.len(),
    ensures
        i < b.len(),
        b[i] == a[i],
{
    assert(b.take(a.len() as int)[i] == b[i]);
}

proof fn lemma_buckets_of(m: SsmModel, g: Growing, gm: GrownModel, stream: Seq<u8>, columns: nat)
    requires
        m.header.bucket_size > 8,
        ssmgrow::finished(
            m.header,
            m.indices[0].rows_per_bucket,
            m.data,
            columns,
            g,
        ) == Some(gm),
        stream == ssmout::listed_index(
            m.header.big_endian,
            m.indices[0].rows_per_bucket,
            columns,
            ssmgrow::narrowed(g.last),
            g.numbers,
        ),
    ensures
        gm.buckets == g.buckets + ssmgrow::index_edits(
            m.header.big_endian,
            stream,
            m.header.bucket_size as int,
            new_chain(m, g, stream),
        ),
{
}

proof fn lemma_edited_cell(kit: Kit, m: SsmModel, g: Growing, old: int, e: int, c: int, i: int)
    requires
        growlaw::orderly(kit, m, g, old),
        0 <= e < g.buckets.len(),
        0 <= c < kit.defs.len(),
        0 <= i,
        ({
            let k = g.last.len() - g.buckets.len() + e;
            old <= growlaw::start_row(g.last, k) + i <= g.last[k]
        }),
    ensures
        kit.cell_holds(Sheet { bucket: g.buckets[e].1, arrays: g.arrays }, c, i),
{
    reveal(growlaw::orderly);
    reveal(growlaw::edited);
    assert(growlaw::edited(kit, g, old, e));
}

/// The rows of the buckets that are not written are old rows.
proof fn lemma_new_row_edited(kit: Kit, m: SsmModel, g: Growing, old: int, k: int, row: u64)
    requires
        growlaw::orderly(kit, m, g, old),
        growlaw::indexed(m, kit.rpb, old),
        old <= row,
        0 <= k < g.last.len(),
        row <= g.last[k],
    ensures
        k >= g.last.len() - g.buckets.len(),
{
    let last = m.indices[0].last_row;
    if k < g.last.len() - g.buckets.len() {
        lemma_old_last(kit, m, g, old, k);
        lemma_last_row(last, kit.rpb, k);
    }
}

proof fn lemma_old_last(kit: Kit, m: SsmModel, g: Growing, old: int, k: int)
    requires
        growlaw::orderly(kit, m, g, old),
        0 <= k < g.last.len() - g.buckets.len(),
    ensures
        k < m.indices[0].last_row.len(),
        g.last[k] == m.indices[0].last_row[k],
{
    reveal(growlaw::orderly);
}

proof fn lemma_last_row(last: Seq<u64>, rpb: int, k: int)
    requires
        growlaw::filled_index(last, rpb),
        0 <= k < last.len(),
    ensures
        last[k] < growlaw::start_row(last, last.len() as int),
{
    reveal(growlaw::filled_index);
    if k < last.len() - 1 {
        assert(last[k] < last[last.len() - 1]);
    }
}

/// A new row of a file with the written buckets and the grown index.
#[verifier::rlimit(40)]
proof fn lemma_new_cell(kit: Kit, m: SsmModel, g: Growing, n: SsmModel, old: int, c: int, row: u64)
    requires
        kit.ready(),
        growlaw::orderly(kit, m, g, old),
        growlaw::indexed(m, kit.rpb, old),
        0 <= c < kit.defs.len(),
        old <= row < g.row,
        n.indices.len() == 1,
        n.indices[0].last_row == g.last,
        n.indices[0].bucket_number == g.numbers,
        n.header.bucket_size == kit.size,
        forall|e: int|
            0 <= e < g.buckets.len() ==> ssm::bucket_of(
                n.data,
                n.header.bucket_size,
                (#[trigger] g.buckets[e]).0 as u32,
            ) == Some(g.buckets[e].1),
    ensures
        default_read(n, kit, g.arrays, c, row),
{
    lemma_same_lens(kit, m, g, old);
    let k = lemma_row_found(n.indices[0], kit.rpb, row);
    let start = growlaw::start_row(g.last, k);
    let i = row - start;
    lemma_new_row_edited(kit, m, g, old, k, row);
    let e = k - (g.last.len() - g.buckets.len());
    lemma_edited_cell(kit, m, g, old, e, c, i);
    lemma_edit_number(kit, m, g, old, e);
    assert(ssm::bucket_of(n.data, n.header.bucket_size, g.buckets[e].0 as u32) == Some(
        g.buckets[e].1,
    ));
    let now = IndexedBucket {
        number: g.numbers[k],
        start_row: start as u64,
        end_row: g.last[k],
    };
    lemma_cell_in_bucket(n, kit, c, row, now, g.buckets[e].1);
    lemma_default_read(n, kit, Sheet { bucket: g.buckets[e].1, arrays: g.arrays }, c, row, i);
}

/// Growing gives the new rows the columns' defaults.
#[verifier::spinoff_prover]
#[verifier::rlimit(60)]
pub proof fn law_new_rows_default(
    data: Seq<u8>,
    f0i: Option<Seq<u8>>,
    big: bool,
    manager: StandardModel,
    cds: Seq<ColumnModel>,
    old: u64,
    new: u64,
    c: int,
    row: u64,
)
    requires
        sound(data, f0i, big, manager, cds, old, new),
        0 <= c < cds.len(),
        old <= row < new,
    ensures
        ({
            let m = ssm::parsed(data, big)->Ok_0;
            let gm = ssmgrow::grown(data, f0i, big, manager, cds, old, new)->0;
            let file = growfile::grown_file(data, m.header.bucket_size, gm);
            ssm::parsed(file, big) matches Ok(n) && default_read(
                n,
                kit_in(m, f0i, big, manager, cds),
                gm.arrays,
                c,
                row,
            )
        }),
{
    let (m, kit, g, gm) = lemma_sound(data, f0i, big, manager, cds, old, new);
    let size = m.header.bucket_size;
    let file = growfile::grown_file(data, size, gm);
    let n = ssm::parsed(file, big)->Ok_0;
    assert forall|e: int| 0 <= e < g.buckets.len() implies ssm::bucket_of(
        n.data,
        n.header.bucket_size,
        (#[trigger] g.buckets[e]).0 as u32,
    ) == Some(g.buckets[e].1) by {
        lemma_prefix(g.buckets, gm.buckets, e);
        lemma_edit_stands(data, size, gm, e);
    }
    lemma_new_cell(kit, m, g, n, old as int, c, row);
}

proof fn lemma_default_read(n: SsmModel, kit: Kit, s: Sheet, c: int, row: u64, i: int)
    requires
        kit.cell_holds(s, c, i),
        if kit.defs[c] is Bit {
            n.bit_cell(0, kit.offsets[c], row) == Ok::<bool, SsmFault>(
                bytes::bit(s.bucket[kit.offsets[c] + i / 8], i % 8),
            )
        } else {
            n.cell(
                0,
                kit.offsets[c],
                row,
                growlaw::cell_bytes(kit.defs[c]) as u32,
            ) == Ok::<Seq<u8>, SsmFault>(
                s.bucket.subrange(
                    kit.place(c, i),
                    kit.place(c, i) + growlaw::cell_bytes(kit.defs[c]),
                ),
            )
        },
    ensures
        default_read(n, kit, s.arrays, c, row),
{
    if let DefaultModel::Record(rec) = kit.defs[c] {
        let k = choose|k: int| #[trigger]
            kit.record_stands(s.arrays, k, rec) && s.bucket.subrange(
                kit.place(c, i),
                kit.place(c, i) + 8,
            ) == aipsio::u64_bytes(
                kit.big,
                ((kit.base + k) % 0x1_0000_0000_0000_0000) as u64,
            );
        assert(kit.record_stands(s.arrays, k, rec));
    }
}

/// An array file that was grown: the appended records stand behind its old
/// contents.
pub open spec fn array_grown(f: Seq<u8>, base: int, arrays: Seq<u8>) -> bool {
    &&& f.len() == base + arrays.len()
    &&& f.subrange(base, f.len() as int) == arrays
}

proof fn lemma_record_stands(
    f: Seq<u8>,
    big: bool,
    base: int,
    arrays: Seq<u8>,
    k: int,
    rec: Seq<u8>,
)
    requires
        array_grown(f, base, arrays),
        0 <= base,
        0 <= k,
        k + rec.len() <= arrays.len(),
        arrays.subrange(k, k + rec.len()) == rec,
    ensures
        (Cursor { data: f, big, pos: base + k }).holds(rec),
{
    assert(f.subrange(base + k, base + k + rec.len()) =~= f.subrange(
        base,
        f.len() as int,
    ).subrange(k, k + rec.len()));
}

/// A record stands behind its reference count, where it has one.
proof fn lemma_behind_count(kit: Kit, arrays: Seq<u8>, k: int, rec: Seq<u8>)
    requires
        kit.record_stands(arrays, k, rec),
    ensures
        ({
            let at = k + if kit.counted {
                4int
            } else {
                0
            };
            at + rec.len() <= arrays.len() && arrays.subrange(at, at + rec.len()) == rec
        }),
{
    let n = if kit.counted {
        4int
    } else {
        0
    };
    let b = kit.counted_record(rec);
    bytes::lemma_uint_bytes_len(kit.big, 1, 4);
    assert(b.len() == n + rec.len());
    assert(b.subrange(n, n + rec.len()) =~= rec);
    assert(arrays.subrange(k + n, k + n + rec.len()) =~= arrays.subrange(k, k + b.len()).subrange(
        n,
        n + rec.len(),
    ));
}

/// The cell of a default array refers to a record that reads as the array.
#[verifier::spinoff_prover]
#[verifier::rlimit(60)]
proof fn lemma_default_array(
    n: SsmModel,
    kit: Kit,
    manager: StandardModel,
    desc: ColumnModel,
    f: Seq<u8>,
    arrays: Seq<u8>,
    a: ArrayModel,
    c: int,
    row: u64,
)
    requires
        default_read(n, kit, arrays, c, row),
        desc.kind is Array,
        kit.defs[c] == DefaultModel::Record(ssmout::array_bytes(kit.big, a)),
        n.header.big_endian == kit.big,
        kit.base >= 16,
        kit.base + arrays.len() <= i64::MAX,
        array_grown(f, kit.base, arrays),
        ssm::u32_in(f, 0, kit.big) matches Ok(version) && kit.counted == (version > 0),
        celllaw::array_storable(desc.data_type, a),
        0 <= c < manager.column_offset.len(),
        c < manager.col_index_map.len(),
        manager.col_index_map[c] == 0,
        manager.column_offset[c] == kit.offsets[c],
    ensures
        (SsmModel { f0i: Some(f), ..n }).array(manager, c, desc, row) == Ok::<ValueModel, SsmFault>(
            ValueModel::Array(a),
        ),
{
    let big = kit.big;
    let rec = ssmout::array_bytes(big, a);
    let k = choose|k: int| #[trigger]
        kit.record_stands(arrays, k, rec) && n.cell(0, kit.offsets[c], row, 8) == Ok::<
            Seq<u8>,
            SsmFault,
        >(
            aipsio::u64_bytes(big, ((kit.base + k) % 0x1_0000_0000_0000_0000) as u64),
        );
    let at = (kit.base + k) as i64;
    let m = SsmModel { f0i: Some(f), ..n };
    let version = ssm::u32_in(f, 0, big)->Ok_0;
    let count = celllaw::count_len(version);
    bytes::lemma_spans();
    bytes::law_uint_round_trip(big, at as nat, 8);
    assert(m.cell(0, kit.offsets[c], row, 8) == n.cell(0, kit.offsets[c], row, 8));
    lemma_behind_count(kit, arrays, k, rec);
    lemma_record_stands(f, big, kit.base, arrays, k + count, rec);
    celllaw::law_array_record_round_trip(f, big, version, at, desc.data_type, a);
}

/// Growing gives the new rows of a fixed-shape array column the default array,
/// read from the grown array file.
#[verifier::rlimit(40)]
pub proof fn law_new_rows_default_array(
    data: Seq<u8>,
    f0i: Option<Seq<u8>>,
    big: bool,
    manager: StandardModel,
    cds: Seq<ColumnModel>,
    old: u64,
    new: u64,
    c: int,
    row: u64,
    f: Seq<u8>,
    a: ArrayModel,
)
    requires
        sound(data, f0i, big, manager, cds, old, new),
        0 <= c < cds.len(),
        old <= row < new,
        cds[c].kind is Array,
        ssmgrow::is_fixed(cds[c]),
        defaults::default_value(cds[c]) == ValueModel::Array(a),
        celllaw::array_storable(cds[c].data_type, a),
        c < manager.col_index_map.len(),
        ({
            let arrays = ssmgrow::grown(data, f0i, big, manager, cds, old, new)->0.arrays;
            &&& array_grown(f, ssmgrow::array_end(f0i, big).0, arrays)
            &&& f.len() <= i64::MAX
        }),
        ssm::u32_in(f, 0, big) matches Ok(version) && ssmgrow::array_end(f0i, big).1 == (version
            > 0),
    ensures
        ({
            let m = ssm::parsed(data, big)->Ok_0;
            let gm = ssmgrow::grown(data, f0i, big, manager, cds, old, new)->0;
            let file = growfile::grown_file(data, m.header.bucket_size, gm);
            ssm::parsed(file, big) matches Ok(n) && (SsmModel { f0i: Some(f), ..n }).array(
                manager,
                c,
                cds[c],
                row,
            ) == Ok::<ValueModel, SsmFault>(ValueModel::Array(a))
        }),
{
    let (m, kit, g, gm) = lemma_sound(data, f0i, big, manager, cds, old, new);
    let file = growfile::grown_file(data, m.header.bucket_size, gm);
    let n = ssm::parsed(file, big)->Ok_0;
    law_new_rows_default(data, f0i, big, manager, cds, old, new, c, row);
    lemma_default_at(
        big,
        cds,
        manager.column_offset,
        m.indices[0].rows_per_bucket,
        m.header.bucket_size,
        0,
        Seq::empty(),
        c,
    );
    lemma_manager_fits(data, f0i, big, manager, cds, old, new, c);
    lemma_default_array(n, kit, manager, cds[c], f, gm.arrays, a, c, row);
}

proof fn lemma_manager_fits(
    data: Seq<u8>,
    f0i: Option<Seq<u8>>,
    big: bool,
    manager: StandardModel,
    cds: Seq<ColumnModel>,
    old: u64,
    new: u64,
    c: int,
)
    requires
        sound(data, f0i, big, manager, cds, old, new),
        0 <= c < cds.len(),
        c < manager.col_index_map.len(),
    ensures
        c < manager.column_offset.len(),
        manager.col_index_map[c] == 0,
        ssm::parsed(data, big)->Ok_0.header.big_endian == big,
{
    let m = ssm::parsed(data, big)->Ok_0;
    assert(ssmgrow::growable(m, manager, cds.len(), old));
    assert(ssmgrow::zeros(manager.col_index_map));
}

/// The default of a column among those of all columns.
proof fn lemma_default_at(
    big: bool,
    cds: Seq<ColumnModel>,
    offsets: Seq<u32>,
    rpb: u32,
    size: u32,
    k: int,
    acc: Seq<DefaultModel>,
    c: int,
)
    requires
        0 <= k <= cds.len(),
        acc.len() == k,
        ssmgrow::all_defaults(big, cds, offsets, rpb, size, k, acc) is Some,
        0 <= c < cds.len(),
    ensures
        ({
            let d = ssmgrow::all_defaults(big, cds, offsets, rpb, size, k, acc)->0;
            &&& c < k ==> d[c] == acc[c]
            &&& c >= k ==> ssmgrow::column_default(big, cds[c]) == Some(d[c])
        }),
    decreases cds.len() - k,
{
    if k < cds.len() {
        let d = ssmgrow::column_default(big, cds[k])->0;
        lemma_default_at(big, cds, offsets, rpb, size, k + 1, acc.push(d), c);
    }
}

/// The index of a grown file ends with the last new row, and the rows after
/// it are out of range.
#[verifier::rlimit(40)]
pub proof fn law_grown_index(
    data: Seq<u8>,
    f0i: Option<Seq<u8>>,
    big: bool,
    manager: StandardModel,
    cds: Seq<ColumnModel>,
    old: u64,
    new: u64,
    offset: u32,
    size: u32,
    row: u64,
)
    requires
        sound(data, f0i, big, manager, cds, old, new),
    ensures
        ({
            let m = ssm::parsed(data, big)->Ok_0;
            let gm = ssmgrow::grown(data, f0i, big, manager, cds, old, new)->0;
            let file = growfile::grown_file(data, m.header.bucket_size, gm);
            ssm::parsed(file, big) matches Ok(n) && {
                &&& n.indices.len() == 1
                &&& new > 0 ==> n.indices[0].last_row.len() > 0 && n.indices[0].last_row.last()
                    == new - 1
                &&& row >= new ==> n.cell(0, offset, row, size) == Err::<Seq<u8>, SsmFault>(
                    SsmFault::RowOutOfRange { row },
                )
                &&& row >= new ==> n.bit_cell(0, offset, row) == Err::<bool, SsmFault>(
                    SsmFault::RowOutOfRange { row },
                )
            }
        }),
{
    let (m, kit, g, gm) = lemma_sound(data, f0i, big, manager, cds, old, new);
    lemma_same_lens(kit, m, g, old as int);
    if row >= new {
        let i = ssm::bisect(g.last, row, 0, g.last.len() as int);
        ssm::lemma_bisect(g.last, row, 0, g.last.len() as int);
        if i < g.last.len() {
            lemma_last_row(g.last, kit.rpb, i);
        }
    }
}

/// A bucket of the file that belongs neither to the rows nor to the index.
pub open spec fn aside(m: SsmModel, b: u32) -> bool {
    &&& b < m.header.nr_buckets
    &&& !m.indices[0].bucket_number.contains(b)
    &&& !ssmgrow::index_chain(m.data, m.header).contains(b as int)
}

/// A bucket aside stays as it was.
#[verifier::rlimit(40)]
proof fn lemma_aside_kept(
    kit: Kit,
    m: SsmModel,
    g: Growing,
    gm: GrownModel,
    old: int,
    b: u32,
    stream: Seq<u8>,
)
    requires
        growlaw::orderly(kit, m, g, old),
        tidy(m),
        kit.size == m.header.bucket_size,
        m.header.bucket_size > 8,
        aside(m, b),
        gm.buckets == g.buckets + ssmgrow::index_edits(
            m.header.big_endian,
            stream,
            m.header.bucket_size as int,
            new_chain(m, g, stream),
        ),
        growfile::sized(gm.buckets, m.header.bucket_size),
        gm.header.len() == DATA_START,
    ensures
        ssm::bucket_of(
            growfile::grown_file(m.data, m.header.bucket_size, gm),
            m.header.bucket_size,
            b,
        ) == ssm::bucket_of(m.data, m.header.bucket_size, b),
{
    lemma_lens(kit, m, g, old);
    lemma_next(kit, m, g, old);
    lemma_same_lens(kit, m, g, old);
    let size = m.header.bucket_size;
    let rows = m.indices[0].bucket_number;
    let old_chain = ssmgrow::index_chain(m.data, m.header);
    let chain = new_chain(m, g, stream);
    lemma_in_file(b, m.header.nr_buckets, size);
    let n = g.buckets.len() as int;
    assert forall|i: int| 0 <= i < gm.buckets.len() implies (#[trigger] gm.buckets[i]).0 != b by {
        if i < n {
            lemma_edit_number(kit, m, g, old, i);
            let j = g.last.len() - g.buckets.len() + i;
            if j < rows.len() {
                assert(rows[j] == gm.buckets[i].0);
            }
        } else {
            assert(gm.buckets[i].0 == chain[i - n]);
            if i - n < old_chain.len() {
                assert(old_chain.contains(old_chain[i - n]));
            }
        }
    }
    lemma_other_stands(m.data, size, gm, b);
}

/// The buckets of a string belong neither to the rows nor to the index.
pub open spec fn string_aside(m: SsmModel, b: i32, offset: int, left: int) -> bool
    decreases left,
{
    left <= 0 || {
        &&& aside(m, b as u32)
        &&& m.bucket(b as u32) matches Ok(bucket) ==> {
            let used = bytes::signed32(bytes::uint_value(true, bucket.subrange(4, 8)) as u32);
            let next = bytes::signed32(bytes::uint_value(true, bucket.subrange(12, 16)) as u32);
            used > offset && left > used - offset ==> string_aside(
                m,
                next,
                0,
                left - (used - offset),
            )
        }
    }
}

/// A string in buckets that stay is read as before.
proof fn lemma_string_kept(m: SsmModel, n: SsmModel, b: i32, offset: int, left: int, length: u32)
    requires
        string_aside(m, b, offset, left),
        forall|k: u32| #[trigger] aside(m, k) ==> n.bucket(k) == m.bucket(k),
    ensures
        n.string_bytes(b, offset, left, length) == m.string_bytes(b, offset, left, length),
    decreases left,
{
    if left > 0 {
        assert(aside(m, b as u32));
        if let Ok(bucket) = m.bucket(b as u32) {
            if bucket.len() >= 16 {
                let used = bytes::signed32(bytes::uint_value(true, bucket.subrange(4, 8)) as u32);
                let next = bytes::signed32(
                    bytes::uint_value(true, bucket.subrange(12, 16)) as u32,
                );
                if used > offset && left > used - offset {
                    lemma_string_kept(m, n, next, 0, left - (used - offset), length);
                }
            }
        }
    }
}

/// The string that a cell refers to, if it refers to one, lies in buckets of
/// its own.
pub open spec fn reference_aside(m: SsmModel, cell: Seq<u8>) -> bool {
    let big = m.header.big_endian;
    ssm::i32_in(cell, 8, big) matches Ok(len) && len > 8 ==> string_aside(
        m,
        bytes::signed32(bytes::uint_value(big, cell.subrange(0, 4)) as u32),
        bytes::signed32(bytes::uint_value(big, cell.subrange(4, 8)) as u32) as int,
        ssm::i32_in(cell, 8, big)->Ok_0 as int,
    )
}

proof fn lemma_value_kept(
    m: SsmModel,
    n: SsmModel,
    kit: Kit,
    manager: StandardModel,
    cd: ColumnModel,
    c: int,
    row: u64,
)
    requires
        0 <= c < manager.column_offset.len(),
        c < manager.col_index_map.len() ==> manager.col_index_map[c] == 0,
        manager.column_offset[c] == kit.offsets[c],
        cd.kind is Scalar,
        ssmgrow::column_default(kit.big, cd) == Some(kit.defs[c]),
        same_read(m, n, kit, c, row),
        n.header.big_endian == m.header.big_endian,
        forall|k: u32| #[trigger] aside(m, k) ==> n.bucket(k) == m.bucket(k),
        m.cell(0, kit.offsets[c], row, 12) matches Ok(cell) && cd.data_type == DataType::String
            && cd.max_length <= 0 ==> reference_aside(
            m,
            m.cell(0, kit.offsets[c], row, 12)->Ok_0,
        ),
    ensures
        n.scalar(manager, c, cd, row) == m.scalar(manager, c, cd, row),
{
    let v = cd.kind->Scalar_0;
    let size = ssmcell::cell_size(cd.data_type, cd.max_length);
    ssmout::lemma_scalar_cell_len(kit.big, cd.data_type, cd.max_length, v);
    if cd.data_type != DataType::Bool {
        assert(growlaw::cell_bytes(kit.defs[c]) == size);
        if let Ok(cell) = m.cell(0, kit.offsets[c], row, size) {
            if cd.data_type == DataType::String && cd.max_length <= 0 {
                let big = m.header.big_endian;
                if let Ok(len) = ssm::i32_in(cell, 8, big) {
                    if len > 8 {
                        lemma_string_kept(
                            m,
                            n,
                            bytes::signed32(bytes::uint_value(big, cell.subrange(0, 4)) as u32),
                            bytes::signed32(
                                bytes::uint_value(big, cell.subrange(4, 8)) as u32,
                            ) as int,
                            len as u32 as int,
                            len as u32,
                        );
                    }
                }
            }
        }
    }
}

/// Growing keeps the scalar values of the old rows, long strings among them.
#[verifier::rlimit(40)]
pub proof fn law_old_values_kept(
    data: Seq<u8>,
    f0i: Option<Seq<u8>>,
    big: bool,
    manager: StandardModel,
    cds: Seq<ColumnModel>,
    old: u64,
    new: u64,
    c: int,
    row: u64,
)
    requires
        sound(data, f0i, big, manager, cds, old, new),
        0 <= c < cds.len(),
        c < manager.col_index_map.len(),
        cds[c].kind is Scalar,
        row < old,
        ({
            let m = ssm::parsed(data, big)->Ok_0;
            let cell = m.cell(0, manager.column_offset[c], row, 12);
            cell is Ok && cds[c].data_type == DataType::String && cds[c].max_length <= 0
                ==> reference_aside(m, cell->Ok_0)
        }),
    ensures
        ({
            let m = ssm::parsed(data, big)->Ok_0;
            let gm = ssmgrow::grown(data, f0i, big, manager, cds, old, new)->0;
            let file = growfile::grown_file(data, m.header.bucket_size, gm);
            ssm::parsed(file, big) matches Ok(n) && n.scalar(manager, c, cds[c], row) == m.scalar(
                manager,
                c,
                cds[c],
                row,
            )
        }),
{
    let (m, kit, g, gm) = lemma_sound(data, f0i, big, manager, cds, old, new);
    let file = growfile::grown_file(data, m.header.bucket_size, gm);
    let n = ssm::parsed(file, big)->Ok_0;
    let stream = ssmout::listed_index(
        m.header.big_endian,
        m.indices[0].rows_per_bucket,
        cds.len(),
        ssmgrow::narrowed(g.last),
        g.numbers,
    );
    law_old_rows_kept(data, f0i, big, manager, cds, old, new, c, row);
    lemma_manager_fits(data, f0i, big, manager, cds, old, new, c);
    lemma_default_at(
        big,
        cds,
        manager.column_offset,
        m.indices[0].rows_per_bucket,
        m.header.bucket_size,
        0,
        Seq::empty(),
        c,
    );
    lemma_buckets_of(m, g, gm, stream, cds.len());
    assert forall|k: u32| #[trigger] aside(m, k) implies n.bucket(k) == m.bucket(k) by {
        lemma_aside_kept(kit, m, g, gm, old as int, k, stream);
    }
    lemma_value_kept(m, n, kit, manager, cds[c], c, row);
}

/// An array file `f` still holds the version and the records of `g`.
pub open spec fn array_kept(g: Seq<u8>, f: Seq<u8>) -> bool {
    &&& 16 <= g.len() <= f.len()
    &&& f.subrange(0, 4) == g.subrange(0, 4)
    &&& f.subrange(16, g.len() as int) == g.subrange(16, g.len() as int)
}

proof fn lemma_part_kept(g: Seq<u8>, f: Seq<u8>, a: int, b: int)
    requires
        array_kept(g, f),
        16 <= a <= b <= g.len(),
    ensures
        f.subrange(a, b) == g.subrange(a, b),
{
    let x = f.subrange(16, g.len() as int);
    let y = g.subrange(16, g.len() as int);
    assert forall|i: int| a <= i < b implies f[i] == g[i] by {
        assert(x[i - 16] == y[i - 16]);
    }
    assert(f.subrange(a, b) =~= g.subrange(a, b));
}

proof fn lemma_dims_kept(g: Seq<u8>, f: Seq<u8>, p: int, n: nat, big: bool, acc: Seq<u32>)
    requires
        array_kept(g, f),
        16 <= p,
        ssmcell::dims_in(g, p, n, big, acc) is Ok,
    ensures
        ssmcell::dims_in(f, p, n, big, acc) == ssmcell::dims_in(g, p, n, big, acc),
    decreases n,
{
    if n > 0 {
        lemma_part_kept(g, f, p, p + 4);
        let d = ssm::u32_in(g, p, big)->Ok_0;
        lemma_dims_kept(g, f, p + 4, (n - 1) as nat, big, acc.push(d));
    }
}

/// A record of an array file is read from the grown one as before.
#[verifier::rlimit(40)]
proof fn lemma_record_kept(g: Seq<u8>, f: Seq<u8>, big: bool, at: i64, elem: DataType)
    requires
        array_kept(g, f),
        16 <= at,
        ssmcell::array_record(g, big, at, elem) is Ok,
    ensures
        ssmcell::array_record(f, big, at, elem) == ssmcell::array_record(g, big, at, elem),
{
    let version = ssm::u32_in(g, 0, big)->Ok_0;
    let p: int = if version > 0 {
        at + 4
    } else {
        at as int
    };
    if version > 0 {
        lemma_part_kept(g, f, at as int, at + 4);
    }
    lemma_part_kept(g, f, p, p + 4);
    let ndim = ssm::u32_in(g, p, big)->Ok_0;
    lemma_dims_kept(g, f, p + 4, ndim as nat, big, Seq::empty());
    let dims = ssmcell::dims_in(g, p + 4, ndim as nat, big, Seq::empty())->Ok_0;
    let start = p + 4 + 4 * ndim;
    lemma_part_kept(g, f, start, start + ssmcell::array_bytes(elem, ssmcell::product(dims)));
}

/// The array file of a table, with the records of new rows appended: it still
/// holds the old records, and the new ones stand behind them.
pub proof fn law_array_file_grown(m: ArrayFileModel)
    requires
        m.inside(),
        m.rewrites.len() == 0,
    ensures
        array_kept(m.contents, m.finished()),
        array_grown(m.finished(), m.contents.len() as int, m.appended),
{
    let all = m.contents + m.appended;
    let f = m.finished();
    let n = m.contents.len() as int;
    bytes::lemma_uint_bytes_len(m.big, (m.end() % 0x1_0000_0000_0000_0000) as nat, 8);
    assert(arrayfile::rewritten(all, m.rewrites, 0) == all);
    assert(f.subrange(0, 4) =~= m.contents.subrange(0, 4));
    assert(f.subrange(16, n) =~= m.contents.subrange(16, n));
    assert(f.subrange(n, f.len() as int) =~= m.appended);
}

/// Growing keeps the arrays of the old rows, read from the grown array file.
#[verifier::rlimit(40)]
pub proof fn law_old_arrays_kept(
    data: Seq<u8>,
    g: Seq<u8>,
    big: bool,
    manager: StandardModel,
    cds: Seq<ColumnModel>,
    old: u64,
    new: u64,
    c: int,
    row: u64,
    f: Seq<u8>,
)
    requires
        sound(data, Some(g), big, manager, cds, old, new),
        0 <= c < cds.len(),
        c < manager.col_index_map.len(),
        row < old,
        array_kept(g, f),
        ({
            let m = ssm::parsed(data, big)->Ok_0;
            &&& (SsmModel { f0i: Some(g), ..m }).array(manager, c, cds[c], row) is Ok
            &&& bytes::signed64(
                bytes::uint_value(
                    big,
                    m.cell(0, manager.column_offset[c], row, 8)->Ok_0,
                ) as u64,
            ) >= 16
        }),
    ensures
        ({
            let m = ssm::parsed(data, big)->Ok_0;
            let gm = ssmgrow::grown(data, Some(g), big, manager, cds, old, new)->0;
            let file = growfile::grown_file(data, m.header.bucket_size, gm);
            ssm::parsed(file, big) matches Ok(n) && (SsmModel { f0i: Some(f), ..n }).array(
                manager,
                c,
                cds[c],
                row,
            ) == (SsmModel { f0i: Some(g), ..m }).array(manager, c, cds[c], row)
        }),
{
    let (m, kit, st, gm) = lemma_sound(data, Some(g), big, manager, cds, old, new);
    let file = growfile::grown_file(data, m.header.bucket_size, gm);
    let n = ssm::parsed(file, big)->Ok_0;
    let a = SsmModel { f0i: Some(g), ..m };
    let b = SsmModel { f0i: Some(f), ..n };
    law_old_rows_kept(data, Some(g), big, manager, cds, old, new, c, row);
    lemma_manager_fits(data, Some(g), big, manager, cds, old, new, c);
    lemma_default_at(
        big,
        cds,
        manager.column_offset,
        m.indices[0].rows_per_bucket,
        m.header.bucket_size,
        0,
        Seq::empty(),
        c,
    );
    let off = manager.column_offset[c];
    assert(growlaw::cell_bytes(kit.defs[c]) == 8);
    assert(a.cell(0, off, row, 8) == m.cell(0, off, row, 8));
    assert(b.cell(0, off, row, 8) == n.cell(0, off, row, 8));
    let at = bytes::signed64(bytes::uint_value(big, m.cell(0, off, row, 8)->Ok_0) as u64);
    lemma_record_kept(g, f, big, at, cds[c].data_type);
}

/// The cell of a default scalar reads as the value.
proof fn lemma_default_scalar(
    n: SsmModel,
    kit: Kit,
    manager: StandardModel,
    cd: ColumnModel,
    arrays: Seq<u8>,
    c: int,
    row: u64,
)
    requires
        default_read(n, kit, arrays, c, row),
        cd.kind is Scalar,
        cd.data_manager_type == "StandardStMan"@,
        ssmgrow::column_default(kit.big, cd) == Some(kit.defs[c]),
        datalaw::faithful_scalar(cd, cd.kind->Scalar_0),
        n.header.big_endian == kit.big,
        0 <= c < manager.column_offset.len(),
        c < manager.col_index_map.len(),
        manager.col_index_map[c] == 0,
        manager.column_offset[c] == kit.offsets[c],
    ensures
        n.scalar(manager, c, cd, row) == Ok::<ValueModel, SsmFault>(cd.kind->Scalar_0),
{
    let v = cd.kind->Scalar_0;
    ssmout::lemma_scalar_cell_len(kit.big, cd.data_type, cd.max_length, v);
    if cd.data_type == DataType::String {
        let s = v->String_0;
        if cd.max_length > 0 {
            celllaw::law_fixed_string_round_trip(kit.big, cd, s);
        } else {
            celllaw::law_short_string_round_trip(n, cd, s);
        }
    } else if cd.data_type != DataType::Bool {
        celllaw::law_scalar_cell_round_trip(kit.big, cd, v);
    }
}

/// The array file of a manager, before anything is appended to it.
pub open spec fn array_file_of(f0i: Option<Seq<u8>>, big: bool) -> ArrayFileModel {
    match f0i {
        Some(f) => ArrayFileModel {
            big,
            counted: arrayfile::is_counted(f, big),
            exists: true,
            contents: arrayfile::with_header(f),
            appended: Seq::empty(),
            rewrites: Seq::empty(),
        },
        None => ArrayFileModel {
            big,
            counted: false,
            exists: false,
            contents: arrayfile::with_header(Seq::empty()),
            appended: Seq::empty(),
            rewrites: Seq::empty(),
        },
    }
}

/// The array file of a manager with the records of new rows appended, where
/// there are any.
pub open spec fn grown_index(f0i: Option<Seq<u8>>, big: bool, arrays: Seq<u8>) -> Option<Seq<u8>> {
    if arrays.len() == 0 {
        f0i
    } else {
        Some((ArrayFileModel { appended: arrays, ..array_file_of(f0i, big) }).finished())
    }
}

/// An array file, where there is one, has a header.
pub open spec fn headed(f0i: Option<Seq<u8>>) -> bool {
    f0i matches Some(g) ==> g.len() >= 16
}

/// The array file with new records has the version of the old one.
proof fn lemma_grown_index(f0i: Option<Seq<u8>>, big: bool, arrays: Seq<u8>)
    requires
        arrays.len() > 0,
        headed(f0i),
    ensures
        ({
            let f = grown_index(f0i, big, arrays)->0;
            let (base, counted) = ssmgrow::array_end(f0i, big);
            &&& array_grown(f, base, arrays)
            &&& ssm::u32_in(f, 0, big) matches Ok(version) && counted == (version > 0)
        }),
        f0i is Some ==> array_kept(f0i->0, grown_index(f0i, big, arrays)->0),
{
    let m = ArrayFileModel { appended: arrays, ..array_file_of(f0i, big) };
    let f = m.finished();
    law_array_file_grown(m);
    bytes::lemma_spans();
    bytes::lemma_uint_bound(big, f.subrange(0, 4));
    if let Some(g) = f0i {
        assert(m.contents =~= g);
    } else {
        assert(f.subrange(0, 4) =~= bytes::resized(Seq::empty(), 4));
        ssmdata::lemma_zero_word(big);
        bytes::law_uint_round_trip(big, 0, 4);
    }
}

/// A cell of a manager's column, as a reader gets it.
pub open spec fn read_cell(
    m: SsmModel,
    manager: StandardModel,
    c: int,
    cd: ColumnModel,
    row: u64,
) -> Result<ValueModel, SsmFault> {
    if cd.kind is Array {
        m.array(manager, c, cd, row)
    } else {
        m.scalar(manager, c, cd, row)
    }
}

/// A cell whose string or array, where it refers to one, lies where those
/// lie: a string in buckets of its own, an array behind the header of the
/// array file.
pub open spec fn refers_well(
    m: SsmModel,
    f0i: Option<Seq<u8>>,
    manager: StandardModel,
    c: int,
    cd: ColumnModel,
    row: u64,
) -> bool {
    if cd.kind is Array {
        m.cell(0, manager.column_offset[c], row, 8) matches Ok(cell) && {
            let at = bytes::signed64(bytes::uint_value(m.header.big_endian, cell) as u64);
            at == 0 || (at >= 16 && (SsmModel { f0i, ..m }).array(manager, c, cd, row) is Ok)
        }
    } else {
        cd.data_type == DataType::String && cd.max_length <= 0 ==> (m.cell(
            0,
            manager.column_offset[c],
            row,
            12,
        ) matches Ok(cell) ==> reference_aside(m, cell))
    }
}

/// A value that a column of a grown file has by default and gives back as it
/// is. A column of arrays of any shape has none.
pub open spec fn default_kept(cd: ColumnModel) -> bool {
    if cd.kind is Array {
        ssmgrow::is_fixed(cd) ==> (defaults::default_value(cd) matches ValueModel::Array(a)
            && celllaw::array_storable(cd.data_type, a))
    } else {
        datalaw::faithful_scalar(cd, cd.kind->Scalar_0)
    }
}

/// What a new cell of a column reads as.
pub open spec fn default_result(cd: ColumnModel, row: u64) -> Result<ValueModel, SsmFault> {
    match cd.kind {
        KindModel::Scalar(v) => Ok(v),
        _ => if ssmgrow::is_fixed(cd) {
            Ok(defaults::default_value(cd))
        } else {
            Err(SsmFault::EmptyArray { row, column: cd.name })
        },
    }
}

/// An array cell of a grown file.
#[verifier::spinoff_prover]
#[verifier::rlimit(60)]
proof fn lemma_grown_array(
    data: Seq<u8>,
    f0i: Option<Seq<u8>>,
    big: bool,
    manager: StandardModel,
    cds: Seq<ColumnModel>,
    old: u64,
    new: u64,
    c: int,
    row: u64,
)
    requires
        sound(data, f0i, big, manager, cds, old, new),
        headed(f0i),
        0 <= c < cds.len(),
        c < manager.col_index_map.len(),
        cds[c].kind is Array,
        ssmgrow::array_end(f0i, big).0 + ssmgrow::grown(
            data,
            f0i,
            big,
            manager,
            cds,
            old,
            new,
        )->0.arrays.len() <= i64::MAX,
        row < old ==> refers_well(ssm::parsed(data, big)->Ok_0, f0i, manager, c, cds[c], row),
        old <= row < new ==> default_kept(cds[c]),
    ensures
        ({
            let m = ssm::parsed(data, big)->Ok_0;
            let gm = ssmgrow::grown(data, f0i, big, manager, cds, old, new)->0;
            let file = growfile::grown_file(data, m.header.bucket_size, gm);
            let f = grown_index(f0i, big, gm.arrays);
            let n = ssm::parsed(file, big)->Ok_0;
            (SsmModel { f0i: f, ..n }).array(manager, c, cds[c], row) == if row < old {
                (SsmModel { f0i, ..m }).array(manager, c, cds[c], row)
            } else if row < new {
                default_result(cds[c], row)
            } else {
                Err(SsmFault::RowOutOfRange { row })
            }
        }),
{
    let (m, kit, g, gm) = lemma_sound(data, f0i, big, manager, cds, old, new);
    let file = growfile::grown_file(data, m.header.bucket_size, gm);
    let f = grown_index(f0i, big, gm.arrays);
    let n = ssm::parsed(file, big)->Ok_0;
    let cd = cds[c];
    let off = manager.column_offset[c];
    let before = SsmModel { f0i, ..m };
    let after = SsmModel { f0i: f, ..n };
    lemma_manager_fits(data, f0i, big, manager, cds, old, new, c);
    lemma_default_at(
        big,
        cds,
        manager.column_offset,
        m.indices[0].rows_per_bucket,
        m.header.bucket_size,
        0,
        Seq::empty(),
        c,
    );
    assert(before.cell(0, off, row, 8) == m.cell(0, off, row, 8));
    assert(after.cell(0, off, row, 8) == n.cell(0, off, row, 8));
    law_grown_index(data, f0i, big, manager, cds, old, new, off, 8, row);
    if gm.arrays.len() > 0 {
        lemma_grown_index(f0i, big, gm.arrays);
    }
    if row < old {
        law_old_rows_kept(data, f0i, big, manager, cds, old, new, c, row);
        assert(growlaw::cell_bytes(kit.defs[c]) == 8);
        let cell = m.cell(0, off, row, 8)->Ok_0;
        let at = bytes::signed64(bytes::uint_value(big, cell) as u64);
        if at != 0 {
            let was = f0i->0;
            assert(array_kept(was, f->0));
            law_old_arrays_kept(data, was, big, manager, cds, old, new, c, row, f->0);
        }
    } else if row < new {
        law_new_rows_default(data, f0i, big, manager, cds, old, new, c, row);
        if ssmgrow::is_fixed(cd) {
            let a = defaults::default_value(cd)->Array_0;
            let rec = ssmout::array_bytes(big, a);
            lemma_record_there(kit, gm.arrays, rec, n, c, row);
            law_new_rows_default_array(data, f0i, big, manager, cds, old, new, c, row, f->0, a);
        } else {
            lemma_zero_reference(big);
        }
    }
}

/// Where a default array is read, records were appended.
proof fn lemma_record_there(
    kit: Kit,
    arrays: Seq<u8>,
    rec: Seq<u8>,
    n: SsmModel,
    c: int,
    row: u64,
)
    requires
        default_read(n, kit, arrays, c, row),
        kit.defs[c] == DefaultModel::Record(rec),
        rec.len() > 0,
    ensures
        arrays.len() > 0,
{
    let k = choose|k: int| #[trigger]
        kit.record_stands(arrays, k, rec) && n.cell(0, kit.offsets[c], row, 8) == Ok::<
            Seq<u8>,
            SsmFault,
        >(
            aipsio::u64_bytes(
                kit.big,
                ((kit.base + k) % 0x1_0000_0000_0000_0000) as u64,
            ),
        );
    assert(kit.record_stands(arrays, k, rec));
    lemma_behind_count(kit, arrays, k, rec);
}

/// A cell of zeros is an empty reference.
proof fn lemma_zero_reference(big: bool)
    ensures
        bytes::signed64(bytes::uint_value(big, bytes::resized(Seq::empty(), 8)) as u64) == 0,
{
    bytes::lemma_spans();
    reveal_with_fuel(bytes::le_digits, 9);
    assert(bytes::uint_bytes(big, 0, 8) =~= bytes::resized(Seq::empty(), 8));
    bytes::law_uint_round_trip(big, 0, 8);
}

/// A grown file with its grown array file, as a whole: it parses; its index
/// ends with the last new row; every cell of an old row reads as before; every
/// cell of a new row reads as its column's default, one of an array of any
/// shape as an empty reference; and the rows after the last are out of range.
#[verifier::spinoff_prover]
#[verifier::rlimit(60)]
pub proof fn law_grown_file(
    data: Seq<u8>,
    f0i: Option<Seq<u8>>,
    big: bool,
    manager: StandardModel,
    cds: Seq<ColumnModel>,
    old: u64,
    new: u64,
    c: int,
    row: u64,
)
    requires
        sound(data, f0i, big, manager, cds, old, new),
        headed(f0i),
        0 <= c < cds.len(),
        c < manager.col_index_map.len(),
        cds[c].data_manager_type == "StandardStMan"@,
        ssmgrow::array_end(f0i, big).0 + ssmgrow::grown(
            data,
            f0i,
            big,
            manager,
            cds,
            old,
            new,
        )->0.arrays.len() <= i64::MAX,
        row < old ==> refers_well(
            ssm::parsed(data, big)->Ok_0,
            f0i,
            manager,
            c,
            cds[c],
            row,
        ),
        old <= row < new ==> default_kept(cds[c]),
    ensures
        ({
            let m = ssm::parsed(data, big)->Ok_0;
            let gm = ssmgrow::grown(data, f0i, big, manager, cds, old, new)->0;
            let file = growfile::grown_file(data, m.header.bucket_size, gm);
            let f = grown_index(f0i, big, gm.arrays);
            let n = ssm::parsed(file, big)->Ok_0;
            &&& ssm::parsed(file, big) is Ok
            &&& new > 0 ==> n.indices[0].last_row.last() == new - 1
            &&& read_cell(SsmModel { f0i: f, ..n }, manager, c, cds[c], row) == if row < old {
                read_cell(SsmModel { f0i, ..m }, manager, c, cds[c], row)
            } else if row < new {
                default_result(cds[c], row)
            } else {
                Err(SsmFault::RowOutOfRange { row })
            }
        }),
{
    let (m, kit, g, gm) = lemma_sound(data, f0i, big, manager, cds, old, new);
    let file = growfile::grown_file(data, m.header.bucket_size, gm);
    let f = grown_index(f0i, big, gm.arrays);
    let n = ssm::parsed(file, big)->Ok_0;
    let cd = cds[c];
    let off = manager.column_offset[c];
    let before = SsmModel { f0i, ..m };
    let after = SsmModel { f0i: f, ..n };
    lemma_manager_fits(data, f0i, big, manager, cds, old, new, c);
    lemma_default_at(
        big,
        cds,
        manager.column_offset,
        m.indices[0].rows_per_bucket,
        m.header.bucket_size,
        0,
        Seq::empty(),
        c,
    );
    let size = ssmcell::cell_size(cd.data_type, cd.max_length);
    law_grown_index(data, f0i, big, manager, cds, old, new, off, if cd.kind is Array {
        8
    } else {
        size
    }, row);
    if cd.kind is Scalar {
        flushlaw::lemma_same_scalar(n, f, manager, manager, c, cd, row);
        flushlaw::lemma_same_scalar(m, f0i, manager, manager, c, cd, row);
        if row < old {
            law_old_values_kept(data, f0i, big, manager, cds, old, new, c, row);
        } else if row < new {
            law_new_rows_default(data, f0i, big, manager, cds, old, new, c, row);
            lemma_default_scalar(n, kit, manager, cd, gm.arrays, c, row);
        }
    } else {
        lemma_grown_array(data, f0i, big, manager, cds, old, new, c, row);
    }
}

/// A new row of a grown file, in a column of arrays of one shape: an array of
/// that shape each of whose elements is the zero of the column's type. In a
/// column of scalars it is the column's default.
pub proof fn law_grown_rows_zero(
    data: Seq<u8>,
    f0i: Option<Seq<u8>>,
    big: bool,
    manager: StandardModel,
    cds: Seq<ColumnModel>,
    old: u64,
    new: u64,
    c: int,
    row: u64,
)
    requires
        sound(data, f0i, big, manager, cds, old, new),
        headed(f0i),
        0 <= c < cds.len(),
        c < manager.col_index_map.len(),
        cds[c].data_manager_type == "StandardStMan"@,
        ssmgrow::array_end(f0i, big).0 + ssmgrow::grown(
            data,
            f0i,
            big,
            manager,
            cds,
            old,
            new,
        )->0.arrays.len() <= i64::MAX,
        old <= row < new,
        default_kept(cds[c]),
        cds[c].kind is Array ==> defaults::holds_arrays(cds[c].data_type) && (
        cds[c].shape matches Some(s) && s.len() > 0 && forall|i: int|
            0 <= i < s.len() ==> 0 < #[trigger] s[i] <= u32::MAX),
    ensures
        ({
            let m = ssm::parsed(data, big)->Ok_0;
            let gm = ssmgrow::grown(data, f0i, big, manager, cds, old, new)->0;
            let file = growfile::grown_file(data, m.header.bucket_size, gm);
            let f = grown_index(f0i, big, gm.arrays);
            let n = SsmModel { f0i: f, ..ssm::parsed(file, big)->Ok_0 };
            let cd = cds[c];
            &&& ssm::parsed(file, big) is Ok
            &&& cd.kind is Scalar ==> n.scalar(manager, c, cd, row) == Ok::<ValueModel, SsmFault>(
                cd.kind->Scalar_0,
            )
            &&& cd.kind is Array ==> (n.array(manager, c, cd, row) matches Ok(ValueModel::Array(a))
                && {
                let s = cd.shape->0;
                &&& a.shape.len() == s.len()
                &&& forall|i: int| 0 <= i < s.len() ==> #[trigger] a.shape[i] == s[s.len() - 1 - i]
                &&& defaults::of_type(cd.data_type, a.data)
                &&& defaults::all_zero(a.data)
                &&& celllaw::element_count(a.data) == ssmcell::product(a.shape)
            })
        }),
{
    law_grown_file(data, f0i, big, manager, cds, old, new, c, row);
    let cd = cds[c];
    let (m, kit, g, gm) = lemma_sound(data, f0i, big, manager, cds, old, new);
    lemma_default_at(
        big,
        cds,
        manager.column_offset,
        m.indices[0].rows_per_bucket,
        m.header.bucket_size,
        0,
        Seq::empty(),
        c,
    );
    if cd.kind is Array {
        assert(ssmgrow::is_fixed(cd)) by {
            let s = cd.shape->0;
            assert forall|i: int| 0 <= i < s.len() implies #[trigger] s[i] > 0 by {}
        }
        defaults::law_unwritten_array(cd);
    }
}

} // verus!
