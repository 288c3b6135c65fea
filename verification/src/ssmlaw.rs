//! What reading gives back of a written StandardStMan data file.
use crate::aipsio;
use crate::aipsio::{AipsIoFault, Cursor};
use crate::bytes;
use crate::columnset;
use crate::setlaw;
use crate::ssm;
use crate::ssm::{HeaderNumbers, IndexModel, IndexedBucket, SsmFault, SsmModel};
use crate::ssmfile;
use crate::ssmout;
use crate::ssmout::{CellsModel, LayoutModel};
use vstd::prelude::*;

verus! {

#[verifier::rlimit(40)]
pub proof fn lemma_numbers_parts(c: Cursor, n: HeaderNumbers)
    requires
        0 <= c.pos,
        c.holds(ssmfile::numbers_bytes(c.big, n)),
    ensures
        c.holds(aipsio::u32_bytes(c.big, n.bucket_size)),
        c.skip(4).holds(aipsio::u32_bytes(c.big, n.nr_buckets)),
        c.skip(8).holds(aipsio::u32_bytes(c.big, n.pers_cache_size)),
        c.skip(12).holds(aipsio::u32_bytes(c.big, n.n_free_bucket)),
        c.skip(16).holds(aipsio::i32_bytes(c.big, n.first_free_bucket)),
        c.skip(20).holds(aipsio::u32_bytes(c.big, n.nr_index_buckets)),
        c.skip(24).holds(aipsio::i32_bytes(c.big, n.first_index_bucket)),
        c.skip(28).holds(aipsio::i32_bytes(c.big, n.index_bucket_offset)),
        c.skip(32).holds(aipsio::i32_bytes(c.big, n.last_string_bucket)),
        c.skip(36).holds(aipsio::u32_bytes(c.big, n.index_length)),
        c.skip(40).holds(aipsio::u32_bytes(c.big, n.nr_index)),
        ssmfile::numbers_bytes(c.big, n).len() == 44,
{
    let big = c.big;
    let a1 = aipsio::u32_bytes(big, n.bucket_size);
    let a2 = aipsio::u32_bytes(big, n.nr_buckets);
    let a3 = aipsio::u32_bytes(big, n.pers_cache_size);
    let a4 = aipsio::u32_bytes(big, n.n_free_bucket);
    let b1 = aipsio::i32_bytes(big, n.first_free_bucket);
    let b2 = aipsio::u32_bytes(big, n.nr_index_buckets);
    let b3 = aipsio::i32_bytes(big, n.first_index_bucket);
    let b4 = aipsio::i32_bytes(big, n.index_bucket_offset);
    let c1 = aipsio::i32_bytes(big, n.last_string_bucket);
    let c2 = aipsio::u32_bytes(big, n.index_length);
    let c3 = aipsio::u32_bytes(big, n.nr_index);
    bytes::lemma_uint_bytes_len(big, n.bucket_size as nat, 4);
    bytes::lemma_uint_bytes_len(big, n.nr_buckets as nat, 4);
    bytes::lemma_uint_bytes_len(big, n.pers_cache_size as nat, 4);
    bytes::lemma_uint_bytes_len(big, n.n_free_bucket as nat, 4);
    bytes::lemma_uint_bytes_len(big, bytes::pattern32(n.first_free_bucket) as nat, 4);
    bytes::lemma_uint_bytes_len(big, n.nr_index_buckets as nat, 4);
    bytes::lemma_uint_bytes_len(big, bytes::pattern32(n.first_index_bucket) as nat, 4);
    bytes::lemma_uint_bytes_len(big, bytes::pattern32(n.index_bucket_offset) as nat, 4);
    bytes::lemma_uint_bytes_len(big, bytes::pattern32(n.last_string_bucket) as nat, 4);
    bytes::lemma_uint_bytes_len(big, n.index_length as nat, 4);
    bytes::lemma_uint_bytes_len(big, n.nr_index as nat, 4);
    let x = a1 + a2 + a3 + a4;
    let y = b1 + b2 + b3 + b4;
    let z = c1 + c2 + c3;
    aipsio::lemma_holds_concat(c, x + y, z);
    aipsio::lemma_holds_concat(c, x, y);
    lemma_four(c, a1, a2, a3, a4);
    lemma_four(c.skip(16), b1, b2, b3, b4);
    aipsio::lemma_holds_concat(c.skip(32), c1 + c2, c3);
    aipsio::lemma_holds_concat(c.skip(32), c1, c2);
}

proof fn lemma_four(c: Cursor, a: Seq<u8>, b: Seq<u8>, d: Seq<u8>, e: Seq<u8>)
    requires
        a.len() == 4,
        b.len() == 4,
        d.len() == 4,
        e.len() == 4,
        c.holds(a + b + d + e),
    ensures
        c.holds(a),
        c.skip(4).holds(b),
        c.skip(8).holds(d),
        c.skip(12).holds(e),
{
    aipsio::lemma_holds_concat(c, a + b + d, e);
    aipsio::lemma_holds_concat(c, a + b, d);
    aipsio::lemma_holds_concat(c, a, b);
}

pub proof fn lemma_numbers_round_trip(c: Cursor, n: HeaderNumbers)
    requires
        0 <= c.pos,
        c.holds(ssmfile::numbers_bytes(c.big, n)),
    ensures
        ssm::header_numbers_at(c) == Ok::<(HeaderNumbers, Cursor), (AipsIoFault, Cursor)>(
            (n, c.skip(44)),
        ),
{
    reveal(ssm::header_numbers_at);
    lemma_numbers_parts(c, n);
    aipsio::law_u32_round_trip(c, n.bucket_size);
    aipsio::law_u32_round_trip(c.skip(4), n.nr_buckets);
    aipsio::law_u32_round_trip(c.skip(8), n.pers_cache_size);
    aipsio::law_u32_round_trip(c.skip(12), n.n_free_bucket);
    aipsio::law_i32_round_trip(c.skip(16), n.first_free_bucket);
    aipsio::law_u32_round_trip(c.skip(20), n.nr_index_buckets);
    aipsio::law_i32_round_trip(c.skip(24), n.first_index_bucket);
    aipsio::law_i32_round_trip(c.skip(28), n.index_bucket_offset);
    aipsio::law_i32_round_trip(c.skip(32), n.last_string_bucket);
    aipsio::law_u32_round_trip(c.skip(36), n.index_length);
    aipsio::law_u32_round_trip(c.skip(40), n.nr_index);
    assert(c.skip(4).skip(4) == c.skip(8));
    assert(c.skip(8).skip(4) == c.skip(12));
    assert(c.skip(12).skip(4) == c.skip(16));
    assert(c.skip(16).skip(4) == c.skip(20));
    assert(c.skip(20).skip(4) == c.skip(24));
    assert(c.skip(24).skip(4) == c.skip(28));
    assert(c.skip(28).skip(4) == c.skip(32));
    assert(c.skip(32).skip(4) == c.skip(36));
    assert(c.skip(36).skip(4) == c.skip(40));
    assert(c.skip(40).skip(4) == c.skip(44));
}

/// The version of a header.
pub open spec fn header_version(big: bool) -> u32 {
    if big {
        2
    } else {
        3
    }
}

proof fn lemma_header_len(big: bool, n: HeaderNumbers)
    ensures
        ssmfile::header_bytes(big, n).len() <= 100,
{
    let c = Cursor { data: ssmfile::numbers_bytes(big, n), big, pos: 0 };
    assert(c.data.subrange(0, c.data.len() as int) =~= c.data);
    lemma_numbers_parts(c, n);
    reveal_strlit("StandardStMan");
    vstd::utf8::is_ascii_chars_encode_utf8("StandardStMan"@);
    let version = header_version(big);
    bytes::lemma_uint_bytes_len(big, aipsio::MAGIC as nat, 4);
    bytes::lemma_uint_bytes_len(big, version as nat, 4);
    bytes::lemma_uint_bytes_len(big, bytes::low32(13) as nat, 4);
    let len = if big {
        44int
    } else {
        45int
    };
    bytes::lemma_uint_bytes_len(big, bytes::low32(12 + 13 + len) as nat, 4);
}

/// The header of a file that begins with a written header is read back.
proof fn lemma_header_round_trip(data: Seq<u8>, big: bool, n: HeaderNumbers)
    requires
        ({
            let h = ssmfile::header_bytes(big, n);
            h.len() <= data.len() && data.subrange(0, h.len() as int) == h
        }),
    ensures
        ssm::header_of(data, big) == Ok::<ssm::StandardStManHeader, SsmFault>(
            ssm::header_with(header_version(big), big, n),
        ),
{
    let c = Cursor { data, big, pos: 0 };
    let h = ssmfile::header_bytes(big, n);
    assert(c.holds(h));
    reveal_strlit("StandardStMan");
    vstd::utf8::is_ascii_chars_encode_utf8("StandardStMan"@);
    let b = ssmfile::numbers_bytes(big, n);
    if big {
        aipsio::law_object_round_trip(c, true, "StandardStMan"@, 2, b);
        let (head, d) = c.object_start(true)->Ok_0;
        lemma_numbers_round_trip(d, n);
    } else {
        let f = aipsio::bool_bytes(false);
        aipsio::law_object_round_trip(c, true, "StandardStMan"@, 3, f + b);
        let (head, d) = c.object_start(true)->Ok_0;
        aipsio::lemma_holds_concat(d, f, b);
        aipsio::law_bool_round_trip(d, false);
        lemma_numbers_round_trip(d.skip(1), n);
    }
}

/// A written block of bucket numbers is read back.
proof fn lemma_block(c: Cursor, s: Seq<u32>)
    requires
        0 <= c.pos,
        s.len() <= u32::MAX,
        c.holds(columnset::block_bytes(c.big, s)),
    ensures
        ssm::numbers_at(c) == Ok::<(Seq<u32>, Cursor), (SsmFault, Cursor)>(
            (s, c.skip(columnset::block_bytes(c.big, s).len() as int)),
        ),
        ssm::last_rows_at(c, 1) == Ok::<(Seq<u64>, Cursor), (SsmFault, Cursor)>(
            (ssm::widened(s), c.skip(columnset::block_bytes(c.big, s).len() as int)),
        ),
{
    let big = c.big;
    let n = bytes::low32(s.len() as int);
    let head = aipsio::u32_bytes(big, n);
    let body = columnset::u32s_bytes(big, s, s.len());
    reveal_strlit("Block");
    vstd::utf8::is_ascii_chars_encode_utf8("Block"@);
    aipsio::law_object_round_trip(c, false, "Block"@, 1, head + body);
    let (h, d) = c.object_start(false)->Ok_0;
    aipsio::lemma_holds_concat(d, head, body);
    bytes::lemma_uint_bytes_len(big, n as nat, 4);
    aipsio::law_u32_round_trip(d, n);
    setlaw::law_u32s_round_trip(d.skip(4), s);
    setlaw::lemma_u32s_len(big, s, s.len());
}

proof fn lemma_free_map(c: Cursor)
    requires
        0 <= c.pos,
        c.holds(ssmout::free_map_bytes(c.big)),
    ensures
        ssm::free_map_at(c) == Ok::<((), Cursor), (SsmFault, Cursor)>(
            ((), c.skip(ssmout::free_map_bytes(c.big).len() as int)),
        ),
{
    let big = c.big;
    let a = aipsio::i32_bytes(big, 0);
    let b = aipsio::u32_bytes(big, 0);
    let e = aipsio::u32_bytes(big, 1);
    bytes::lemma_uint_bytes_len(big, bytes::pattern32(0) as nat, 4);
    bytes::lemma_uint_bytes_len(big, 0, 4);
    bytes::lemma_uint_bytes_len(big, 1, 4);
    reveal_strlit("SimpleOrderedMap");
    vstd::utf8::is_ascii_chars_encode_utf8("SimpleOrderedMap"@);
    aipsio::law_object_round_trip(c, false, "SimpleOrderedMap"@, 1, a + b + e);
    let (h, d) = c.object_start(false)->Ok_0;
    aipsio::lemma_holds_concat(d, a + b, e);
    aipsio::lemma_holds_concat(d, a, b);
    aipsio::law_i32_round_trip(d, 0);
    aipsio::law_u32_round_trip(d.skip(4), 0);
    aipsio::law_u32_round_trip(d.skip(4).skip(4), 1);
}

/// The index of a written file.
pub open spec fn written_index(n_rows: u64, rows_per_bucket: u32, nr_columns: nat) -> IndexModel {
    IndexModel {
        rows_per_bucket,
        nr_columns: bytes::signed32(bytes::low32(nr_columns as int)),
        last_row: ssm::widened(ssmout::last_rows(n_rows, rows_per_bucket)),
        bucket_number: ssmout::bucket_numbers(n_rows, rows_per_bucket),
    }
}

proof fn lemma_index_rest(c: Cursor, last: Seq<u32>, numbers: Seq<u32>)
    requires
        0 <= c.pos,
        last.len() <= u32::MAX,
        numbers.len() <= u32::MAX,
        c.holds(
            ssmout::free_map_bytes(c.big) + columnset::block_bytes(c.big, last)
                + columnset::block_bytes(c.big, numbers),
        ),
    ensures
        ssm::index_rest_at(c, 1) matches Ok(((a, b), _)) && a == ssm::widened(last) && b == numbers,
{
    reveal(ssm::index_rest_at);
    let b1 = ssmout::free_map_bytes(c.big);
    let b2 = columnset::block_bytes(c.big, last);
    let b3 = columnset::block_bytes(c.big, numbers);
    aipsio::lemma_holds_concat(c, b1 + b2, b3);
    aipsio::lemma_holds_concat(c, b1, b2);
    lemma_free_map(c);
    let e1 = c.skip(b1.len() as int);
    lemma_block(e1, last);
    let e2 = e1.skip(b2.len() as int);
    assert(c.skip((b1 + b2).len() as int) == e2);
    lemma_block(e2, numbers);
}

/// The index of the given last rows and bucket numbers.
pub open spec fn listed_model(
    rows_per_bucket: u32,
    nr_columns: nat,
    last: Seq<u32>,
    numbers: Seq<u32>,
) -> IndexModel {
    IndexModel {
        rows_per_bucket,
        nr_columns: bytes::signed32(bytes::low32(nr_columns as int)),
        last_row: ssm::widened(last),
        bucket_number: numbers,
    }
}

/// A written index of any last rows and bucket numbers is read back.
#[verifier::spinoff_prover]
#[verifier::rlimit(80)]
pub proof fn law_listed_index_round_trip(
    c: Cursor,
    rows_per_bucket: u32,
    nr_columns: nat,
    last: Seq<u32>,
    numbers: Seq<u32>,
)
    requires
        0 <= c.pos,
        last.len() <= u32::MAX,
        numbers.len() <= u32::MAX,
        c.holds(ssmout::listed_index(c.big, rows_per_bucket, nr_columns, last, numbers)),
    ensures
        ssm::index_at(c) matches Ok((m, _)) && m == listed_model(
            rows_per_bucket,
            nr_columns,
            last,
            numbers,
        ),
{
    reveal(ssm::index_at);
    let big = c.big;
    let count = bytes::low32(last.len() as int);
    let columns = bytes::signed32(bytes::low32(nr_columns as int));
    let a1 = aipsio::u32_bytes(big, count);
    let a2 = aipsio::u32_bytes(big, rows_per_bucket);
    let a3 = aipsio::i32_bytes(big, columns);
    let b1 = ssmout::free_map_bytes(big);
    let b2 = columnset::block_bytes(big, last);
    let b3 = columnset::block_bytes(big, numbers);
    bytes::lemma_uint_bytes_len(big, count as nat, 4);
    bytes::lemma_uint_bytes_len(big, rows_per_bucket as nat, 4);
    bytes::lemma_uint_bytes_len(big, bytes::pattern32(columns) as nat, 4);
    reveal_strlit("SSMIndex");
    vstd::utf8::is_ascii_chars_encode_utf8("SSMIndex"@);
    aipsio::law_object_round_trip(
        c,
        true,
        "SSMIndex"@,
        1,
        ssmout::index_body(big, rows_per_bucket, nr_columns, last, numbers),
    );
    let (h, d) = c.object_start(true)->Ok_0;
    aipsio::lemma_holds_concat(d, a1 + a2 + a3, b1 + b2 + b3);
    aipsio::lemma_holds_concat(d, a1 + a2, a3);
    aipsio::lemma_holds_concat(d, a1, a2);
    let e = d.skip(12);
    assert(d.skip((a1 + a2 + a3).len() as int) == e);
    assert(d.skip((a1 + a2).len() as int) == d.skip(4).skip(4));
    aipsio::law_u32_round_trip(d, count);
    aipsio::law_u32_round_trip(d.skip(4), rows_per_bucket);
    aipsio::law_i32_round_trip(d.skip(4).skip(4), columns);
    assert(d.skip(4).skip(4).skip(4) == e);
    lemma_index_rest(e, last, numbers);
}

/// A written index is read back.
pub proof fn law_index_round_trip(c: Cursor, n_rows: u64, rows_per_bucket: u32, nr_columns: nat)
    requires
        0 <= c.pos,
        0 < rows_per_bucket,
        ssmout::pieces(n_rows as int, rows_per_bucket as int) <= u32::MAX,
        c.holds(ssmout::index_stream(c.big, n_rows, rows_per_bucket, nr_columns)),
    ensures
        ssm::index_at(c) matches Ok((m, _)) && m == written_index(
            n_rows,
            rows_per_bucket,
            nr_columns,
        ),
{
    ssmout::lemma_pieces(n_rows as int, rows_per_bucket as int);
    law_listed_index_round_trip(
        c,
        rows_per_bucket,
        nr_columns,
        ssmout::last_rows(n_rows, rows_per_bucket),
        ssmout::bucket_numbers(n_rows, rows_per_bucket),
    );
}

proof fn lemma_bucket_len(layout: LayoutModel, cols: Seq<CellsModel>, start: int, end: int, n: nat)
    ensures
        ssmfile::data_bucket(layout, cols, start, end, n).len() == layout.bucket_size,
    decreases n,
{
    if n > 0 {
        lemma_bucket_len(layout, cols, start, end, (n - 1) as nat);
    }
}

/// Data bucket `b` stands at its place among the data buckets.
#[verifier::rlimit(40)]
proof fn lemma_data_place(
    layout: LayoutModel,
    cols: Seq<CellsModel>,
    n_rows: u64,
    n: nat,
    b: int,
)
    ensures
        ssmfile::data_bytes(layout, cols, n_rows, n).len() == n * layout.bucket_size,
        0 <= b < n ==> {
            &&& b * layout.bucket_size + layout.bucket_size <= n * layout.bucket_size
            &&& ssmfile::data_bytes(layout, cols, n_rows, n).subrange(
                b * layout.bucket_size,
                b * layout.bucket_size + layout.bucket_size,
            ) == ssmfile::bucket_image(layout, cols, n_rows, b)
        },
    decreases n,
{
    let size = layout.bucket_size as int;
    if n > 0 {
        let m = (n - 1) as nat;
        lemma_data_place(layout, cols, n_rows, m, b);
        let before = ssmfile::data_bytes(layout, cols, n_rows, m);
        let last = ssmfile::bucket_image(layout, cols, n_rows, n - 1);
        lemma_bucket_len(
            layout,
            cols,
            (n - 1) * layout.rows_per_bucket,
            ssm::min(n * layout.rows_per_bucket, n_rows as int),
            cols.len(),
        );
        assert(n * size == m * size + size) by (nonlinear_arith)
            requires
                n == m + 1,
        ;
        assert(n * layout.rows_per_bucket == ((n - 1) + 1) * layout.rows_per_bucket);
        assert(last.len() == size);
        if b == n - 1 {
            assert((before + last).subrange(b * size, b * size + size) =~= last);
        } else if 0 <= b < m {
            assert(0 <= b * size) by (nonlinear_arith)
                requires
                    0 <= b,
                    0 <= size,
            ;
            assert((before + last).subrange(b * size, b * size + size) =~= before.subrange(
                b * size,
                b * size + size,
            ));
        }
    } else {
        assert(0 * size == 0);
    }
}

#[verifier::rlimit(40)]
proof fn lemma_index_place(big: bool, stream: Seq<u8>, size: u32, first: int, n: nat, b: int)
    ensures
        ssmfile::index_bytes(big, stream, size, first, n).len() == n * size,
        0 <= b < n ==> {
            &&& b * size + size <= n * size
            &&& ssmfile::index_bytes(big, stream, size, first, n).subrange(
                b * size,
                b * size + size,
            ) == ssmfile::index_bucket(big, stream, size, first, b)
        },
    decreases n,
{
    if n > 0 {
        let m = (n - 1) as nat;
        lemma_index_place(big, stream, size, first, m, b);
        let before = ssmfile::index_bytes(big, stream, size, first, m);
        let last = ssmfile::index_bucket(big, stream, size, first, n - 1);
        assert(n * size == m * size + size) by (nonlinear_arith)
            requires
                n == m + 1,
        ;
        assert(last.len() == size);
        if b == n - 1 {
            assert((before + last).subrange(b * size, b * size + size) =~= last);
        } else if 0 <= b < m {
            assert(0 <= b * size) by (nonlinear_arith)
                requires
                    0 <= b,
                    0 <= size,
            ;
            assert((before + last).subrange(b * size, b * size + size) =~= before.subrange(
                b * size,
                b * size + size,
            ));
        }
    } else {
        assert(0 * (size as int) == 0);
    }
}

/// All string buckets are whole.
pub open spec fn whole_buckets(strings: Seq<Seq<u8>>, size: u32) -> bool {
    forall|i: int| 0 <= i < strings.len() ==> (#[trigger] strings[i]).len() == size
}

#[verifier::rlimit(40)]
proof fn lemma_joined_place(strings: Seq<Seq<u8>>, size: u32, n: nat, b: int)
    requires
        n <= strings.len(),
        whole_buckets(strings, size),
    ensures
        ssmfile::joined(strings, n).len() == n * size,
        0 <= b < n ==> {
            &&& b * size + size <= n * size
            &&& ssmfile::joined(strings, n).subrange(b * size, b * size + size) == strings[b]
        },
    decreases n,
{
    if n > 0 {
        let m = (n - 1) as nat;
        lemma_joined_place(strings, size, m, b);
        let before = ssmfile::joined(strings, m);
        let last = strings[n - 1];
        assert(n * size == m * size + size) by (nonlinear_arith)
            requires
                n == m + 1,
        ;
        assert(last.len() == size);
        if b == n - 1 {
            assert((before + last).subrange(b * size, b * size + size) =~= last);
        } else if 0 <= b < m {
            assert(0 <= b * size) by (nonlinear_arith)
                requires
                    0 <= b,
                    0 <= size,
            ;
            assert((before + last).subrange(b * size, b * size + size) =~= before.subrange(
                b * size,
                b * size + size,
            ));
        }
    } else {
        assert(0 * (size as int) == 0);
    }
}

/// A part of the second of four pieces.
proof fn lemma_in_second(a: Seq<u8>, b: Seq<u8>, c: Seq<u8>, d: Seq<u8>, from: int, to: int)
    requires
        0 <= from <= to <= b.len(),
    ensures
        (a + b + c + d).subrange(a.len() + from, a.len() + to) == b.subrange(from, to),
{
    assert((a + b + c + d).subrange(a.len() + from, a.len() + to) =~= b.subrange(from, to));
}

proof fn lemma_in_third(a: Seq<u8>, b: Seq<u8>, c: Seq<u8>, d: Seq<u8>, from: int, to: int)
    requires
        0 <= from <= to <= c.len(),
    ensures
        (a + b + c + d).subrange(a.len() + b.len() + from, a.len() + b.len() + to) == c.subrange(
            from,
            to,
        ),
{
    assert((a + b + c + d).subrange(a.len() + b.len() + from, a.len() + b.len() + to)
        =~= c.subrange(from, to));
}

proof fn lemma_in_fourth(a: Seq<u8>, b: Seq<u8>, c: Seq<u8>, d: Seq<u8>, from: int, to: int)
    requires
        0 <= from <= to <= d.len(),
    ensures
        (a + b + c + d).subrange(
            a.len() + b.len() + c.len() + from,
            a.len() + b.len() + c.len() + to,
        ) == d.subrange(from, to),
{
    assert((a + b + c + d).subrange(
        a.len() + b.len() + c.len() + from,
        a.len() + b.len() + c.len() + to,
    ) =~= d.subrange(from, to));
}

/// The index stream of a written file.
pub open spec fn file_stream(big: bool, n_rows: u64, cols: Seq<CellsModel>, layout: LayoutModel) -> Seq<
    u8,
> {
    ssmout::index_stream(big, n_rows, layout.rows_per_bucket, cols.len())
}

/// The header numbers of a written file.
pub open spec fn file_numbers(
    big: bool,
    n_rows: u64,
    cols: Seq<CellsModel>,
    layout: LayoutModel,
    strings: Seq<Seq<u8>>,
) -> HeaderNumbers {
    let len = file_stream(big, n_rows, cols, layout).len() as int;
    ssmfile::written_numbers(
        layout.bucket_size,
        ssmfile::data_count(layout, n_rows),
        ssmfile::index_count(layout, len),
        strings.len() as int,
        len,
    )
}

/// A file that can be read back: the buckets can be counted in 31 bits, the
/// rows in 32 bits, and the string buckets are whole.
pub open spec fn file_storable(
    big: bool,
    n_rows: u64,
    cols: Seq<CellsModel>,
    layout: LayoutModel,
    strings: Seq<Seq<u8>>,
) -> bool {
    let len = file_stream(big, n_rows, cols, layout).len() as int;
    &&& ssmfile::layout_fits(layout, cols, n_rows)
    &&& n_rows <= 0x1_0000_0000
    &&& len <= u32::MAX
    &&& ssmfile::data_count(layout, n_rows) + ssmfile::index_count(layout, len) + strings.len()
        <= i32::MAX
    &&& whole_buckets(strings, layout.bucket_size)
}

/// The buckets of a written file stand in their places: first the data
/// buckets, then the index buckets, then the string buckets.
#[verifier::rlimit(40)]
pub proof fn lemma_file_buckets(
    big: bool,
    n_rows: u64,
    cols: Seq<CellsModel>,
    layout: LayoutModel,
    strings: Seq<Seq<u8>>,
    k: u32,
)
    requires
        file_storable(big, n_rows, cols, layout, strings),
    ensures
        ({
            let file = ssmfile::file_bytes(big, n_rows, cols, layout, strings);
            let stream = file_stream(big, n_rows, cols, layout);
            let size = layout.bucket_size;
            let data = ssmfile::data_count(layout, n_rows);
            let index = ssmfile::index_count(layout, stream.len() as int);
            &&& k < data ==> ssm::bucket_of(file, size, k) == Some(
                ssmfile::bucket_image(layout, cols, n_rows, k as int),
            )
            &&& data <= k < data + index ==> ssm::bucket_of(file, size, k) == Some(
                ssmfile::index_bucket(big, stream, size, data, k - data),
            )
            &&& data + index <= k < data + index + strings.len() ==> ssm::bucket_of(file, size, k)
                == Some(strings[k - data - index])
            &&& file.len() == 512 + (data + index + strings.len()) * size
        }),
{
    let stream = file_stream(big, n_rows, cols, layout);
    let size = layout.bucket_size;
    let sz = size as int;
    let data = ssmfile::data_count(layout, n_rows);
    let index = ssmfile::index_count(layout, stream.len() as int);
    let n = strings.len();
    ssmout::lemma_pieces(n_rows as int, layout.rows_per_bucket as int);
    ssmout::lemma_pieces(stream.len() as int, size - 8);
    let a = bytes::resized(
        ssmfile::header_bytes(big, file_numbers(big, n_rows, cols, layout, strings)),
        512,
    );
    let b = ssmfile::data_bytes(layout, cols, n_rows, data as nat);
    let c = ssmfile::index_bytes(big, stream, size, data, index as nat);
    let d = ssmfile::joined(strings, n);
    lemma_data_place(layout, cols, n_rows, data as nat, k as int);
    lemma_index_place(big, stream, size, data, index as nat, k - data);
    lemma_joined_place(strings, size, n, k - data - index);
    assert((data + index + n) * sz == data * sz + index * sz + n * sz && (k - data) * sz == k * sz
        - data * sz && (k - data - index) * sz == k * sz - data * sz - index * sz) by (nonlinear_arith)
        requires
            true,
    ;
    assert(0 <= k * sz && (k >= data ==> 0 <= (k - data) * sz) && (k >= data + index ==> 0 <= (k
        - data - index) * sz) && 0 <= data * sz && 0 <= index * sz && 0 <= n * sz)
        by (nonlinear_arith)
        requires
            0 <= sz,
            0 <= k,
            0 <= data,
            0 <= index,
            0 <= n,
    ;
    if k < data {
        lemma_in_second(a, b, c, d, k * sz, k * sz + sz);
    } else if k < data + index {
        lemma_in_third(a, b, c, d, (k - data) * sz, (k - data) * sz + sz);
    } else if k < data + index + n {
        lemma_in_fourth(a, b, c, d, (k - data - index) * sz, (k - data - index) * sz + sz);
    }
}

/// What stands in an index bucket.
#[verifier::rlimit(40)]
proof fn lemma_index_bucket(big: bool, stream: Seq<u8>, size: u32, first: int, i: int)
    requires
        size > 8,
        0 <= i < ssmout::pieces(stream.len() as int, size - 8),
        0 <= first,
        first + ssmout::pieces(stream.len() as int, size - 8) <= i32::MAX,
    ensures
        ({
            let room = size - 8;
            let len = stream.len() as int;
            let b = ssmfile::index_bucket(big, stream, size, first, i);
            let n = ssm::min(len - i * room, room);
            &&& 0 <= i * room <= len
            &&& b.len() == size
            &&& ssm::i32_in(b, 4, big) == Ok::<i32, SsmFault>(
                if i + 1 < ssmout::pieces(len, room) {
                    (first + i + 1) as i32
                } else {
                    -1i32 as i32
                },
            )
            &&& b.subrange(8, 8 + n) == stream.subrange(i * room, i * room + n)
            &&& i + 1 == ssmout::pieces(len, room) ==> n == len - i * room
            &&& i + 1 < ssmout::pieces(len, room) ==> n == room && (i + 1) * room == i * room + room
        }),
{
    let room = size - 8;
    let len = stream.len() as int;
    let count = ssmout::pieces(len, room);
    let n = ssm::min(len - i * room, room);
    ssmout::lemma_pieces(len, room);
    assert((i + 1) * room == i * room + room && i * room >= 0 && (count - 1) * room == count * room
        - room && i * room <= (count - 1) * room && (i + 1 < count ==> (i + 1) * room <= (count
        - 1) * room)) by (nonlinear_arith)
        requires
            0 <= i < count,
            room > 0,
    ;
    let next = if i + 1 < count {
        bytes::signed32(bytes::low32(first + i + 1))
    } else {
        -1i32 as i32
    };
    let a = aipsio::i32_bytes(big, -1i32 as i32);
    let b = aipsio::i32_bytes(big, next);
    let piece = stream.subrange(i * room, ssm::min((i + 1) * room, len));
    bytes::lemma_uint_bytes_len(big, bytes::pattern32(-1i32 as i32) as nat, 4);
    bytes::lemma_uint_bytes_len(big, bytes::pattern32(next) as nat, 4);
    bytes::lemma_spans();
    bytes::law_uint_round_trip(big, bytes::pattern32(next) as nat, 4);
    let bucket = ssmfile::index_bucket(big, stream, size, first, i);
    assert(bucket.subrange(4, 8) =~= b);
    assert(bucket.subrange(8, 8 + n) =~= piece);
    assert(piece =~= stream.subrange(i * room, i * room + n));
}

pub proof fn lemma_chain_step(
    file: Seq<u8>,
    h: ssm::StandardStManHeader,
    k: nat,
    nr: u32,
    left: int,
    bucket: Seq<u8>,
    next: i32,
)
    requires
        k > 0,
        h.index_bucket_offset == 8 || h.index_bucket_offset == 0,
        ssm::bucket_of(file, h.bucket_size, nr) == Some(bucket),
        ssm::i32_in(bucket, 4, h.big_endian) == Ok::<i32, SsmFault>(next),
        bucket.len() >= 8,
    ensures
        ssm::chain(file, h, k, nr, left) == ({
            let n = ssm::min(left, bucket.len() - 8);
            let piece = bucket.subrange(8, 8 + n);
            if next < 0 {
                Ok::<Seq<u8>, SsmFault>(piece)
            } else {
                match ssm::chain(file, h, (k - 1) as nat, next as u32, left - n) {
                    Err(f) => Err(f),
                    Ok(rest) => Ok(piece + rest),
                }
            }
        }),
{
}

/// The index buckets of `stream` stand in the file from bucket `first` on.
#[verifier::opaque]
spec fn index_stands(
    file: Seq<u8>,
    h: ssm::StandardStManHeader,
    stream: Seq<u8>,
    first: int,
) -> bool {
    forall|k: int|
        0 <= k < ssmout::pieces(stream.len() as int, h.bucket_size - 8) ==> #[trigger]
            ssm::bucket_of(file, h.bucket_size, (first + k) as u32) == Some(
            ssmfile::index_bucket(h.big_endian, stream, h.bucket_size, first, k),
        )
}

proof fn lemma_index_stands(
    file: Seq<u8>,
    h: ssm::StandardStManHeader,
    stream: Seq<u8>,
    first: int,
    k: int,
)
    requires
        index_stands(file, h, stream, first),
        0 <= k < ssmout::pieces(stream.len() as int, h.bucket_size - 8),
    ensures
        ssm::bucket_of(file, h.bucket_size, (first + k) as u32) == Some(
            ssmfile::index_bucket(h.big_endian, stream, h.bucket_size, first, k),
        ),
{
    reveal(index_stands);
}

#[verifier::rlimit(40)]
proof fn lemma_chain(
    file: Seq<u8>,
    h: ssm::StandardStManHeader,
    stream: Seq<u8>,
    first: int,
    i: int,
)
    requires
        h.bucket_size > 8,
        h.index_bucket_offset == 8 || h.index_bucket_offset == 0,
        0 <= i < ssmout::pieces(stream.len() as int, h.bucket_size - 8),
        0 <= first,
        first + ssmout::pieces(stream.len() as int, h.bucket_size - 8) <= i32::MAX,
        index_stands(file, h, stream, first),
    ensures
        ssm::chain(
            file,
            h,
            (ssmout::pieces(stream.len() as int, h.bucket_size - 8) - i) as nat,
            (first + i) as u32,
            stream.len() - i * (h.bucket_size - 8),
        ) == Ok::<Seq<u8>, SsmFault>(
            stream.subrange(i * (h.bucket_size - 8), stream.len() as int),
        ),
    decreases ssmout::pieces(stream.len() as int, h.bucket_size - 8) - i,
{
    let room = h.bucket_size - 8;
    let len = stream.len() as int;
    let count = ssmout::pieces(len, room);
    let bucket = ssmfile::index_bucket(h.big_endian, stream, h.bucket_size, first, i);
    let next = if i + 1 < count {
        (first + i + 1) as i32
    } else {
        -1i32 as i32
    };
    lemma_index_bucket(h.big_endian, stream, h.bucket_size, first, i);
    lemma_index_stands(file, h, stream, first, i);
    lemma_chain_step(
        file,
        h,
        (count - i) as nat,
        (first + i) as u32,
        len - i * room,
        bucket,
        next,
    );
    if i + 1 < count {
        lemma_chain(file, h, stream, first, i + 1);
        assert(stream.subrange(i * room, i * room + room) + stream.subrange(
            (i + 1) * room,
            len,
        ) =~= stream.subrange(i * room, len));
        assert(len - i * room - room == len - (i + 1) * room);
        assert((count - i - 1) as nat == (count - (i + 1)) as nat);
    }
}

#[verifier::spinoff_prover]
#[verifier::rlimit(80)]
proof fn lemma_one_index(
    stream: Seq<u8>,
    big: bool,
    n_rows: u64,
    rows_per_bucket: u32,
    nr_columns: nat,
)
    requires
        0 < rows_per_bucket,
        ssmout::pieces(n_rows as int, rows_per_bucket as int) <= u32::MAX,
        stream == ssmout::index_stream(big, n_rows, rows_per_bucket, nr_columns),
    ensures
        ssm::indices_at(Cursor { data: stream, big, pos: 0 }, 1, Seq::empty()) matches Ok((s, _))
            && s == seq![written_index(n_rows, rows_per_bucket, nr_columns)],
{
    let c = Cursor { data: stream, big, pos: 0 };
    assert(stream.subrange(0, stream.len() as int) =~= stream);
    law_index_round_trip(c, n_rows, rows_per_bucket, nr_columns);
    let m = written_index(n_rows, rows_per_bucket, nr_columns);
    let d = ssm::index_at(c)->Ok_0.1;
    reveal_with_fuel(ssm::indices_at, 2);
    assert(ssm::indices_at(c, 1, Seq::empty()) == ssm::indices_at(d, 0, Seq::empty().push(m)));
    assert(Seq::<IndexModel>::empty().push(m) =~= seq![m]);
}

/// What parsing a written file gives.
pub open spec fn written_model(
    big: bool,
    n_rows: u64,
    cols: Seq<CellsModel>,
    layout: LayoutModel,
    strings: Seq<Seq<u8>>,
) -> SsmModel {
    SsmModel {
        header: ssm::header_with(
            header_version(big),
            big,
            file_numbers(big, n_rows, cols, layout, strings),
        ),
        indices: seq![written_index(n_rows, layout.rows_per_bucket, cols.len())],
        data: ssmfile::file_bytes(big, n_rows, cols, layout, strings),
        f0i: None,
    }
}

proof fn lemma_written_header(
    big: bool,
    n_rows: u64,
    cols: Seq<CellsModel>,
    layout: LayoutModel,
    strings: Seq<Seq<u8>>,
)
    requires
        file_storable(big, n_rows, cols, layout, strings),
    ensures
        ssm::header_of(ssmfile::file_bytes(big, n_rows, cols, layout, strings), big) == Ok::<
            ssm::StandardStManHeader,
            SsmFault,
        >(
            ssm::header_with(
                header_version(big),
                big,
                file_numbers(big, n_rows, cols, layout, strings),
            ),
        ),
{
    let file = ssmfile::file_bytes(big, n_rows, cols, layout, strings);
    let numbers = file_numbers(big, n_rows, cols, layout, strings);
    let h = ssmfile::header_bytes(big, numbers);
    lemma_header_len(big, numbers);
    assert(file.subrange(0, h.len() as int) =~= h);
    lemma_header_round_trip(file, big, numbers);
}

pub proof fn lemma_indices_of(
    file: Seq<u8>,
    h: ssm::StandardStManHeader,
    stream: Seq<u8>,
    indices: Seq<IndexModel>,
)
    requires
        h.nr_index == 1,
        h.first_index_bucket >= 0,
        ssm::chain(
            file,
            h,
            h.nr_index_buckets as nat,
            h.first_index_bucket as u32,
            h.index_length as int,
        ) == Ok::<Seq<u8>, SsmFault>(stream),
        ssm::indices_at(Cursor { data: stream, big: h.big_endian, pos: 0 }, 1, Seq::empty())
            matches Ok((s, _)) && s == indices,
    ensures
        ssm::indices_of(file, h) == Ok::<Seq<IndexModel>, SsmFault>(indices),
{
}

proof fn lemma_file_index_stands(
    big: bool,
    n_rows: u64,
    cols: Seq<CellsModel>,
    layout: LayoutModel,
    strings: Seq<Seq<u8>>,
)
    requires
        file_storable(big, n_rows, cols, layout, strings),
    ensures
        index_stands(
            ssmfile::file_bytes(big, n_rows, cols, layout, strings),
            written_model(big, n_rows, cols, layout, strings).header,
            file_stream(big, n_rows, cols, layout),
            ssmfile::data_count(layout, n_rows),
        ),
{
    reveal(index_stands);
    let file = ssmfile::file_bytes(big, n_rows, cols, layout, strings);
    let stream = file_stream(big, n_rows, cols, layout);
    let data = ssmfile::data_count(layout, n_rows);
    let index = ssmfile::index_count(layout, stream.len() as int);
    ssmout::lemma_pieces(n_rows as int, layout.rows_per_bucket as int);
    assert forall|k: int| 0 <= k < index implies #[trigger] ssm::bucket_of(
        file,
        layout.bucket_size,
        (data + k) as u32,
    ) == Some(ssmfile::index_bucket(big, stream, layout.bucket_size, data, k)) by {
        lemma_file_buckets(big, n_rows, cols, layout, strings, (data + k) as u32);
    }
}

proof fn lemma_stream_len(big: bool, n_rows: u64, rows_per_bucket: u32, nr_columns: nat)
    ensures
        ssmout::index_stream(big, n_rows, rows_per_bucket, nr_columns).len() > 0,
{
    bytes::lemma_uint_bytes_len(big, aipsio::MAGIC as nat, 4);
}

#[verifier::rlimit(40)]
proof fn lemma_whole_chain(
    file: Seq<u8>,
    h: ssm::StandardStManHeader,
    stream: Seq<u8>,
    data: int,
    strings: int,
)
    requires
        h.bucket_size > 8,
        0 < stream.len() <= u32::MAX,
        0 <= data,
        data + ssmout::pieces(stream.len() as int, h.bucket_size - 8) <= i32::MAX,
        index_stands(file, h, stream, data),
        ({
            let n = ssmfile::written_numbers(
                h.bucket_size,
                data,
                ssmout::pieces(stream.len() as int, h.bucket_size - 8),
                strings,
                stream.len() as int,
            );
            &&& h.first_index_bucket == n.first_index_bucket
            &&& h.nr_index_buckets == n.nr_index_buckets
            &&& h.index_bucket_offset == n.index_bucket_offset
            &&& h.index_length == n.index_length
        }),
    ensures
        h.first_index_bucket >= 0,
        ssm::chain(
            file,
            h,
            h.nr_index_buckets as nat,
            h.first_index_bucket as u32,
            h.index_length as int,
        ) == Ok::<Seq<u8>, SsmFault>(stream),
{
    ssmout::lemma_pieces(stream.len() as int, h.bucket_size - 8);
    lemma_chain(file, h, stream, data, 0);
    assert(0 * (h.bucket_size - 8) == 0);
    assert(stream.subrange(0, stream.len() as int) =~= stream);
}

proof fn lemma_file_chain(
    big: bool,
    n_rows: u64,
    cols: Seq<CellsModel>,
    layout: LayoutModel,
    strings: Seq<Seq<u8>>,
)
    requires
        file_storable(big, n_rows, cols, layout, strings),
    ensures
        ({
            let h = written_model(big, n_rows, cols, layout, strings).header;
            &&& h.first_index_bucket >= 0
            &&& ssm::chain(
                ssmfile::file_bytes(big, n_rows, cols, layout, strings),
                h,
                h.nr_index_buckets as nat,
                h.first_index_bucket as u32,
                h.index_length as int,
            ) == Ok::<Seq<u8>, SsmFault>(file_stream(big, n_rows, cols, layout))
        }),
{
    let file = ssmfile::file_bytes(big, n_rows, cols, layout, strings);
    let h = written_model(big, n_rows, cols, layout, strings).header;
    let stream = file_stream(big, n_rows, cols, layout);
    let data = ssmfile::data_count(layout, n_rows);
    lemma_file_index_stands(big, n_rows, cols, layout, strings);
    lemma_stream_len(big, n_rows, layout.rows_per_bucket, cols.len());
    ssmout::lemma_pieces(n_rows as int, layout.rows_per_bucket as int);
    lemma_whole_chain(file, h, stream, data, strings.len() as int);
}

/// A written file parses, with the index that was written.
pub proof fn law_file_parsed(
    big: bool,
    n_rows: u64,
    cols: Seq<CellsModel>,
    layout: LayoutModel,
    strings: Seq<Seq<u8>>,
)
    requires
        file_storable(big, n_rows, cols, layout, strings),
    ensures
        ssm::parsed(ssmfile::file_bytes(big, n_rows, cols, layout, strings), big) == Ok::<
            SsmModel,
            SsmFault,
        >(written_model(big, n_rows, cols, layout, strings)),
{
    let file = ssmfile::file_bytes(big, n_rows, cols, layout, strings);
    let m = written_model(big, n_rows, cols, layout, strings);
    let stream = file_stream(big, n_rows, cols, layout);
    lemma_written_header(big, n_rows, cols, layout, strings);
    lemma_file_chain(big, n_rows, cols, layout, strings);
    ssmout::lemma_pieces(n_rows as int, layout.rows_per_bucket as int);
    lemma_one_index(stream, big, n_rows, layout.rows_per_bucket, cols.len());
    lemma_indices_of(file, m.header, stream, m.indices);
}

/// Row `row` of a written file is in the bucket of its number.
#[verifier::rlimit(40)]
pub proof fn lemma_written_find(n_rows: u64, rows_per_bucket: u32, nr_columns: nat, row: u64)
    requires
        0 < rows_per_bucket,
        n_rows <= 0x1_0000_0000,
        row < n_rows,
    ensures
        ({
            let b = row as int / rows_per_bucket as int;
            &&& 0 <= b < ssmout::pieces(n_rows as int, rows_per_bucket as int)
            &&& 0 <= b * rows_per_bucket <= row < (b + 1) * rows_per_bucket
            &&& written_index(n_rows, rows_per_bucket, nr_columns).find(row) == Some(
                IndexedBucket {
                    number: b as u32,
                    start_row: (b * rows_per_bucket) as u64,
                    end_row: (ssm::min((b + 1) * rows_per_bucket, n_rows as int) - 1) as u64,
                },
            )
        }),
{
    let p = rows_per_bucket as int;
    let n = n_rows as int;
    let count = ssmout::pieces(n, p);
    let b = row as int / p;
    let m = written_index(n_rows, rows_per_bucket, nr_columns);
    ssmout::lemma_pieces(n, p);
    vstd::arithmetic::div_mod::lemma_fundamental_div_mod(row as int, p);
    vstd::arithmetic::div_mod::lemma_mod_bound(row as int, p);
    vstd::arithmetic::div_mod::lemma_div_pos_is_pos(row as int, p);
    assert(p * b == b * p && (b + 1) * p == b * p + p && b < count && 0 <= b * p && b <= row)
        by (nonlinear_arith)
        requires
            0 <= b,
            0 < p,
            row as int == p * b + row as int % p,
            0 <= row as int % p < p,
            row < n <= count * p,
    ;
    assert forall|i: int, j: int| 0 <= i <= j < count implies #[trigger] m.last_row[i]
        <= #[trigger] m.last_row[j] by {
        assert(0 < (i + 1) * p <= (j + 1) * p) by (nonlinear_arith)
            requires
                0 <= i <= j,
                0 < p,
        ;
    }
    ssm::law_find(m, row, b);
    assert(m.last_row[b] == ssm::min((b + 1) * p, n) - 1);
    if b > 0 {
        assert(((b - 1) + 1) * p == b * p);
        assert(m.last_row[b - 1] == b * p - 1);
    }
}

/// The regions of the columns do not overlap, in whatever order they lie.
pub open spec fn apart(layout: LayoutModel, cols: Seq<CellsModel>, n_rows: u64) -> bool {
    forall|c: int, d: int|
        0 <= c < d < cols.len() ==> #[trigger] two_apart(layout, cols, n_rows, c, d)
}

/// The regions of two columns do not overlap.
pub open spec fn two_apart(
    layout: LayoutModel,
    cols: Seq<CellsModel>,
    n_rows: u64,
    c: int,
    d: int,
) -> bool {
    region_end(layout, cols, n_rows, c) <= layout.column_offset[d] || region_end(
        layout,
        cols,
        n_rows,
        d,
    ) <= layout.column_offset[c]
}

/// Where the region of a column ends.
pub open spec fn region_end(layout: LayoutModel, cols: Seq<CellsModel>, n_rows: u64, c: int) -> int {
    let rows = ssm::min(layout.rows_per_bucket as int, n_rows as int);
    layout.column_offset[c] + if cols[c].cell_bits == 1 {
        (rows + 7) / 8
    } else {
        rows * cols[c].cell_size
    }
}

proof fn lemma_cells_len(col: CellsModel, start: int, end: int, n_rows: u64, rows: int)
    requires
        0 <= start <= end <= n_rows,
        end - start <= rows,
        col.cell_bits != 1 ==> n_rows * col.cell_size <= col.bytes.len(),
    ensures
        ssmfile::cells_between(col, start, end).len() <= if col.cell_bits == 1 {
            (rows + 7) / 8
        } else {
            rows * col.cell_size
        },
        col.cell_bits != 1 ==> ssmfile::cells_between(col, start, end).len() == end * col.cell_size
            - start * col.cell_size && 0 <= start * col.cell_size <= end * col.cell_size
            <= col.bytes.len(),
{
    ssmfile::lemma_cells_room(col.cell_size, start, end, n_rows, rows);
}

/// The cells of column `c` stand in its region, whatever is written after it.
#[verifier::rlimit(40)]
proof fn lemma_bucket_cells(
    layout: LayoutModel,
    cols: Seq<CellsModel>,
    n_rows: u64,
    start: int,
    end: int,
    n: nat,
    c: int,
)
    requires
        ssmfile::layout_fits(layout, cols, n_rows),
        apart(layout, cols, n_rows),
        0 <= start <= end <= n_rows,
        end - start <= layout.rows_per_bucket,
        0 <= c < n <= cols.len(),
    ensures
        ({
            let piece = ssmfile::cells_between(cols[c], start, end);
            let at = layout.column_offset[c] as int;
            let bucket = ssmfile::data_bucket(layout, cols, start, end, n);
            &&& bucket.len() == layout.bucket_size
            &&& at + piece.len() <= bucket.len()
            &&& bucket.subrange(at, at + piece.len()) == piece
        }),
    decreases n,
{
    let rows = ssm::min(layout.rows_per_bucket as int, n_rows as int);
    let piece = ssmfile::cells_between(cols[c], start, end);
    let at = layout.column_offset[c] as int;
    let bucket = ssmfile::data_bucket(layout, cols, start, end, n);
    assert(ssmfile::column_fits(cols[c], layout.column_offset[c], n_rows, layout));
    lemma_cells_len(cols[c], start, end, n_rows, rows);
    lemma_bucket_len(layout, cols, start, end, n);
    lemma_bucket_len(layout, cols, start, end, (n - 1) as nat);
    if c == n - 1 {
        assert(bucket.subrange(at, at + piece.len()) =~= piece);
    } else {
        let before = ssmfile::data_bucket(layout, cols, start, end, (n - 1) as nat);
        lemma_bucket_cells(layout, cols, n_rows, start, end, (n - 1) as nat, c);
        let other = cols[n - 1];
        assert(two_apart(layout, cols, n_rows, c, n - 1));
        assert(ssmfile::column_fits(other, layout.column_offset[n - 1], n_rows, layout));
        lemma_cells_len(other, start, end, n_rows, rows);
        assert(bucket.subrange(at, at + piece.len()) =~= before.subrange(at, at + piece.len()));
    }
}

/// Bytes of a bucket lie where the bucket lies.
pub proof fn lemma_bytes_at(m: SsmModel, k: u32, bucket: Seq<u8>, offset: int, len: int)
    requires
        ssm::bucket_of(m.data, m.header.bucket_size, k) == Some(bucket),
        0 <= offset,
        0 <= len,
        offset + len <= m.header.bucket_size,
    ensures
        bucket.len() == m.header.bucket_size,
        m.bytes_at(k, offset, len) == Ok::<Seq<u8>, SsmFault>(
            bucket.subrange(offset, offset + len),
        ),
{
    ssm::lemma_u32_product(k, m.header.bucket_size);
    let start = ssm::bucket_start(m.header.bucket_size, k);
    assert(m.data.subrange(start + offset, start + offset + len) =~= bucket.subrange(
        offset,
        offset + len,
    ));
}

/// A file model that says what was written, with or without an array file.
pub open spec fn says(
    m: SsmModel,
    big: bool,
    n_rows: u64,
    cols: Seq<CellsModel>,
    layout: LayoutModel,
    strings: Seq<Seq<u8>>,
) -> bool {
    m == SsmModel { f0i: m.f0i, ..written_model(big, n_rows, cols, layout, strings) }
}

/// The bucket of a row and the cells that stand in it.
#[verifier::rlimit(40)]
proof fn lemma_row_bucket(
    m: SsmModel,
    big: bool,
    n_rows: u64,
    cols: Seq<CellsModel>,
    layout: LayoutModel,
    strings: Seq<Seq<u8>>,
    c: int,
    row: u64,
)
    requires
        file_storable(big, n_rows, cols, layout, strings),
        apart(layout, cols, n_rows),
        says(m, big, n_rows, cols, layout, strings),
        0 <= c < cols.len(),
        row < n_rows,
    ensures
        ({
            let p = layout.rows_per_bucket as int;
            let b = row as int / p;
            let start = b * p;
            let end = ssm::min((b + 1) * p, n_rows as int);
            let piece = ssmfile::cells_between(cols[c], start, end);
            let at = layout.column_offset[c] as int;
            let bucket = ssmfile::bucket_image(layout, cols, n_rows, b);
            &&& 0 <= b <= u32::MAX
            &&& 0 <= start <= row < end <= n_rows
            &&& end - start <= p
            &&& m.locate(0, row) matches Ok(x) && x.number == b && x.start_row == start
            &&& ssm::bucket_of(m.data, layout.bucket_size, b as u32) == Some(bucket)
            &&& bucket.len() == layout.bucket_size
            &&& at + piece.len() <= bucket.len()
            &&& bucket.subrange(at, at + piece.len()) == piece
        }),
{
    let p = layout.rows_per_bucket as int;
    let b = row as int / p;
    lemma_written_find(n_rows, layout.rows_per_bucket, cols.len(), row);
    lemma_file_buckets(big, n_rows, cols, layout, strings, b as u32);
    assert((b + 1) * p == b * p + p) by (nonlinear_arith);
    lemma_bucket_cells(
        layout,
        cols,
        n_rows,
        b * p,
        ssm::min((b + 1) * p, n_rows as int),
        cols.len(),
        c,
    );
    assert(m.indices[0] == written_index(n_rows, layout.rows_per_bucket, cols.len()));
}

/// Every cell of a written file is read back.
#[verifier::spinoff_prover]
#[verifier::rlimit(80)]
pub proof fn law_cell_read_back(
    m: SsmModel,
    big: bool,
    n_rows: u64,
    cols: Seq<CellsModel>,
    layout: LayoutModel,
    strings: Seq<Seq<u8>>,
    c: int,
    row: u64,
)
    requires
        file_storable(big, n_rows, cols, layout, strings),
        apart(layout, cols, n_rows),
        says(m, big, n_rows, cols, layout, strings),
        0 <= c < cols.len(),
        cols[c].cell_bits != 1,
        row < n_rows,
    ensures
        m.cell(0, layout.column_offset[c], row, cols[c].cell_size) == Ok::<Seq<u8>, SsmFault>(
            cols[c].bytes.subrange(
                row * cols[c].cell_size,
                row * cols[c].cell_size + cols[c].cell_size,
            ),
        ),
{
    let p = layout.rows_per_bucket as int;
    let b = row as int / p;
    let start = b * p;
    let end = ssm::min((b + 1) * p, n_rows as int);
    let cs = cols[c].cell_size as int;
    let at = layout.column_offset[c] as int;
    let bucket = ssmfile::bucket_image(layout, cols, n_rows, b);
    let piece = ssmfile::cells_between(cols[c], start, end);
    lemma_row_bucket(m, big, n_rows, cols, layout, strings, c, row);
    assert(ssmfile::column_fits(cols[c], layout.column_offset[c], n_rows, layout));
    lemma_cells_len(cols[c], start, end, n_rows, p);
    let d = (row - start) * cs;
    assert(0 <= d && d + cs <= end * cs - start * cs && d == row * cs - start * cs)
        by (nonlinear_arith)
        requires
            start <= row < end,
            0 <= cs,
            d == (row - start) * cs,
    ;
    lemma_bytes_at(m, b as u32, bucket, at + d, cs);
    lemma_piece(bucket, cols[c].bytes, at, start * cs, end * cs, d, cs);
}

/// A part of a piece of bytes that stands at `at`.
proof fn lemma_piece(
    bucket: Seq<u8>,
    bytes: Seq<u8>,
    at: int,
    lo: int,
    hi: int,
    d: int,
    n: int,
)
    requires
        0 <= at,
        0 <= lo <= hi <= bytes.len(),
        at + (hi - lo) <= bucket.len(),
        bucket.subrange(at, at + (hi - lo)) == bytes.subrange(lo, hi),
        0 <= d,
        0 <= n,
        d + n <= hi - lo,
    ensures
        bucket.subrange(at + d, at + d + n) == bytes.subrange(lo + d, lo + d + n),
{
    let x = bucket.subrange(at, at + (hi - lo));
    assert(bucket.subrange(at + d, at + d + n) =~= x.subrange(d, d + n));
    assert(bytes.subrange(lo + d, lo + d + n) =~= x.subrange(d, d + n));
}

/// Every bit of a column of bits of a written file is read back.
#[verifier::rlimit(40)]
pub proof fn law_bit_read_back(
    m: SsmModel,
    big: bool,
    n_rows: u64,
    cols: Seq<CellsModel>,
    layout: LayoutModel,
    strings: Seq<Seq<u8>>,
    c: int,
    row: u64,
)
    requires
        file_storable(big, n_rows, cols, layout, strings),
        apart(layout, cols, n_rows),
        says(m, big, n_rows, cols, layout, strings),
        0 <= c < cols.len(),
        cols[c].cell_bits == 1,
        row < n_rows,
    ensures
        m.bit_cell(0, layout.column_offset[c], row) == Ok::<bool, SsmFault>(
            bytes::bit(cols[c].bytes[row as int / 8], row as int % 8),
        ),
{
    let p = layout.rows_per_bucket as int;
    let b = row as int / p;
    let start = b * p;
    let end = ssm::min((b + 1) * p, n_rows as int);
    let at = layout.column_offset[c] as int;
    let bucket = ssmfile::bucket_image(layout, cols, n_rows, b);
    let bits = ssmfile::bits_between(cols[c].bytes, start, end);
    let piece = bytes::packed(bits);
    lemma_row_bucket(m, big, n_rows, cols, layout, strings, c, row);
    let d = row - start;
    bytes::lemma_packed_bit(bits, d);
    lemma_bytes_at(m, b as u32, bucket, at + d / 8, 1);
    assert(bucket.subrange(at, at + piece.len())[d / 8] == piece[d / 8]);
    assert(bucket.subrange(at + d / 8, at + d / 8 + 1)[0] == piece[d / 8]);
}

/// Every string bucket of a written file is read back.
pub proof fn law_string_bucket_read_back(
    m: SsmModel,
    big: bool,
    n_rows: u64,
    cols: Seq<CellsModel>,
    layout: LayoutModel,
    strings: Seq<Seq<u8>>,
    i: int,
)
    requires
        file_storable(big, n_rows, cols, layout, strings),
        says(m, big, n_rows, cols, layout, strings),
        0 <= i < strings.len(),
    ensures
        ({
            let len = file_stream(big, n_rows, cols, layout).len() as int;
            let first = ssmfile::data_count(layout, n_rows) + ssmfile::index_count(layout, len);
            m.bucket((first + i) as u32) == Ok::<Seq<u8>, SsmFault>(strings[i])
        }),
{
    let len = file_stream(big, n_rows, cols, layout).len() as int;
    let first = ssmfile::data_count(layout, n_rows) + ssmfile::index_count(layout, len);
    ssmout::lemma_pieces(n_rows as int, layout.rows_per_bucket as int);
    ssmout::lemma_pieces(len, layout.bucket_size - 8);
    lemma_file_buckets(big, n_rows, cols, layout, strings, (first + i) as u32);
}

/// A written file has no bucket for a row after its last.
proof fn lemma_not_found(n_rows: u64, rows_per_bucket: u32, nr_columns: nat, row: u64)
    requires
        0 < rows_per_bucket,
        n_rows <= 0x1_0000_0000,
        row >= n_rows,
    ensures
        written_index(n_rows, rows_per_bucket, nr_columns).find(row) is None,
{
    let p = rows_per_bucket as int;
    let last = written_index(n_rows, rows_per_bucket, nr_columns).last_row;
    ssmout::lemma_pieces(n_rows as int, p);
    ssm::lemma_bisect(last, row, 0, last.len() as int);
    let i = ssm::bisect(last, row, 0, last.len() as int);
    if i < last.len() {
        assert(0 < (i + 1) * p) by (nonlinear_arith)
            requires
                0 <= i,
                0 < p,
        ;
        assert(last[i] == ssm::min((i + 1) * p, n_rows as int) - 1);
    }
}

/// A written file, as a whole: it parses; it is as long as its header and
/// its buckets; every cell is read back, a row after the last being out of
/// range; and the string buckets are its last ones, as they were given.
#[verifier::spinoff_prover]
#[verifier::rlimit(40)]
pub proof fn law_written_file(
    big: bool,
    n_rows: u64,
    cols: Seq<CellsModel>,
    layout: LayoutModel,
    strings: Seq<Seq<u8>>,
    c: int,
    row: u64,
    k: int,
)
    requires
        file_storable(big, n_rows, cols, layout, strings),
        apart(layout, cols, n_rows),
        0 <= c < cols.len(),
    ensures
        ({
            let file = ssmfile::file_bytes(big, n_rows, cols, layout, strings);
            let m = written_model(big, n_rows, cols, layout, strings);
            let offset = layout.column_offset[c];
            let size = cols[c].cell_size;
            &&& ssm::parsed(file, big) == Ok::<SsmModel, SsmFault>(m)
            &&& m.header.bucket_size == layout.bucket_size
            &&& file.len() == 512 + m.header.nr_buckets * layout.bucket_size
            &&& row < n_rows && cols[c].cell_bits != 1 ==> m.cell(0, offset, row, size) == Ok::<
                Seq<u8>,
                SsmFault,
            >(cols[c].bytes.subrange(row * size, row * size + size))
            &&& row < n_rows && cols[c].cell_bits == 1 ==> m.bit_cell(0, offset, row) == Ok::<
                bool,
                SsmFault,
            >(bytes::bit(cols[c].bytes[row as int / 8], row as int % 8))
            &&& row >= n_rows ==> m.cell(0, offset, row, size) == Err::<Seq<u8>, SsmFault>(
                SsmFault::RowOutOfRange { row },
            )
            &&& row >= n_rows ==> m.bit_cell(0, offset, row) == Err::<bool, SsmFault>(
                SsmFault::RowOutOfRange { row },
            )
            &&& 0 <= k < strings.len() ==> m.bucket(
                (m.header.nr_buckets - strings.len() + k) as u32,
            ) == Ok::<Seq<u8>, SsmFault>(strings[k])
        }),
{
    let m = written_model(big, n_rows, cols, layout, strings);
    let len = file_stream(big, n_rows, cols, layout).len() as int;
    law_file_parsed(big, n_rows, cols, layout, strings);
    lemma_file_buckets(big, n_rows, cols, layout, strings, 0);
    ssmout::lemma_pieces(n_rows as int, layout.rows_per_bucket as int);
    ssmout::lemma_pieces(len, layout.bucket_size - 8);
    assert(m.header.nr_buckets == ssmfile::data_count(layout, n_rows) + ssmfile::index_count(
        layout,
        len,
    ) + strings.len());
    assert(says(m, big, n_rows, cols, layout, strings));
    if row >= n_rows {
        lemma_not_found(n_rows, layout.rows_per_bucket, cols.len(), row);
    } else if cols[c].cell_bits == 1 {
        law_bit_read_back(m, big, n_rows, cols, layout, strings, c, row);
    } else {
        law_cell_read_back(m, big, n_rows, cols, layout, strings, c, row);
    }
    if 0 <= k < strings.len() {
        law_string_bucket_read_back(m, big, n_rows, cols, layout, strings, k);
    }
}

/// The regions of a computed layout do not overlap and lie in the bucket,
/// for columns whose cells have the bits that the layout was computed for.
#[verifier::rlimit(40)]
pub proof fn law_layout_apart(
    rows_per_bucket: u32,
    cell_bits: Seq<u32>,
    cols: Seq<CellsModel>,
    n_rows: u64,
    c: int,
)
    requires
        ssmout::regions(rows_per_bucket, cell_bits, cell_bits.len()) <= u32::MAX,
        cols.len() == cell_bits.len(),
        0 <= c < cols.len(),
        cols[c].cell_bits == 1 ==> cell_bits[c] == 1,
        cols[c].cell_bits != 1 ==> cell_bits[c] == 8 * cols[c].cell_size,
    ensures
        ({
            let layout = ssmout::layout_of(rows_per_bucket, cell_bits);
            &&& region_end(layout, cols, n_rows, c) <= layout.bucket_size
            &&& forall|d: int|
                c < d < cols.len() ==> region_end(layout, cols, n_rows, c)
                    <= #[trigger] layout.column_offset[d]
        }),
{
    let layout = ssmout::layout_of(rows_per_bucket, cell_bits);
    let n = cell_bits.len();
    let rows = ssm::min(rows_per_bucket as int, n_rows as int);
    let bits = cell_bits[c];
    let cs = cols[c].cell_size;
    ssmout::lemma_regions_grow(rows_per_bucket, cell_bits, c as nat, n);
    ssmout::lemma_regions_grow(rows_per_bucket, cell_bits, (c + 1) as nat, n);
    assert(rows * cs <= rows_per_bucket * cs && (bits == 8 * cs ==> rows_per_bucket * bits == 8 * (
    rows_per_bucket * cs))) by (nonlinear_arith)
        requires
            rows <= rows_per_bucket,
            0 <= cs,
    ;
    assert forall|d: int| c < d < cols.len() implies region_end(layout, cols, n_rows, c)
        <= #[trigger] layout.column_offset[d] by {
        ssmout::lemma_regions_grow(rows_per_bucket, cell_bits, (c + 1) as nat, d as nat);
        ssmout::lemma_regions_grow(rows_per_bucket, cell_bits, d as nat, n);
    }
}

/// Columns of whole bytes whose cells have the bits that a layout is computed
/// for, and cover all rows.
pub open spec fn laid_out(
    rows_per_bucket: u32,
    cell_bits: Seq<u32>,
    cols: Seq<CellsModel>,
    n_rows: u64,
) -> bool {
    &&& rows_per_bucket > 0
    &&& ssmout::regions(rows_per_bucket, cell_bits, cell_bits.len()) <= u32::MAX
    &&& cols.len() == cell_bits.len()
    &&& forall|c: int|
        0 <= c < cols.len() ==> {
            &&& (#[trigger] cols[c]).cell_bits != 1
            &&& cell_bits[c] == 8 * cols[c].cell_size
            &&& cols[c].bytes.len() == n_rows * cols[c].cell_size
        }
}

/// The files of a layout that can be read back: buckets that hold more than
/// the head of an index bucket, as many as 31 bits count, with an index whose
/// length 32 bits count.
pub open spec fn counted(
    big: bool,
    n_rows: u64,
    columns: nat,
    layout: LayoutModel,
    strings: nat,
) -> bool {
    let len = ssmout::index_stream(big, n_rows, layout.rows_per_bucket, columns).len() as int;
    &&& layout.bucket_size > 8
    &&& n_rows <= 0x1_0000_0000
    &&& len <= u32::MAX
    &&& ssmfile::data_count(layout, n_rows) + ssmfile::index_count(layout, len) + strings
        <= i32::MAX
}

/// A file written with the layout that was computed for its columns: it
/// parses and is as long as its header and its buckets, every cell is read
/// back, the rows after the last are out of range, and the string buckets are
/// its last ones, as they were given.
#[verifier::rlimit(40)]
pub proof fn law_laid_out_file(
    big: bool,
    n_rows: u64,
    rows_per_bucket: u32,
    cell_bits: Seq<u32>,
    cols: Seq<CellsModel>,
    strings: Seq<Seq<u8>>,
    c: int,
    row: u64,
    k: int,
)
    requires
        laid_out(rows_per_bucket, cell_bits, cols, n_rows),
        counted(
            big,
            n_rows,
            cols.len(),
            ssmout::layout_of(rows_per_bucket, cell_bits),
            strings.len(),
        ),
        whole_buckets(strings, ssmout::layout_of(rows_per_bucket, cell_bits).bucket_size),
        0 <= c < cols.len(),
    ensures
        ({
            let layout = ssmout::layout_of(rows_per_bucket, cell_bits);
            let out = ssmfile::file_bytes(big, n_rows, cols, layout, strings);
            let size = cols[c].cell_size;
            ssm::parsed(out, big) matches Ok(m) && {
                &&& m.cell(0, layout.column_offset[c], row, size) == if row < n_rows {
                    Ok::<Seq<u8>, SsmFault>(cols[c].bytes.subrange(row * size, row * size + size))
                } else {
                    Err::<Seq<u8>, SsmFault>(SsmFault::RowOutOfRange { row })
                }
                &&& 0 <= k < strings.len() ==> m.bucket(
                    (m.header.nr_buckets - strings.len() + k) as u32,
                ) == Ok::<Seq<u8>, SsmFault>(strings[k])
                &&& out.len() == 512 + m.header.nr_buckets * layout.bucket_size
            }
        }),
{
    let layout = ssmout::layout_of(rows_per_bucket, cell_bits);
    let rows = ssm::min(rows_per_bucket as int, n_rows as int);
    assert forall|x: int| 0 <= x < cols.len() implies ssmfile::column_fits(
        #[trigger] cols[x],
        layout.column_offset[x],
        n_rows,
        layout,
    ) by {
        law_layout_apart(rows_per_bucket, cell_bits, cols, n_rows, x);
    }
    assert forall|x: int, y: int| 0 <= x < y < cols.len() implies #[trigger] two_apart(
        layout,
        cols,
        n_rows,
        x,
        y,
    ) by {
        assert(cols[x].cell_bits != 1);
        law_layout_apart(rows_per_bucket, cell_bits, cols, n_rows, x);
    }
    assert(cols[c].cell_bits != 1);
    law_written_file(big, n_rows, cols, layout, strings, c, row, k);
}

} // verus!
