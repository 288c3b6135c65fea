//! Writing a whole StandardStMan data file: header, data buckets, index
//! buckets and string buckets.
use crate::aipsio;
use crate::bytes;
use crate::bytes::{pack_bits, resize, to_signed32};
use crate::ssm;
use crate::ssm::HeaderNumbers;
use crate::ssmout;
use crate::ssmout::{
    build_index_stream, index_bucket_count, piece_count, writer, CellsModel, LayoutModel,
    StandardStManLayout, WriteColumn,
};
use vstd::prelude::*;

verus! {

/// `base` with `piece` in place of the bytes from `at` on.
pub open spec fn overlay(base: Seq<u8>, at: int, piece: Seq<u8>) -> Seq<u8> {
    Seq::new(
        base.len(),
        |i: int|
            if at <= i < at + piece.len() {
                piece[i - at]
            } else {
                base[i]
            },
    )
}

/// The bits `start..end` of a column of bits.
pub open spec fn bits_between(s: Seq<u8>, start: int, end: int) -> Seq<bool> {
    Seq::new((end - start) as nat, |i: int| bytes::bit(s[(start + i) / 8], (start + i) % 8))
}

/// The cells of the rows `start..end` of a column, as they stand in a bucket.
pub open spec fn cells_between(col: CellsModel, start: int, end: int) -> Seq<u8> {
    if col.cell_bits == 1 {
        bytes::packed(bits_between(col.bytes, start, end))
    } else {
        col.bytes.subrange(start * col.cell_size, end * col.cell_size)
    }
}

/// A bucket of zeros with the cells of the rows `start..end` of the first `n`
/// columns in their regions.
pub open spec fn data_bucket(
    layout: LayoutModel,
    cols: Seq<CellsModel>,
    start: int,
    end: int,
    n: nat,
) -> Seq<u8>
    decreases n,
{
    if n == 0 {
        bytes::resized(Seq::empty(), layout.bucket_size as nat)
    } else {
        overlay(
            data_bucket(layout, cols, start, end, (n - 1) as nat),
            layout.column_offset[n - 1] as int,
            cells_between(cols[n - 1], start, end),
        )
    }
}

/// Data bucket `b`.
pub open spec fn bucket_image(layout: LayoutModel, cols: Seq<CellsModel>, n_rows: u64, b: int) -> Seq<
    u8,
> {
    data_bucket(
        layout,
        cols,
        b * layout.rows_per_bucket,
        ssm::min((b + 1) * layout.rows_per_bucket, n_rows as int),
        cols.len(),
    )
}

/// The first `n` data buckets.
pub open spec fn data_bytes(layout: LayoutModel, cols: Seq<CellsModel>, n_rows: u64, n: nat) -> Seq<
    u8,
>
    decreases n,
{
    if n == 0 {
        Seq::empty()
    } else {
        data_bytes(layout, cols, n_rows, (n - 1) as nat) + bucket_image(
            layout,
            cols,
            n_rows,
            n - 1,
        )
    }
}

/// Index bucket `i` of a stream whose first index bucket has number `first`:
/// a check number, the number of the next index bucket (-1 in the last one)
/// and a piece of the stream.
pub open spec fn index_bucket(big: bool, stream: Seq<u8>, size: u32, first: int, i: int) -> Seq<
    u8,
> {
    let room = size - 8;
    let next = if i + 1 < ssmout::pieces(stream.len() as int, room) {
        bytes::signed32(bytes::low32(first + i + 1))
    } else {
        -1i32 as i32
    };
    bytes::resized(
        aipsio::i32_bytes(big, -1i32 as i32) + aipsio::i32_bytes(big, next) + stream.subrange(
            i * room,
            ssm::min((i + 1) * room, stream.len() as int),
        ),
        size as nat,
    )
}

/// The first `n` index buckets.
pub open spec fn index_bytes(big: bool, stream: Seq<u8>, size: u32, first: int, n: nat) -> Seq<u8>
    decreases n,
{
    if n == 0 {
        Seq::empty()
    } else {
        index_bytes(big, stream, size, first, (n - 1) as nat) + index_bucket(
            big,
            stream,
            size,
            first,
            n - 1,
        )
    }
}

/// The first `n` pieces, one after the other.
pub open spec fn joined(s: Seq<Seq<u8>>, n: nat) -> Seq<u8>
    decreases n,
{
    if n == 0 {
        Seq::empty()
    } else {
        joined(s, (n - 1) as nat) + s[n - 1]
    }
}

/// The contents of the header object.
pub open spec fn numbers_bytes(big: bool, n: HeaderNumbers) -> Seq<u8> {
    (aipsio::u32_bytes(big, n.bucket_size) + aipsio::u32_bytes(big, n.nr_buckets)
        + aipsio::u32_bytes(big, n.pers_cache_size) + aipsio::u32_bytes(big, n.n_free_bucket))
        + (aipsio::i32_bytes(big, n.first_free_bucket) + aipsio::u32_bytes(
        big,
        n.nr_index_buckets,
    ) + aipsio::i32_bytes(big, n.first_index_bucket) + aipsio::i32_bytes(
        big,
        n.index_bucket_offset,
    )) + (aipsio::i32_bytes(big, n.last_string_bucket) + aipsio::u32_bytes(big, n.index_length)
        + aipsio::u32_bytes(big, n.nr_index))
}

/// The header object: big-endian files get a version-2 header, little-endian
/// ones a version-3 header with an explicit endianness flag.
pub open spec fn header_bytes(big: bool, n: HeaderNumbers) -> Seq<u8> {
    if big {
        aipsio::object_bytes(big, true, "StandardStMan"@, 2, numbers_bytes(big, n))
    } else {
        aipsio::object_bytes(
            big,
            true,
            "StandardStMan"@,
            3,
            aipsio::bool_bytes(false) + numbers_bytes(big, n),
        )
    }
}

/// The header numbers of a file with `data` data buckets, `index` index
/// buckets that hold `stream_len` bytes, and `strings` string buckets.
pub open spec fn written_numbers(size: u32, data: int, index: int, strings: int, stream_len: int) -> HeaderNumbers {
    HeaderNumbers {
        bucket_size: size,
        nr_buckets: (data + index + strings) as u32,
        pers_cache_size: 0,
        n_free_bucket: 0,
        first_free_bucket: -1i32 as i32,
        nr_index_buckets: index as u32,
        first_index_bucket: if index == 0 {
            -1i32 as i32
        } else {
            bytes::signed32(data as u32)
        },
        index_bucket_offset: if index <= 1 {
            8
        } else {
            0
        },
        last_string_bucket: if strings == 0 {
            -1i32 as i32
        } else {
            bytes::signed32((data + index + strings - 1) as u32)
        },
        index_length: bytes::low32(stream_len),
        nr_index: 1,
    }
}

/// The number of data buckets.
pub open spec fn data_count(layout: LayoutModel, n_rows: u64) -> int {
    ssmout::pieces(n_rows as int, layout.rows_per_bucket as int)
}

/// The number of index buckets.
pub open spec fn index_count(layout: LayoutModel, stream_len: int) -> int {
    ssmout::pieces(stream_len, layout.bucket_size - 8)
}

/// A whole data file.
pub open spec fn file_bytes(
    big: bool,
    n_rows: u64,
    cols: Seq<CellsModel>,
    layout: LayoutModel,
    strings: Seq<Seq<u8>>,
) -> Seq<u8> {
    let stream = ssmout::index_stream(big, n_rows, layout.rows_per_bucket, cols.len());
    let data = data_count(layout, n_rows);
    let index = index_count(layout, stream.len() as int);
    let numbers = written_numbers(
        layout.bucket_size,
        data,
        index,
        strings.len() as int,
        stream.len() as int,
    );
    bytes::resized(header_bytes(big, numbers), ssm::DATA_START as nat) + data_bytes(
        layout,
        cols,
        n_rows,
        data as nat,
    ) + index_bytes(big, stream, layout.bucket_size, data, index as nat) + joined(
        strings,
        strings.len(),
    )
}

/// The cells of a column cover all rows, and its region lies in the bucket.
pub open spec fn column_fits(col: CellsModel, offset: u32, n_rows: u64, layout: LayoutModel) -> bool {
    let rows = ssm::min(layout.rows_per_bucket as int, n_rows as int);
    if col.cell_bits == 1 {
        n_rows <= 8 * col.bytes.len() && offset + (rows + 7) / 8 <= layout.bucket_size
    } else {
        n_rows * col.cell_size <= col.bytes.len() && offset + rows * col.cell_size
            <= layout.bucket_size
    }
}

/// A layout that can hold the columns.
pub open spec fn layout_fits(layout: LayoutModel, cols: Seq<CellsModel>, n_rows: u64) -> bool {
    &&& layout.rows_per_bucket > 0
    &&& layout.bucket_size > 8
    &&& n_rows + layout.rows_per_bucket <= u64::MAX
    &&& cols.len() <= layout.column_offset.len()
    &&& forall|c: int|
        0 <= c < cols.len() ==> column_fits(
            #[trigger] cols[c],
            layout.column_offset[c],
            n_rows,
            layout,
        )
}

/// The buckets of the file can be counted in 32 bits.
pub open spec fn buckets_fit(big: bool, layout: LayoutModel, columns: nat, n_rows: u64, strings: nat) -> bool {
    let stream = ssmout::index_stream(big, n_rows, layout.rows_per_bucket, columns);
    data_count(layout, n_rows) + index_count(layout, stream.len() as int) + strings <= u32::MAX
}

pub open spec fn cells_models(s: Seq<WriteColumn<'_>>) -> Seq<CellsModel> {
    s.map_values(|c: WriteColumn<'_>| c@)
}

pub open spec fn byte_strings(s: Seq<Vec<u8>>) -> Seq<Seq<u8>> {
    s.map_values(|v: Vec<u8>| v@)
}

/// Put `piece` in place of the bytes from `at` on.
pub(crate) fn put_over(base: &mut Vec<u8>, at: usize, piece: &[u8])
    requires
        at + piece@.len() <= old(base)@.len(),
    ensures
        final(base)@ == overlay(old(base)@, at as int, piece@),
{
    let ghost before = base@;
    let n: usize = base.len();
    let mut i: usize = 0;
    while i < piece.len()
        invariant
            i <= piece@.len(),
            n == base@.len(),
            before.len() == n,
            at + piece@.len() <= n,
            forall|k: int|
                0 <= k < n ==> base@[k] == if at <= k < at + i {
                    piece@[k - at]
                } else {
                    before[k]
                },
        decreases piece@.len() - i,
    {
        base.set(at + i, piece[i]);
        i = i + 1;
    }
    assert(base@ =~= overlay(before, at as int, piece@));
}

fn bits_of(s: &[u8], start: u64, end: u64) -> (r: Vec<bool>)
    requires
        start <= end <= 8 * s@.len(),
    ensures
        r@ == bits_between(s@, start as int, end as int),
{
    let mut out: Vec<bool> = Vec::new();
    let mut i: u64 = start;
    while i < end
        invariant
            start <= i <= end <= 8 * s@.len(),
            out@.len() == i - start,
            forall|k: int|
                0 <= k < out@.len() ==> out@[k] == bytes::bit(
                    s@[(start + k) / 8],
                    (start + k) % 8,
                ),
        decreases end - i,
    {
        let k: u8 = (i % 8) as u8;
        out.push((s[(i / 8) as usize] >> k) & 1u8 == 1u8);
        i = i + 1;
    }
    assert(out@ =~= bits_between(s@, start as int, end as int));
    out
}

pub proof fn lemma_cells_room(cell_size: u32, start: int, end: int, n_rows: u64, rows: int)
    requires
        0 <= start <= end <= n_rows,
        end - start <= rows,
    ensures
        0 <= start * cell_size <= end * cell_size <= n_rows * cell_size,
        end * cell_size - start * cell_size <= rows * cell_size,
{
    assert(0 <= start * cell_size <= end * cell_size <= n_rows * cell_size && end * cell_size
        - start * cell_size <= rows * cell_size) by (nonlinear_arith)
        requires
            0 <= start <= end <= n_rows,
            end - start <= rows,
            0 <= cell_size,
    ;
}

fn fill_bucket(
    layout: &StandardStManLayout,
    cols: &[WriteColumn<'_>],
    n_rows: u64,
    start: u64,
    end: u64,
) -> (r: Vec<u8>)
    requires
        layout_fits(layout@, cells_models(cols@), n_rows),
        start <= end <= n_rows,
        end - start <= layout@.rows_per_bucket,
    ensures
        r@ == data_bucket(
            layout@,
            cells_models(cols@),
            start as int,
            end as int,
            cols@.len(),
        ),
{
    let ghost l = layout@;
    let ghost models = cells_models(cols@);
    let none: Vec<u8> = Vec::new();
    let mut bucket = resize(none.as_slice(), layout.bucket_size as usize);
    assert(none@ =~= Seq::<u8>::empty());
    let mut c: usize = 0;
    while c < cols.len()
        invariant
            c <= cols@.len(),
            l == layout@,
            models == cells_models(cols@),
            layout_fits(l, models, n_rows),
            start <= end <= n_rows,
            end - start <= l.rows_per_bucket,
            bucket@ == data_bucket(l, models, start as int, end as int, c as nat),
            bucket@.len() == l.bucket_size,
        decreases cols@.len() - c,
    {
        let col = &cols[c];
        let off: usize = layout.column_offset[c] as usize;
        let n: usize = col.bytes.len();
        assert(models[c as int] == col@);
        assert(column_fits(models[c as int], l.column_offset[c as int], n_rows, l));
        if col.cell_bits == 1 {
            let bits = bits_of(col.bytes, start, end);
            let piece = pack_bits(bits.as_slice());
            put_over(&mut bucket, off, piece.as_slice());
        } else {
            proof {
                lemma_cells_room(
                    col.cell_size,
                    start as int,
                    end as int,
                    n_rows,
                    ssm::min(l.rows_per_bucket as int, n_rows as int),
                );
                vstd::arithmetic::mul::lemma_mul_is_commutative(
                    start as int,
                    col.cell_size as int,
                );
            }
            let from: usize = (start * col.cell_size as u64) as usize;
            let to: usize = (end * col.cell_size as u64) as usize;
            let piece = vstd::slice::slice_subrange(col.bytes, from, to);
            put_over(&mut bucket, off, piece);
        }
        c = c + 1;
    }
    bucket
}

fn push_data_buckets(
    file: &mut Vec<u8>,
    layout: &StandardStManLayout,
    cols: &[WriteColumn<'_>],
    n_rows: u64,
)
    requires
        layout_fits(layout@, cells_models(cols@), n_rows),
    ensures
        final(file)@ == old(file)@ + data_bytes(
            layout@,
            cells_models(cols@),
            n_rows,
            data_count(layout@, n_rows) as nat,
        ),
{
    let ghost before = file@;
    let ghost l = layout@;
    let ghost models = cells_models(cols@);
    let rpb: u64 = layout.rows_per_bucket as u64;
    let count: u64 = piece_count(n_rows, rpb);
    let mut b: u64 = 0;
    let mut start: u64 = 0;
    proof {
        ssmout::lemma_pieces(n_rows as int, rpb as int);
        assert(file@ =~= before + data_bytes(l, models, n_rows, 0));
    }
    while b < count
        invariant
            b <= count,
            l == layout@,
            models == cells_models(cols@),
            layout_fits(l, models, n_rows),
            rpb == l.rows_per_bucket,
            count == data_count(l, n_rows),
            n_rows <= count * rpb < n_rows + rpb,
            start == b * rpb,
            file@ == before + data_bytes(l, models, n_rows, b as nat),
        decreases count - b,
    {
        proof {
            assert((b + 1) * rpb == b * rpb + rpb && (b + 1) * rpb <= count * rpb && b * rpb >= 0
                && (count - 1) * rpb == count * rpb - rpb && b * rpb <= (count - 1) * rpb)
                by (nonlinear_arith)
                requires
                    0 <= b < count,
                    rpb > 0,
            ;
        }
        let stop: u64 = start + rpb;
        let end: u64 = if stop < n_rows { stop } else { n_rows };
        let bucket = fill_bucket(layout, cols, n_rows, start, end);
        let ghost so_far = file@;
        file.extend_from_slice(bucket.as_slice());
        proof {
            let d = data_bytes(l, models, n_rows, b as nat);
            assert(file@ =~= so_far + bucket@);
            assert((before + d) + bucket@ =~= before + (d + bucket@));
            assert(bucket@ == bucket_image(l, models, n_rows, b as int));
        }
        start = stop;
        b = b + 1;
    }
}

fn make_index_bucket(big: bool, stream: &[u8], size: u32, first: u32, i: usize, count: usize) -> (r: Vec<
    u8,
>)
    requires
        size > 8,
        count == ssmout::pieces(stream@.len() as int, size - 8),
        i < count,
        first + count <= u32::MAX,
    ensures
        r@ == index_bucket(big, stream@, size, first as int, i as int),
{
    let room: u64 = (size - 8) as u64;
    proof {
        let n = stream@.len() as int;
        let p = room as int;
        ssmout::lemma_pieces(n, p);
        assert((i + 1) * p == i * p + p && i * p >= 0 && (count - 1) * p == count * p - p && i * p
            <= (count - 1) * p) by (nonlinear_arith)
            requires
                0 <= i < count,
                p > 0,
        ;
    }
    let len: u64 = stream.len() as u64;
    let from: u64 = i as u64 * room;
    let to: u64 = if len - from < room { len } else { from + room };
    let mut w = writer(big);
    let ghost s = w@;
    w.put_i32(-1);
    let next: i32 = if i + 1 < count { to_signed32(first + i as u32 + 1) } else { -1 };
    w.put_i32(next);
    let piece = vstd::slice::slice_subrange(stream, from as usize, to as usize);
    w.put_raw(piece);
    proof {
        let a = aipsio::i32_bytes(big, -1i32 as i32);
        let b = aipsio::i32_bytes(big, next);
        aipsio::lemma_sheet_put3(s, a, b, piece@);
        assert(s.put(a + b + piece@).body =~= a + b + piece@);
    }
    let raw = w.into_bytes();
    resize(raw.as_slice(), size as usize)
}

fn push_index_buckets(file: &mut Vec<u8>, big: bool, stream: &[u8], size: u32, first: u32, count: usize)
    requires
        size > 8,
        count == ssmout::pieces(stream@.len() as int, size - 8),
        first + count <= u32::MAX,
    ensures
        final(file)@ == old(file)@ + index_bytes(big, stream@, size, first as int, count as nat),
{
    let ghost before = file@;
    let mut i: usize = 0;
    assert(file@ =~= before + index_bytes(big, stream@, size, first as int, 0));
    while i < count
        invariant
            i <= count,
            size > 8,
            count == ssmout::pieces(stream@.len() as int, size - 8),
            first + count <= u32::MAX,
            file@ == before + index_bytes(big, stream@, size, first as int, i as nat),
        decreases count - i,
    {
        let bucket = make_index_bucket(big, stream, size, first, i, count);
        let ghost so_far = file@;
        file.extend_from_slice(bucket.as_slice());
        proof {
            let d = index_bytes(big, stream@, size, first as int, i as nat);
            assert(file@ =~= so_far + bucket@);
            assert((before + d) + bucket@ =~= before + (d + bucket@));
        }
        i = i + 1;
    }
}

fn push_joined(file: &mut Vec<u8>, strings: &[Vec<u8>])
    ensures
        final(file)@ == old(file)@ + joined(byte_strings(strings@), strings@.len()),
{
    let ghost before = file@;
    let ghost models = byte_strings(strings@);
    let mut i: usize = 0;
    assert(file@ =~= before + joined(models, 0));
    while i < strings.len()
        invariant
            i <= strings@.len(),
            models == byte_strings(strings@),
            file@ == before + joined(models, i as nat),
        decreases strings@.len() - i,
    {
        let ghost so_far = file@;
        file.extend_from_slice(strings[i].as_slice());
        proof {
            let d = joined(models, i as nat);
            assert(file@ =~= so_far + models[i as int]);
            assert((before + d) + models[i as int] =~= before + (d + models[i as int]));
        }
        i = i + 1;
    }
}

fn header_image(
    big: bool,
    size: u32,
    data: u32,
    index: u32,
    strings: u32,
    stream_len: usize,
) -> (r: Vec<u8>)
    requires
        data + index + strings <= u32::MAX,
    ensures
        r@ == header_bytes(
            big,
            written_numbers(
                size,
                data as int,
                index as int,
                strings as int,
                stream_len as int,
            ),
        ),
{
    let ghost n = written_numbers(
        size,
        data as int,
        index as int,
        strings as int,
        stream_len as int,
    );
    let total: u32 = data + index + strings;
    let mut w = writer(big);
    let ghost outer = w@;
    if big {
        w.put_root_object_start("StandardStMan", 2);
    } else {
        w.put_root_object_start("StandardStMan", 3);
        w.put_bool(false);
    }
    let ghost inner = w@;
    w.put_u32(size);
    w.put_u32(total);
    w.put_u32(0);
    w.put_u32(0);
    let ghost second = w@;
    w.put_i32(-1);
    w.put_u32(index);
    let first_index: i32 = if index == 0 { -1 } else { to_signed32(data) };
    w.put_i32(first_index);
    let at: i32 = if index <= 1 { 8 } else { 0 };
    w.put_i32(at);
    let ghost third = w@;
    let last: i32 = if strings == 0 { -1 } else { to_signed32(total - 1) };
    w.put_i32(last);
    w.put_u32(bytes::length32(stream_len));
    w.put_u32(1);
    w.put_object_end();
    proof {
        let b = numbers_bytes(big, n);
        let a1 = aipsio::u32_bytes(big, n.bucket_size);
        let a2 = aipsio::u32_bytes(big, n.nr_buckets);
        let a3 = aipsio::u32_bytes(big, n.pers_cache_size);
        let a4 = aipsio::u32_bytes(big, n.n_free_bucket);
        let b1 = aipsio::i32_bytes(big, n.first_free_bucket);
        let b2 = aipsio::u32_bytes(big, n.nr_index_buckets);
        let b3 = aipsio::i32_bytes(big, n.first_index_bucket);
        let b4 = aipsio::i32_bytes(big, n.index_bucket_offset);
        let c1 = aipsio::i32_bytes(big, n.last_string_bucket);
        let c2 = aipsio::u32_bytes(big, n.index_length);
        let c3 = aipsio::u32_bytes(big, n.nr_index);
        aipsio::lemma_sheet_put4(inner, a1, a2, a3, a4);
        aipsio::lemma_sheet_put4(second, b1, b2, b3, b4);
        aipsio::lemma_sheet_put3(third, c1, c2, c3);
        aipsio::lemma_sheet_put3(
            inner,
            a1 + a2 + a3 + a4,
            b1 + b2 + b3 + b4,
            c1 + c2 + c3,
        );
        if big {
            aipsio::lemma_sheet_object(outer, true, "StandardStMan"@, 2, b);
        } else {
            let f = aipsio::bool_bytes(false);
            aipsio::lemma_sheet_put(outer.start(true, "StandardStMan"@, 3), f, b);
            aipsio::lemma_sheet_object(outer, true, "StandardStMan"@, 3, f + b);
        }
        let all = header_bytes(big, n);
        assert(outer.put(all).body =~= all);
    }
    w.into_bytes()
}

/// Serialize a complete StandardStMan data file: the header, the data
/// buckets, the chain of index buckets and any string buckets, for the bucket
/// layout `layout`. `big_endian` is the data-file byte order; little-endian
/// files get the version-3 header with the explicit endianness flag,
/// big-endian files the version-2 header. `string_buckets` holds finished
/// string buckets; they come after the index buckets, and the last one is
/// reported in the header.
pub fn write_standard_stman_file(
    big_endian: bool,
    n_rows: u64,
    cols: &[WriteColumn<'_>],
    layout: &StandardStManLayout,
    string_buckets: &[Vec<u8>],
) -> (r: Vec<u8>)
    requires
        layout_fits(layout@, cells_models(cols@), n_rows),
        buckets_fit(big_endian, layout@, cols@.len(), n_rows, string_buckets@.len()),
    ensures
        r@ == file_bytes(
            big_endian,
            n_rows,
            cells_models(cols@),
            layout@,
            byte_strings(string_buckets@),
        ),
{
    let size: u32 = layout.bucket_size;
    let stream = build_index_stream(big_endian, n_rows, layout, cols.len());
    proof {
        ssmout::lemma_pieces(n_rows as int, layout@.rows_per_bucket as int);
        ssmout::lemma_pieces(stream@.len() as int, size - 8);
    }
    let data: u64 = piece_count(n_rows, layout.rows_per_bucket as u64);
    let index: usize = index_bucket_count(stream.len(), size);
    let header = header_image(
        big_endian,
        size,
        data as u32,
        index as u32,
        string_buckets.len() as u32,
        stream.len(),
    );
    let mut file = resize(header.as_slice(), 512);
    push_data_buckets(&mut file, layout, cols, n_rows);
    push_index_buckets(&mut file, big_endian, stream.as_slice(), size, data as u32, index);
    push_joined(&mut file, string_buckets);
    file
}

} // verus!
